//! The scanner: source text to tokens, one at a time.
//!
//! The text is read as bytes. A NUL byte ends it, as the end of the text
//! itself does. A token's lexeme is a slice of the source; an error token's
//! lexeme is its message.
use vstd::prelude::*;
use vstd::string::*;
use vstd::utf8::*;

verus! {

/// The kinds of token, in the order the rule table of the compiler goes by.
#[derive(Clone, Copy, Debug, PartialEq, Eq, Structural)]
pub enum TokenType {
    // Single-character tokens.
    LEFT_PAREN,
    RIGHT_PAREN,
    LEFT_BRACE,
    RIGHT_BRACE,
    COMMA,
    DOT,
    MINUS,
    PLUS,
    SEMICOLON,
    SLASH,
    STAR,
    // One or two character tokens.
    BANG,
    BANG_EQUAL,
    EQUAL,
    EQUAL_EQUAL,
    GREATER,
    GREATER_EQUAL,
    LESS,
    LESS_EQUAL,
    // Literals.
    IDENTIFIER,
    STRING,
    NUMBER,
    // Keywords.
    AND,
    CLASS,
    ELSE,
    FALSE,
    FOR,
    FUN,
    IF,
    NIL,
    OR,
    PRINT,
    RETURN,
    SUPER,
    THIS,
    TRUE,
    VAR,
    WHILE,
    ERROR,
    EOF,
}

/// The scanner: the text from the start of the token being read, the
/// number of its bytes read so far, and the current line.
#[derive(Clone, Copy, Debug)]
pub struct Scanner<'a> {
    pub start: &'a str,
    pub current: usize,
    pub line: i32,
}

/// A token: its kind, its lexeme, and the line it ends on.
#[derive(Clone, Copy, Debug)]
pub struct Token<'a> {
    pub token_type: TokenType,
    pub start: &'a str,
    pub line: i32,
}

/// A scanner, in contracts: the bytes from the start of the token being
/// read, the offset of the next byte, and the line.
pub struct ScannerView {
    pub text: Seq<u8>,
    pub current: int,
    pub line: int,
}

/// A token, in contracts: the lexeme is its bytes.
pub struct TokenView {
    pub kind: TokenType,
    pub lexeme: Seq<u8>,
    pub line: int,
}

impl<'a> View for Scanner<'a> {
    type V = ScannerView;

    open spec fn view(&self) -> ScannerView {
        ScannerView {
            text: self.start.spec_bytes(),
            current: self.current as int,
            line: self.line as int,
        }
    }
}

impl<'a> View for Token<'a> {
    type V = TokenView;

    open spec fn view(&self) -> TokenView {
        TokenView {
            kind: self.token_type,
            lexeme: self.start.spec_bytes(),
            line: self.line as int,
        }
    }
}

/// The bytes of a text of ASCII characters.
pub open spec fn ascii_bytes(chars: Seq<char>) -> Seq<u8> {
    Seq::new(chars.len(), |i: int| chars[i] as u8)
}

/// A letter or an underscore.
pub open spec fn is_alpha(c: u8) -> bool {
    ('a' as u8 <= c <= 'z' as u8) || ('A' as u8 <= c <= 'Z' as u8) || c == '_' as u8
}

/// A decimal digit.
pub open spec fn is_digit(c: u8) -> bool {
    '0' as u8 <= c <= '9' as u8
}

/// A space, a carriage return, a tab or a line feed.
pub open spec fn is_blank(c: u8) -> bool {
    c == ' ' as u8 || c == '\r' as u8 || c == '\t' as u8 || c == '\n' as u8
}

/// The byte at `i`; past the end of the text it is NUL.
pub open spec fn byte_at(text: Seq<u8>, i: int) -> u8 {
    if 0 <= i < text.len() {
        text[i]
    } else {
        0
    }
}

/// The text ends at `i`: with a NUL byte, or because there is no more.
pub open spec fn at_end(text: Seq<u8>, i: int) -> bool {
    byte_at(text, i) == 0
}

/// The end of the longest run of bytes in `member` that starts at `i`.
pub open spec fn run_end(text: Seq<u8>, i: int, member: spec_fn(u8) -> bool) -> int
    decreases text.len() - i,
{
    if 0 <= i < text.len() && member(text[i]) {
        run_end(text, i + 1, member)
    } else {
        i
    }
}

/// The bytes of a number's digits.
pub open spec fn digit() -> spec_fn(u8) -> bool {
    |b: u8| is_digit(b)
}

/// The bytes an identifier goes on with: letters, underscores and digits.
pub open spec fn word_byte() -> spec_fn(u8) -> bool {
    |b: u8| is_alpha(b) || is_digit(b)
}

/// The bytes inside a comment: any but a line feed and the end.
pub open spec fn comment_byte() -> spec_fn(u8) -> bool {
    |b: u8| b != 0 && b != '\n' as u8
}

/// The bytes inside a string: any but the closing quote and the end.
pub open spec fn string_byte() -> spec_fn(u8) -> bool {
    |b: u8| b != 0 && b != '"' as u8
}

/// The bytes that go on with a character begun before them.
pub open spec fn continuation() -> spec_fn(u8) -> bool {
    |b: u8| is_continuation_byte(b)
}

/// The number of line feeds among the bytes from `from` up to `to`.
pub open spec fn newlines(text: Seq<u8>, from: int, to: int) -> int
    decreases to - from,
{
    if to <= from {
        0
    } else {
        newlines(text, from, to - 1) + if byte_at(text, to - 1) == '\n' as u8 {
            1int
        } else {
            0int
        }
    }
}

/// The offset of the first byte at or after `i` that is neither blank nor
/// inside a comment. A comment runs from `//` up to the line feed.
pub open spec fn skip_blank(text: Seq<u8>, i: int) -> int
    decreases text.len() - i,
{
    if i < 0 || i >= text.len() {
        i
    } else if is_blank(text[i]) {
        skip_blank(text, i + 1)
    } else if text[i] == '/' as u8 && byte_at(text, i + 1) == '/' as u8 {
        let end = run_end(text, i, comment_byte());
        if i < end <= text.len() {
            skip_blank(text, end)
        } else {
            i
        }
    } else {
        i
    }
}

/// Where a number that starts the text ends: after its digits, and after a
/// point and more digits where a digit follows the point.
pub open spec fn number_end(text: Seq<u8>) -> int {
    let digits = run_end(text, 1, digit());
    if byte_at(text, digits) == '.' as u8 && is_digit(byte_at(text, digits + 1)) {
        run_end(text, digits + 1, digit())
    } else {
        digits
    }
}

/// The bytes from `from` up to `to` are digits.
pub open spec fn all_digits(lexeme: Seq<u8>, from: int, to: int) -> bool {
    forall|j: int| from <= j < to ==> is_digit(#[trigger] lexeme[j])
}

/// The lexeme of a number: one digit or more, and then nothing, or a
/// point and one digit or more.
pub open spec fn number_lexeme(lexeme: Seq<u8>) -> bool {
    exists|point: int|
        1 <= point <= lexeme.len() && #[trigger] all_digits(lexeme, 0, point) && (point
            == lexeme.len() || (lexeme[point] == '.' as u8 && point + 2 <= lexeme.len()
            && all_digits(lexeme, point + 1, lexeme.len() as int)))
}

/// The lexeme of a string: what stands between two quotes, and the quotes.
pub open spec fn string_lexeme(lexeme: Seq<u8>) -> bool {
    lexeme.len() >= 2 && lexeme[0] == '"' as u8 && lexeme.last() == '"' as u8
}

impl TokenView {
    /// The lexeme has the shape that the token's kind promises, and the
    /// line is one of the text.
    pub open spec fn wf(self) -> bool {
        &&& 1 <= self.line <= i32::MAX
        &&& valid_utf8(self.lexeme)
        &&& self.kind == TokenType::NUMBER ==> number_lexeme(self.lexeme)
        &&& self.kind == TokenType::STRING ==> string_lexeme(self.lexeme)
    }
}

/// The kind of an identifier's lexeme: that of the keyword it spells, or
/// `IDENTIFIER`.
pub open spec fn keyword_kind(lexeme: Seq<u8>) -> TokenType {
    if lexeme == ascii_bytes("and"@) {
        TokenType::AND
    } else if lexeme == ascii_bytes("class"@) {
        TokenType::CLASS
    } else if lexeme == ascii_bytes("else"@) {
        TokenType::ELSE
    } else if lexeme == ascii_bytes("false"@) {
        TokenType::FALSE
    } else if lexeme == ascii_bytes("for"@) {
        TokenType::FOR
    } else if lexeme == ascii_bytes("fun"@) {
        TokenType::FUN
    } else if lexeme == ascii_bytes("if"@) {
        TokenType::IF
    } else if lexeme == ascii_bytes("nil"@) {
        TokenType::NIL
    } else if lexeme == ascii_bytes("or"@) {
        TokenType::OR
    } else if lexeme == ascii_bytes("print"@) {
        TokenType::PRINT
    } else if lexeme == ascii_bytes("return"@) {
        TokenType::RETURN
    } else if lexeme == ascii_bytes("super"@) {
        TokenType::SUPER
    } else if lexeme == ascii_bytes("this"@) {
        TokenType::THIS
    } else if lexeme == ascii_bytes("true"@) {
        TokenType::TRUE
    } else if lexeme == ascii_bytes("var"@) {
        TokenType::VAR
    } else if lexeme == ascii_bytes("while"@) {
        TokenType::WHILE
    } else {
        TokenType::IDENTIFIER
    }
}

/// The message of the error token for a byte that starts no token.
pub open spec fn unexpected_character() -> Seq<char> {
    "Unexpected character."@
}

/// The message of the error token for a string without closing quote.
pub open spec fn unterminated_string() -> Seq<char> {
    "Unterminated string."@
}

/// What reading one token finds: its kind, the number of bytes read, and
/// its lexeme.
pub struct Lexed {
    pub kind: TokenType,
    pub end: int,
    pub lexeme: Seq<u8>,
}

/// A token whose lexeme is the first `end` bytes of the text.
pub open spec fn sliced(text: Seq<u8>, kind: TokenType, end: int) -> Lexed {
    Lexed { kind, end, lexeme: text.subrange(0, end) }
}

/// An error token, which stands for the first `end` bytes of the text and
/// carries `message` as its lexeme.
pub open spec fn mistaken(end: int, message: Seq<char>) -> Lexed {
    Lexed { kind: TokenType::ERROR, end, lexeme: encode_utf8(message) }
}

/// The token at the start of `text`, which is neither blank nor a comment.
pub open spec fn lex(text: Seq<u8>) -> Lexed {
    if at_end(text, 0) {
        sliced(text, TokenType::EOF, 0)
    } else if is_alpha(text[0]) {
        let end = run_end(text, 1, word_byte());
        sliced(text, keyword_kind(text.subrange(0, end)), end)
    } else if is_digit(text[0]) {
        sliced(text, TokenType::NUMBER, number_end(text))
    } else if text[0] == '(' as u8 {
        sliced(text, TokenType::LEFT_PAREN, 1)
    } else if text[0] == ')' as u8 {
        sliced(text, TokenType::RIGHT_PAREN, 1)
    } else if text[0] == '{' as u8 {
        sliced(text, TokenType::LEFT_BRACE, 1)
    } else if text[0] == '}' as u8 {
        sliced(text, TokenType::RIGHT_BRACE, 1)
    } else if text[0] == ';' as u8 {
        sliced(text, TokenType::SEMICOLON, 1)
    } else if text[0] == ',' as u8 {
        sliced(text, TokenType::COMMA, 1)
    } else if text[0] == '.' as u8 {
        sliced(text, TokenType::DOT, 1)
    } else if text[0] == '-' as u8 {
        sliced(text, TokenType::MINUS, 1)
    } else if text[0] == '+' as u8 {
        sliced(text, TokenType::PLUS, 1)
    } else if text[0] == '/' as u8 {
        sliced(text, TokenType::SLASH, 1)
    } else if text[0] == '*' as u8 {
        sliced(text, TokenType::STAR, 1)
    } else if text[0] == '!' as u8 {
        if byte_at(text, 1) == '=' as u8 {
            sliced(text, TokenType::BANG_EQUAL, 2)
        } else {
            sliced(text, TokenType::BANG, 1)
        }
    } else if text[0] == '=' as u8 {
        if byte_at(text, 1) == '=' as u8 {
            sliced(text, TokenType::EQUAL_EQUAL, 2)
        } else {
            sliced(text, TokenType::EQUAL, 1)
        }
    } else if text[0] == '<' as u8 {
        if byte_at(text, 1) == '=' as u8 {
            sliced(text, TokenType::LESS_EQUAL, 2)
        } else {
            sliced(text, TokenType::LESS, 1)
        }
    } else if text[0] == '>' as u8 {
        if byte_at(text, 1) == '=' as u8 {
            sliced(text, TokenType::GREATER_EQUAL, 2)
        } else {
            sliced(text, TokenType::GREATER, 1)
        }
    } else if text[0] == '"' as u8 {
        let quote = run_end(text, 1, string_byte());
        if at_end(text, quote) {
            mistaken(quote, unterminated_string())
        } else {
            sliced(text, TokenType::STRING, quote + 1)
        }
    } else {
        mistaken(run_end(text, 1, continuation()), unexpected_character())
    }
}

impl ScannerView {
    /// The offset and the line are in range: the offset within the text,
    /// the line at least 1 and small enough to count every line feed still
    /// to come. The text is UTF-8.
    pub open spec fn inv(self) -> bool {
        &&& 0 <= self.current <= self.text.len()
        &&& 1 <= self.line
        &&& self.line + (self.text.len() - self.current) <= i32::MAX
        &&& valid_utf8(self.text)
    }

    /// The scanner is between two tokens: in range, and not inside a
    /// character.
    pub open spec fn wf(self) -> bool {
        self.inv() && is_char_boundary(self.text, self.current)
    }

    /// The bytes not read yet.
    pub open spec fn pending(self) -> Seq<u8> {
        self.text.subrange(self.current, self.text.len() as int)
    }

    /// The next token, and the scanner after it: blanks and comments are
    /// passed over, the text is anchored at the token's first byte, and the
    /// line has grown by the line feeds passed.
    #[verifier::opaque]
    pub open spec fn scan(self) -> (TokenView, ScannerView) {
        let start = skip_blank(self.text, self.current);
        let rest = self.text.subrange(start, self.text.len() as int);
        let found = lex(rest);
        let line = self.line + newlines(self.text, self.current, start) + newlines(
            rest,
            0,
            found.end,
        );
        (
            TokenView { kind: found.kind, lexeme: found.lexeme, line },
            ScannerView { text: rest, current: found.end, line },
        )
    }
}

impl<'a> Scanner<'a> {
    /// The offset and the line are in range.
    pub open spec fn inv(&self) -> bool {
        self@.inv()
    }

    /// The scanner is between two tokens.
    pub open spec fn wf(&self) -> bool {
        self@.wf()
    }
}

/// A run ends at or after its start, and within the text where it starts
/// there.
pub proof fn lemma_run_end_bounds(text: Seq<u8>, i: int, member: spec_fn(u8) -> bool)
    ensures
        i <= run_end(text, i, member),
        0 <= i <= text.len() ==> run_end(text, i, member) <= text.len(),
        0 <= run_end(text, i, member) < text.len() ==> !member(text[run_end(text, i, member)]),
    decreases text.len() - i,
{
    if 0 <= i < text.len() && member(text[i]) {
        lemma_run_end_bounds(text, i + 1, member);
    }
}

/// Blanks end at or after their start, within the text, and before a byte
/// that is not blank.
pub proof fn lemma_skip_blank_bounds(text: Seq<u8>, i: int)
    requires
        0 <= i <= text.len(),
    ensures
        i <= skip_blank(text, i) <= text.len(),
        !is_blank(byte_at(text, skip_blank(text, i))),
    decreases text.len() - i,
{
    if i >= text.len() {
    } else if is_blank(text[i]) {
        lemma_skip_blank_bounds(text, i + 1);
    } else if text[i] == '/' as u8 && byte_at(text, i + 1) == '/' as u8 {
        let end = run_end(text, i, comment_byte());
        lemma_run_end_bounds(text, i, comment_byte());
        if end > i {
            lemma_skip_blank_bounds(text, end);
        }
    }
}

/// A token ends within the text, and only the end of the text has no
/// byte.
pub proof fn lemma_lex_bounds(text: Seq<u8>)
    ensures
        0 <= lex(text).end <= text.len(),
        lex(text).kind != TokenType::EOF ==> lex(text).end >= 1,
        lex(text).kind == TokenType::EOF ==> lex(text).end == 0 && at_end(text, 0),
{
    if !at_end(text, 0) {
        lemma_run_end_bounds(text, 1, word_byte());
        lemma_run_end_bounds(text, 1, digit());
        lemma_run_end_bounds(text, run_end(text, 1, digit()) + 1, digit());
        lemma_run_end_bounds(text, 1, string_byte());
        lemma_run_end_bounds(text, 1, continuation());
        lemma_keyword_starts();
    }
}

/// A scanner within its text stays within it, and no token gives bytes
/// back; every token but the end takes one at least, and after the end comes
/// the end again.
pub proof fn lemma_scan_bounds(scanner: ScannerView)
    requires
        0 <= scanner.current <= scanner.text.len(),
    ensures
        0 <= scanner.scan().1.current <= scanner.scan().1.text.len(),
        scanner.scan().1.pending().len() <= scanner.pending().len(),
        scanner.scan().0.kind != TokenType::EOF ==> scanner.scan().1.pending().len()
            < scanner.pending().len(),
        scanner.scan().0.kind == TokenType::EOF ==> scanner.scan().1.scan().0.kind
            == TokenType::EOF,
{
    reveal(ScannerView::scan);
    lemma_skip_blank_bounds(scanner.text, scanner.current);
    let start = skip_blank(scanner.text, scanner.current);
    let rest = scanner.text.subrange(start, scanner.text.len() as int);
    lemma_lex_bounds(rest);
    if lex(rest).kind == TokenType::EOF {
        let next = scanner.scan().1;
        assert(next.text == rest);
        assert(next.current == 0);
        assert(skip_blank(rest, 0) == 0);
        assert(rest.subrange(0, rest.len() as int) =~= rest);
    }
}

/// The byte after an ASCII byte starts a character, or ends the text.
pub proof fn lemma_boundary_after_ascii(bytes: Seq<u8>, i: int)
    requires
        valid_utf8(bytes),
        0 <= i < bytes.len(),
        bytes[i] < 0x80,
    ensures
        is_char_boundary(bytes, i + 1),
    decreases bytes.len(),
{
    let first = length_of_first_scalar(bytes);
    let rest = pop_first_scalar(bytes);
    if i < first {
        assert(i == 0);
        assert(first == 1);
        assert(is_char_boundary(rest, 0));
    } else {
        assert(rest[i - first] == bytes[i]);
        lemma_boundary_after_ascii(rest, i - first);
    }
}

/// A byte that goes on with no character starts one; so does the end of
/// the text.
pub proof fn lemma_boundary_at_start(bytes: Seq<u8>, i: int)
    requires
        valid_utf8(bytes),
        0 <= i <= bytes.len(),
        i == bytes.len() || !is_continuation_byte(bytes[i]),
    ensures
        is_char_boundary(bytes, i),
{
    if i == bytes.len() {
        is_char_boundary_start_end_of_seq(bytes);
    } else {
        is_char_boundary_iff_not_is_continuation_byte(bytes, i);
    }
}

/// A scanner at the start of `source`, on line 1.
pub fn initScanner<'a>(source: &'a str) -> (scanner: Scanner<'a>)
    requires
        source.spec_bytes().len() < i32::MAX,
    ensures
        scanner@ == (ScannerView { text: source.spec_bytes(), current: 0, line: 1 }),
        scanner.start == source,
        scanner.wf(),
{
    proof {
        encode_utf8_valid_utf8(source@);
    }
    Scanner { start: source, current: 0, line: 1 }
}

/// Whether a byte is a letter or an underscore.
pub fn isAlpha(c: u8) -> (yes: bool)
    ensures
        yes == is_alpha(c),
{
    (c >= 'a' as u8 && c <= 'z' as u8) || (c >= 'A' as u8 && c <= 'Z' as u8) || c == '_' as u8
}

/// Whether a byte is a decimal digit.
pub fn isDigit(c: u8) -> (yes: bool)
    ensures
        yes == is_digit(c),
{
    c >= '0' as u8 && c <= '9' as u8
}

/// The next byte, or NUL at the end of the text.
pub fn peek(scanner: &Scanner) -> (c: u8)
    ensures
        c == byte_at(scanner@.text, scanner@.current),
{
    let bytes = scanner.start.as_bytes();
    if scanner.current < bytes.len() {
        bytes[scanner.current]
    } else {
        0
    }
}

/// Whether the text ends at the next byte.
pub fn isAtEnd(scanner: &Scanner) -> (yes: bool)
    ensures
        yes == at_end(scanner@.text, scanner@.current),
{
    peek(scanner) == 0
}

/// The byte after the next one, or NUL where the text ends before it.
pub fn peekNext(scanner: &Scanner) -> (c: u8)
    ensures
        c == if at_end(scanner@.text, scanner@.current) {
            0
        } else {
            byte_at(scanner@.text, scanner@.current + 1)
        },
{
    let bytes = scanner.start.as_bytes();
    let length = bytes.len();
    if isAtEnd(scanner) {
        0
    } else if scanner.current + 1 < length {
        bytes[scanner.current + 1]
    } else {
        0
    }
}

/// Reads the next byte.
pub fn advance(scanner: &mut Scanner) -> (c: u8)
    requires
        old(scanner).inv(),
        old(scanner)@.current < old(scanner)@.text.len(),
    ensures
        c == old(scanner)@.text[old(scanner)@.current],
        final(scanner)@ == (ScannerView { current: old(scanner)@.current + 1, ..old(scanner)@ }),
        final(scanner).start == old(scanner).start,
        final(scanner).inv(),
{
    let c = peek(scanner);
    // The length of the text fits a `usize`, and so does the next offset.
    let _ = scanner.start.as_bytes().len();
    scanner.current += 1;
    c
}

/// Reads the next byte if it is `expected`. At the end of the text no
/// byte is read, whatever is expected.
pub fn matchChar(scanner: &mut Scanner, expected: u8) -> (matched: bool)
    requires
        old(scanner).inv(),
    ensures
        matched == (!at_end(old(scanner)@.text, old(scanner)@.current) && byte_at(
            old(scanner)@.text,
            old(scanner)@.current,
        ) == expected),
        final(scanner)@ == (ScannerView {
            current: old(scanner)@.current + if matched {
                1int
            } else {
                0int
            },
            ..old(scanner)@
        }),
        final(scanner).start == old(scanner).start,
        final(scanner).inv(),
{
    if isAtEnd(scanner) || peek(scanner) != expected {
        false
    } else {
        let _ = advance(scanner);
        true
    }
}

/// Passes over blanks and comments, counting the line feeds.
pub fn skipWhitespace(scanner: &mut Scanner)
    requires
        old(scanner).wf(),
    ensures
        final(scanner).wf(),
        final(scanner).start == old(scanner).start,
        final(scanner)@.current == skip_blank(old(scanner)@.text, old(scanner)@.current),
        final(scanner)@.line == old(scanner)@.line + newlines(
            old(scanner)@.text,
            old(scanner)@.current,
            final(scanner)@.current,
        ),
{
    let ghost text = scanner@.text;
    let ghost from = scanner@.current;
    let ghost line = scanner@.line;
    loop
        invariant
            scanner.wf(),
            scanner.start == old(scanner).start,
            scanner@.text == text,
            text == old(scanner)@.text,
            from == old(scanner)@.current,
            line == old(scanner)@.line,
            from <= scanner@.current,
            skip_blank(text, scanner@.current) == skip_blank(text, from),
            scanner@.line == line + newlines(text, from, scanner@.current),
        decreases scanner@.text.len() - scanner@.current,
    {
        let c = peek(scanner);
        if c == ' ' as u8 || c == '\r' as u8 || c == '\t' as u8 {
            let _ = advance(scanner);
            proof {
                lemma_boundary_after_ascii(text, scanner@.current - 1);
            }
        } else if c == '\n' as u8 {
            let _ = advance(scanner);
            scanner.line += 1;
            proof {
                lemma_boundary_after_ascii(text, scanner@.current - 1);
            }
        } else if c == '/' as u8 {
            if peekNext(scanner) == '/' as u8 {
                let ghost slash = scanner@.current;
                // A comment goes until the end of the line.
                while peek(scanner) != '\n' as u8 && !isAtEnd(scanner)
                    invariant
                        scanner.inv(),
                        scanner.start == old(scanner).start,
                        scanner@.text == text,
                        slash <= scanner@.current,
                        run_end(text, scanner@.current, comment_byte()) == run_end(
                            text,
                            slash,
                            comment_byte(),
                        ),
                        scanner@.line == line + newlines(text, from, scanner@.current),
                    decreases scanner@.text.len() - scanner@.current,
                {
                    let _ = advance(scanner);
                }
                proof {
                    lemma_run_end_bounds(text, slash + 1, comment_byte());
                    lemma_boundary_at_start(text, scanner@.current);
                }
            } else {
                return ;
            }
        } else {
            return ;
        }
    }
}

/// The token for the bytes read since the anchor.
pub fn makeToken<'a>(scanner: &Scanner<'a>, token_type: TokenType) -> (token: Token<'a>)
    requires
        scanner.wf(),
    ensures
        token@ == (TokenView {
            kind: token_type,
            lexeme: scanner@.text.subrange(0, scanner@.current),
            line: scanner@.line,
        }),
        valid_utf8(token@.lexeme),
{
    let (lexeme, _) = scanner.start.split_at(scanner.current);
    proof {
        encode_utf8_valid_utf8(lexeme@);
    }
    Token { token_type, start: lexeme, line: scanner.line }
}

/// An error token with `message` as its lexeme.
pub fn errorToken<'a>(scanner: &Scanner, message: &'a str) -> (token: Token<'a>)
    ensures
        token@ == (TokenView {
            kind: TokenType::ERROR,
            lexeme: encode_utf8(message@),
            line: scanner@.line,
        }),
        token.start == message,
        valid_utf8(token@.lexeme),
{
    proof {
        encode_utf8_valid_utf8(message@);
    }
    Token { token_type: TokenType::ERROR, start: message, line: scanner.line }
}


/// A word equals a lexeme that starts like it where the rest of the
/// lexeme equals the rest of the word.
proof fn lemma_word(lexeme: Seq<u8>, word: Seq<u8>, k: int, tail: Seq<u8>)
    requires
        0 <= k <= word.len(),
        k <= lexeme.len(),
        tail == word.subrange(k, word.len() as int),
        lexeme.subrange(0, k) == word.subrange(0, k),
    ensures
        (lexeme == word) <==> (lexeme.subrange(k, lexeme.len() as int) == tail),
{
    if lexeme.subrange(k, lexeme.len() as int) == tail {
        assert(lexeme.subrange(k, lexeme.len() as int).len() == lexeme.len() - k);
        assert(word.subrange(k, word.len() as int).len() == word.len() - k);
        assert(lexeme.len() == word.len());
        assert forall|i: int| 0 <= i < lexeme.len() implies lexeme[i] == word[i] by {
            if i < k {
                assert(lexeme[i] == lexeme.subrange(0, k)[i]);
                assert(word[i] == word.subrange(0, k)[i]);
            } else {
                assert(lexeme[i] == lexeme.subrange(k, lexeme.len() as int)[i - k]);
                assert(word[i] == word.subrange(k, word.len() as int)[i - k]);
            }
        }
        assert(lexeme =~= word);
    }
    if lexeme == word {
        assert(lexeme.subrange(k, lexeme.len() as int) =~= tail);
    }
}

/// The first two bytes of each keyword.
proof fn lemma_keyword_starts()
    ensures
        ascii_bytes("and"@)[0] == 'a' as u8,
        ascii_bytes("class"@)[0] == 'c' as u8,
        ascii_bytes("else"@)[0] == 'e' as u8,
        ascii_bytes("false"@)[0] == 'f' as u8,
        ascii_bytes("false"@)[1] == 'a' as u8,
        ascii_bytes("for"@)[0] == 'f' as u8,
        ascii_bytes("for"@)[1] == 'o' as u8,
        ascii_bytes("fun"@)[0] == 'f' as u8,
        ascii_bytes("fun"@)[1] == 'u' as u8,
        ascii_bytes("if"@)[0] == 'i' as u8,
        ascii_bytes("nil"@)[0] == 'n' as u8,
        ascii_bytes("or"@)[0] == 'o' as u8,
        ascii_bytes("print"@)[0] == 'p' as u8,
        ascii_bytes("return"@)[0] == 'r' as u8,
        ascii_bytes("super"@)[0] == 's' as u8,
        ascii_bytes("this"@)[0] == 't' as u8,
        ascii_bytes("this"@)[1] == 'h' as u8,
        ascii_bytes("true"@)[0] == 't' as u8,
        ascii_bytes("true"@)[1] == 'r' as u8,
        ascii_bytes("var"@)[0] == 'v' as u8,
        ascii_bytes("while"@)[0] == 'w' as u8,
        ascii_bytes("false"@).len() > 1,
        ascii_bytes("for"@).len() > 1,
        ascii_bytes("fun"@).len() > 1,
        ascii_bytes("this"@).len() > 1,
        ascii_bytes("true"@).len() > 1,
{
    reveal_strlit("and");
    reveal_strlit("class");
    reveal_strlit("else");
    reveal_strlit("false");
    reveal_strlit("for");
    reveal_strlit("fun");
    reveal_strlit("if");
    reveal_strlit("nil");
    reveal_strlit("or");
    reveal_strlit("print");
    reveal_strlit("return");
    reveal_strlit("super");
    reveal_strlit("this");
    reveal_strlit("true");
    reveal_strlit("var");
    reveal_strlit("while");
}

/// What is left of the lexeme after `start` bytes decides between
/// `token_type` and an identifier: the keyword's remainder `rest`, byte for
/// byte and of the same length, gives the keyword. A lexeme of fewer than
/// `start` bytes is an identifier.
pub fn checkKeyword(scanner: &Scanner, start: usize, rest: &str, token_type: TokenType) -> (kind:
    TokenType)
    requires
        scanner.inv(),
    ensures
        kind == if start <= scanner@.current && scanner@.text.subrange(
            start as int,
            scanner@.current,
        ) == rest.spec_bytes() {
            token_type
        } else {
            TokenType::IDENTIFIER
        },
{
    let bytes = scanner.start.as_bytes();
    let word = rest.as_bytes();
    if start > scanner.current || scanner.current - start != word.len() {
        return TokenType::IDENTIFIER;
    }
    let ghost lexeme = scanner@.text.subrange(start as int, scanner@.current);
    let mut i: usize = 0;
    while i < word.len()
        invariant
            i <= word.len(),
            bytes@ == scanner@.text,
            word@ == rest.spec_bytes(),
            start <= scanner.current,
            scanner.current - start == word.len(),
            scanner.current <= bytes.len(),
            lexeme == scanner@.text.subrange(start as int, scanner@.current),
            forall|j: int| 0 <= j < i ==> lexeme[j] == word[j],
        decreases word.len() - i,
    {
        if bytes[start + i] != word[i] {
            assert(lexeme[i as int] != word@[i as int]);
            return TokenType::IDENTIFIER;
        }
        i = i + 1;
    }
    assert(lexeme =~= word@);
    token_type
}

/// A lexeme can only be a keyword that starts as it does.
proof fn lemma_kind_by_initial(lexeme: Seq<u8>)
    requires
        lexeme.len() >= 1,
    ensures
        keyword_kind(lexeme) == if lexeme[0] == 'a' as u8 && lexeme == ascii_bytes("and"@) {
            TokenType::AND
        } else if lexeme[0] == 'c' as u8 && lexeme == ascii_bytes("class"@) {
            TokenType::CLASS
        } else if lexeme[0] == 'e' as u8 && lexeme == ascii_bytes("else"@) {
            TokenType::ELSE
        } else if lexeme[0] == 'f' as u8 && lexeme.len() > 1 && lexeme[1] == 'a' as u8 && lexeme
            == ascii_bytes("false"@) {
            TokenType::FALSE
        } else if lexeme[0] == 'f' as u8 && lexeme.len() > 1 && lexeme[1] == 'o' as u8 && lexeme
            == ascii_bytes("for"@) {
            TokenType::FOR
        } else if lexeme[0] == 'f' as u8 && lexeme.len() > 1 && lexeme[1] == 'u' as u8 && lexeme
            == ascii_bytes("fun"@) {
            TokenType::FUN
        } else if lexeme[0] == 'i' as u8 && lexeme == ascii_bytes("if"@) {
            TokenType::IF
        } else if lexeme[0] == 'n' as u8 && lexeme == ascii_bytes("nil"@) {
            TokenType::NIL
        } else if lexeme[0] == 'o' as u8 && lexeme == ascii_bytes("or"@) {
            TokenType::OR
        } else if lexeme[0] == 'p' as u8 && lexeme == ascii_bytes("print"@) {
            TokenType::PRINT
        } else if lexeme[0] == 'r' as u8 && lexeme == ascii_bytes("return"@) {
            TokenType::RETURN
        } else if lexeme[0] == 's' as u8 && lexeme == ascii_bytes("super"@) {
            TokenType::SUPER
        } else if lexeme[0] == 't' as u8 && lexeme.len() > 1 && lexeme[1] == 'h' as u8 && lexeme
            == ascii_bytes("this"@) {
            TokenType::THIS
        } else if lexeme[0] == 't' as u8 && lexeme.len() > 1 && lexeme[1] == 'r' as u8 && lexeme
            == ascii_bytes("true"@) {
            TokenType::TRUE
        } else if lexeme[0] == 'v' as u8 && lexeme == ascii_bytes("var"@) {
            TokenType::VAR
        } else if lexeme[0] == 'w' as u8 && lexeme == ascii_bytes("while"@) {
            TokenType::WHILE
        } else {
            TokenType::IDENTIFIER
        },
{
    lemma_keyword_starts();
}

/// The kind of the identifier read since the anchor: a keyword's, or
/// `IDENTIFIER`. The first byte, and for `f` and `t` the second, choose
/// the only keyword that the lexeme can still be.
pub fn identifierType(scanner: &Scanner) -> (kind: TokenType)
    requires
        scanner.inv(),
        1 <= scanner.current,
    ensures
        kind == keyword_kind(scanner@.text.subrange(0, scanner@.current)),
{
    let bytes = scanner.start.as_bytes();
    let ghost text = scanner@.text;
    let ghost lexeme = text.subrange(0, scanner@.current);
    let ghost rest1 = text.subrange(1, scanner@.current);
    let ghost rest2 = text.subrange(2, scanner@.current);
    proof {
        lemma_kind_by_initial(lexeme);
        assert(lexeme[0] == text[0]);
        assert(rest1 =~= lexeme.subrange(1, lexeme.len() as int));
        if scanner@.current > 1 {
            assert(lexeme[1] == text[1]);
            assert(rest2 =~= lexeme.subrange(2, lexeme.len() as int));
        }
    }
    let first = bytes[0];
    if first == 'a' as u8 {
        assert("nd".spec_bytes() == ascii_bytes("nd"@) && (lexeme == ascii_bytes("and"@) <==> rest1 == ascii_bytes("nd"@)))
            by {
            reveal_strlit("and");
            reveal_strlit("nd");
            is_ascii_spec_bytes("nd");
            lemma_initial(lexeme, "and"@, "nd"@);
        }
        return checkKeyword(scanner, 1, "nd", TokenType::AND);
    } else if first == 'c' as u8 {
        assert("lass".spec_bytes() == ascii_bytes("lass"@) && (lexeme == ascii_bytes("class"@) <==> rest1 == ascii_bytes(
            "lass"@,
        ))) by {
            reveal_strlit("class");
            reveal_strlit("lass");
            is_ascii_spec_bytes("lass");
            lemma_initial(lexeme, "class"@, "lass"@);
        }
        return checkKeyword(scanner, 1, "lass", TokenType::CLASS);
    } else if first == 'e' as u8 {
        assert("lse".spec_bytes() == ascii_bytes("lse"@) && (lexeme == ascii_bytes("else"@) <==> rest1 == ascii_bytes(
            "lse"@,
        ))) by {
            reveal_strlit("else");
            reveal_strlit("lse");
            is_ascii_spec_bytes("lse");
            lemma_initial(lexeme, "else"@, "lse"@);
        }
        return checkKeyword(scanner, 1, "lse", TokenType::ELSE);
    } else if first == 'f' as u8 {
        if scanner.current > 1 {
            let second = bytes[1];
            if second == 'a' as u8 {
                assert("lse".spec_bytes() == ascii_bytes("lse"@) && (lexeme == ascii_bytes("false"@) <==> rest2
                    == ascii_bytes("lse"@))) by {
                    reveal_strlit("false");
                    reveal_strlit("lse");
                    is_ascii_spec_bytes("lse");
                    lemma_initials(lexeme, "false"@, "lse"@);
                }
                return checkKeyword(scanner, 2, "lse", TokenType::FALSE);
            } else if second == 'o' as u8 {
                assert("r".spec_bytes() == ascii_bytes("r"@) && (lexeme == ascii_bytes("for"@) <==> rest2 == ascii_bytes(
                    "r"@,
                ))) by {
                    reveal_strlit("for");
                    reveal_strlit("r");
                    is_ascii_spec_bytes("r");
                    lemma_initials(lexeme, "for"@, "r"@);
                }
                return checkKeyword(scanner, 2, "r", TokenType::FOR);
            } else if second == 'u' as u8 {
                assert("n".spec_bytes() == ascii_bytes("n"@) && (lexeme == ascii_bytes("fun"@) <==> rest2 == ascii_bytes(
                    "n"@,
                ))) by {
                    reveal_strlit("fun");
                    reveal_strlit("n");
                    is_ascii_spec_bytes("n");
                    lemma_initials(lexeme, "fun"@, "n"@);
                }
                return checkKeyword(scanner, 2, "n", TokenType::FUN);
            }
        }
    } else if first == 'i' as u8 {
        assert("f".spec_bytes() == ascii_bytes("f"@) && (lexeme == ascii_bytes("if"@) <==> rest1 == ascii_bytes("f"@)))
            by {
            reveal_strlit("if");
            reveal_strlit("f");
            is_ascii_spec_bytes("f");
            lemma_initial(lexeme, "if"@, "f"@);
        }
        return checkKeyword(scanner, 1, "f", TokenType::IF);
    } else if first == 'n' as u8 {
        assert("il".spec_bytes() == ascii_bytes("il"@) && (lexeme == ascii_bytes("nil"@) <==> rest1 == ascii_bytes("il"@)))
            by {
            reveal_strlit("nil");
            reveal_strlit("il");
            is_ascii_spec_bytes("il");
            lemma_initial(lexeme, "nil"@, "il"@);
        }
        return checkKeyword(scanner, 1, "il", TokenType::NIL);
    } else if first == 'o' as u8 {
        assert("r".spec_bytes() == ascii_bytes("r"@) && (lexeme == ascii_bytes("or"@) <==> rest1 == ascii_bytes("r"@)))
            by {
            reveal_strlit("or");
            reveal_strlit("r");
            is_ascii_spec_bytes("r");
            lemma_initial(lexeme, "or"@, "r"@);
        }
        return checkKeyword(scanner, 1, "r", TokenType::OR);
    } else if first == 'p' as u8 {
        assert("rint".spec_bytes() == ascii_bytes("rint"@) && (lexeme == ascii_bytes("print"@) <==> rest1 == ascii_bytes(
            "rint"@,
        ))) by {
            reveal_strlit("print");
            reveal_strlit("rint");
            is_ascii_spec_bytes("rint");
            lemma_initial(lexeme, "print"@, "rint"@);
        }
        return checkKeyword(scanner, 1, "rint", TokenType::PRINT);
    } else if first == 'r' as u8 {
        assert("eturn".spec_bytes() == ascii_bytes("eturn"@) && (lexeme == ascii_bytes("return"@) <==> rest1 == ascii_bytes(
            "eturn"@,
        ))) by {
            reveal_strlit("return");
            reveal_strlit("eturn");
            is_ascii_spec_bytes("eturn");
            lemma_initial(lexeme, "return"@, "eturn"@);
        }
        return checkKeyword(scanner, 1, "eturn", TokenType::RETURN);
    } else if first == 's' as u8 {
        assert("uper".spec_bytes() == ascii_bytes("uper"@) && (lexeme == ascii_bytes("super"@) <==> rest1 == ascii_bytes(
            "uper"@,
        ))) by {
            reveal_strlit("super");
            reveal_strlit("uper");
            is_ascii_spec_bytes("uper");
            lemma_initial(lexeme, "super"@, "uper"@);
        }
        return checkKeyword(scanner, 1, "uper", TokenType::SUPER);
    } else if first == 't' as u8 {
        if scanner.current > 1 {
            let second = bytes[1];
            if second == 'h' as u8 {
                assert("is".spec_bytes() == ascii_bytes("is"@) && (lexeme == ascii_bytes("this"@) <==> rest2
                    == ascii_bytes("is"@))) by {
                    reveal_strlit("this");
                    reveal_strlit("is");
                    is_ascii_spec_bytes("is");
                    lemma_initials(lexeme, "this"@, "is"@);
                }
                return checkKeyword(scanner, 2, "is", TokenType::THIS);
            } else if second == 'r' as u8 {
                assert("ue".spec_bytes() == ascii_bytes("ue"@) && (lexeme == ascii_bytes("true"@) <==> rest2
                    == ascii_bytes("ue"@))) by {
                    reveal_strlit("true");
                    reveal_strlit("ue");
                    is_ascii_spec_bytes("ue");
                    lemma_initials(lexeme, "true"@, "ue"@);
                }
                return checkKeyword(scanner, 2, "ue", TokenType::TRUE);
            }
        }
    } else if first == 'v' as u8 {
        assert("ar".spec_bytes() == ascii_bytes("ar"@) && (lexeme == ascii_bytes("var"@) <==> rest1 == ascii_bytes("ar"@)))
            by {
            reveal_strlit("var");
            reveal_strlit("ar");
            is_ascii_spec_bytes("ar");
            lemma_initial(lexeme, "var"@, "ar"@);
        }
        return checkKeyword(scanner, 1, "ar", TokenType::VAR);
    } else if first == 'w' as u8 {
        assert("hile".spec_bytes() == ascii_bytes("hile"@) && (lexeme == ascii_bytes("while"@) <==> rest1 == ascii_bytes(
            "hile"@,
        ))) by {
            reveal_strlit("while");
            reveal_strlit("hile");
            is_ascii_spec_bytes("hile");
            lemma_initial(lexeme, "while"@, "hile"@);
        }
        return checkKeyword(scanner, 1, "hile", TokenType::WHILE);
    }
    TokenType::IDENTIFIER
}

/// A lexeme that starts with a keyword's first byte is the keyword where
/// its remainder is the keyword's.
proof fn lemma_initial(lexeme: Seq<u8>, keyword: Seq<char>, rest: Seq<char>)
    requires
        lexeme.len() >= 1,
        keyword.len() >= 1,
        rest =~= keyword.subrange(1, keyword.len() as int),
        lexeme[0] == keyword[0] as u8,
    ensures
        (lexeme == ascii_bytes(keyword)) <==> (lexeme.subrange(1, lexeme.len() as int)
            == ascii_bytes(rest)),
{
    assert(ascii_bytes(rest) =~= ascii_bytes(keyword).subrange(1, keyword.len() as int));
    assert(lexeme.subrange(0, 1) =~= ascii_bytes(keyword).subrange(0, 1));
    lemma_word(lexeme, ascii_bytes(keyword), 1, ascii_bytes(rest));
}

/// A lexeme that starts with a keyword's first two bytes is the keyword
/// where its remainder is the keyword's.
proof fn lemma_initials(lexeme: Seq<u8>, keyword: Seq<char>, rest: Seq<char>)
    requires
        lexeme.len() >= 2,
        keyword.len() >= 2,
        rest =~= keyword.subrange(2, keyword.len() as int),
        lexeme[0] == keyword[0] as u8,
        lexeme[1] == keyword[1] as u8,
    ensures
        (lexeme == ascii_bytes(keyword)) <==> (lexeme.subrange(2, lexeme.len() as int)
            == ascii_bytes(rest)),
{
    assert(ascii_bytes(rest) =~= ascii_bytes(keyword).subrange(2, keyword.len() as int));
    assert(lexeme.subrange(0, 2) =~= ascii_bytes(keyword).subrange(0, 2));
    lemma_word(lexeme, ascii_bytes(keyword), 2, ascii_bytes(rest));
}


/// Reads the rest of an identifier, whose first byte was read, and makes
/// its token.
pub fn scanIdentifier<'a>(scanner: &mut Scanner<'a>) -> (token: Token<'a>)
    requires
        old(scanner).inv(),
        old(scanner)@.current == 1,
        is_alpha(old(scanner)@.text[0]),
    ensures
        token@.kind != TokenType::NUMBER,
        token@.kind != TokenType::STRING,
        token@.kind != TokenType::EOF,
        token@.kind != TokenType::ERROR,
        final(scanner).wf(),
        final(scanner).start == old(scanner).start,
        final(scanner)@.current == lex(old(scanner)@.text).end,
        final(scanner)@.current >= 1,
        final(scanner)@.line == old(scanner)@.line,
        newlines(old(scanner)@.text, 0, final(scanner)@.current) == 0,
        token@ == (TokenView {
            kind: lex(old(scanner)@.text).kind,
            lexeme: lex(old(scanner)@.text).lexeme,
            line: final(scanner)@.line,
        }),
        valid_utf8(token@.lexeme),
{
    let ghost text = scanner@.text;
    proof {
        reveal_with_fuel(newlines, 2);
    }
    while isAlpha(peek(scanner)) || isDigit(peek(scanner))
        invariant
            scanner.inv(),
            scanner.start == old(scanner).start,
            scanner@.text == text,
            scanner@.line == old(scanner)@.line,
            1 <= scanner@.current,
            text[scanner@.current - 1] < 0x80,
            run_end(text, scanner@.current, word_byte()) == run_end(text, 1, word_byte()),
            newlines(text, 0, scanner@.current) == 0,
        decreases scanner@.text.len() - scanner@.current,
    {
        let _ = advance(scanner);
    }
    proof {
        lemma_boundary_after_ascii(text, scanner@.current - 1);
    }
    let idType = identifierType(scanner);
    makeToken(scanner, idType)
}

/// Reads the rest of a number, whose first digit was read, and makes its
/// token. A point belongs to the number only where a digit follows it.
pub fn scanNumber<'a>(scanner: &mut Scanner<'a>) -> (token: Token<'a>)
    requires
        old(scanner).inv(),
        old(scanner)@.current == 1,
        is_digit(old(scanner)@.text[0]),
    ensures
        token@.kind == TokenType::NUMBER,
        number_lexeme(token@.lexeme),
        final(scanner).wf(),
        final(scanner).start == old(scanner).start,
        final(scanner)@.current == lex(old(scanner)@.text).end,
        final(scanner)@.current >= 1,
        final(scanner)@.line == old(scanner)@.line,
        newlines(old(scanner)@.text, 0, final(scanner)@.current) == 0,
        token@ == (TokenView {
            kind: lex(old(scanner)@.text).kind,
            lexeme: lex(old(scanner)@.text).lexeme,
            line: final(scanner)@.line,
        }),
        valid_utf8(token@.lexeme),
{
    let ghost text = scanner@.text;
    proof {
        reveal_with_fuel(newlines, 2);
    }
    while isDigit(peek(scanner))
        invariant
            scanner.inv(),
            scanner.start == old(scanner).start,
            scanner@.text == text,
            scanner@.line == old(scanner)@.line,
            1 <= scanner@.current,
            text[scanner@.current - 1] < 0x80,
            run_end(text, scanner@.current, digit()) == run_end(text, 1, digit()),
            newlines(text, 0, scanner@.current) == 0,
            all_digits(text, 0, scanner@.current),
        decreases scanner@.text.len() - scanner@.current,
    {
        let _ = advance(scanner);
    }
    let ghost whole = scanner@.current;
    if peek(scanner) == '.' as u8 && isDigit(peekNext(scanner)) {
        let ghost point = scanner@.current;
        // Consume the ".".
        let _ = advance(scanner);
        while isDigit(peek(scanner))
            invariant
                scanner.inv(),
                scanner.start == old(scanner).start,
                scanner@.text == text,
                scanner@.line == old(scanner)@.line,
                1 <= scanner@.current,
                text[scanner@.current - 1] < 0x80,
                run_end(text, scanner@.current, digit()) == run_end(text, point + 1, digit()),
                newlines(text, 0, scanner@.current) == 0,
                point == whole,
                point + 1 <= scanner@.current,
                is_digit(byte_at(text, point + 1)),
                all_digits(text, point + 1, scanner@.current),
            decreases scanner@.text.len() - scanner@.current,
        {
            let _ = advance(scanner);
        }
        proof {
            lemma_run_end_bounds(text, whole + 1, digit());
            assert(scanner@.current >= whole + 2);
        }
    }
    proof {
        lemma_boundary_after_ascii(text, scanner@.current - 1);
        let lexeme = text.subrange(0, scanner@.current);
        assert(all_digits(lexeme, 0, whole)) by {
            assert forall|j: int| 0 <= j < whole implies is_digit(#[trigger] lexeme[j]) by {
                assert(lexeme[j] == text[j]);
            }
        }
        if whole != lexeme.len() {
            assert(all_digits(lexeme, whole + 1, lexeme.len() as int)) by {
                assert forall|j: int| whole + 1 <= j < lexeme.len() implies is_digit(
                    #[trigger] lexeme[j],
                ) by {
                    assert(lexeme[j] == text[j]);
                }
            }
            assert(lexeme[whole] == text[whole]);
        }
    }
    makeToken(scanner, TokenType::NUMBER)
}

/// Reads the rest of a string, whose opening quote was read, and makes
/// its token: the lexeme with both quotes, or an error where the text ends
/// before the closing quote. Line feeds inside the string are counted.
pub fn scanString<'a>(scanner: &mut Scanner<'a>) -> (token: Token<'a>)
    requires
        old(scanner).inv(),
        old(scanner)@.current == 1,
        old(scanner)@.text[0] == '"' as u8,
    ensures
        token@.kind == TokenType::STRING || token@.kind == TokenType::ERROR,
        token@.kind == TokenType::STRING ==> string_lexeme(token@.lexeme),
        final(scanner).wf(),
        final(scanner).start == old(scanner).start,
        final(scanner)@.current == lex(old(scanner)@.text).end,
        final(scanner)@.current >= 1,
        final(scanner)@.line == old(scanner)@.line + newlines(
            old(scanner)@.text,
            0,
            final(scanner)@.current,
        ),
        token@ == (TokenView {
            kind: lex(old(scanner)@.text).kind,
            lexeme: lex(old(scanner)@.text).lexeme,
            line: final(scanner)@.line,
        }),
        valid_utf8(token@.lexeme),
{
    let ghost text = scanner@.text;
    proof {
        reveal_with_fuel(newlines, 2);
    }
    while peek(scanner) != '"' as u8 && !isAtEnd(scanner)
        invariant
            scanner.inv(),
            scanner.start == old(scanner).start,
            scanner@.text == text,
            1 <= scanner@.current,
            run_end(text, scanner@.current, string_byte()) == run_end(text, 1, string_byte()),
            scanner@.line == old(scanner)@.line + newlines(text, 0, scanner@.current),
        decreases scanner@.text.len() - scanner@.current,
    {
        let c = advance(scanner);
        if c == '\n' as u8 {
            scanner.line += 1;
        }
    }
    if isAtEnd(scanner) {
        proof {
            lemma_boundary_at_start(text, scanner@.current);
        }
        return errorToken(scanner, "Unterminated string.");
    }
    // The closing quote.
    let _ = advance(scanner);
    proof {
        lemma_boundary_after_ascii(text, scanner@.current - 1);
    }
    makeToken(scanner, TokenType::STRING)
}

/// Makes the token of `token_type` for the bytes read, the last of which
/// is an ASCII character.
fn punctuation<'a>(scanner: &Scanner<'a>, token_type: TokenType) -> (token: Token<'a>)
    requires
        scanner.inv(),
        1 <= scanner@.current,
        scanner@.text[scanner@.current - 1] < 0x80,
    ensures
        scanner.wf(),
        token@ == (TokenView {
            kind: token_type,
            lexeme: scanner@.text.subrange(0, scanner@.current),
            line: scanner@.line,
        }),
        valid_utf8(token@.lexeme),
{
    proof {
        lemma_boundary_after_ascii(scanner@.text, scanner@.current - 1);
    }
    makeToken(scanner, token_type)
}

/// Reads the next token. Blanks and comments before it are passed over.
/// At the end of the text the token is `EOF`, again and again. A byte that
/// starts no token, with the bytes that go on with its character, gives an
/// error token, and so does a string that does not end.
pub fn scanToken<'a>(scanner: &mut Scanner<'a>) -> (token: Token<'a>)
    requires
        old(scanner).wf(),
    ensures
        (token@, final(scanner)@) == old(scanner)@.scan(),
        final(scanner).wf(),
        token@.wf(),
        final(scanner)@.pending().len() <= old(scanner)@.pending().len(),
        token@.kind != TokenType::EOF ==> final(scanner)@.pending().len() < old(
            scanner,
        )@.pending().len(),
        token@.kind == TokenType::EOF ==> final(scanner)@.scan() == (token@, final(scanner)@),
{
    skipWhitespace(scanner);
    proof {
        reveal(ScannerView::scan);
        lemma_skip_blank_bounds(old(scanner)@.text, old(scanner)@.current);
    }

    let (_, rest) = scanner.start.split_at(scanner.current);
    scanner.start = rest;
    scanner.current = 0;
    let ghost text = scanner@.text;
    proof {
        encode_utf8_valid_utf8(rest@);
        reveal_with_fuel(newlines, 3);
        assert(text =~= old(scanner)@.text.subrange(
            skip_blank(old(scanner)@.text, old(scanner)@.current),
            old(scanner)@.text.len() as int,
        ));
        assert(text.subrange(0, text.len() as int) =~= text);
    }

    if isAtEnd(scanner) {
        proof {
            assert(skip_blank(text, 0) == 0);
        }
        return makeToken(scanner, TokenType::EOF);
    }
    let c = advance(scanner);
    if isAlpha(c) {
        return scanIdentifier(scanner);
    }
    if isDigit(c) {
        return scanNumber(scanner);
    }
    if c == '(' as u8 {
        return punctuation(scanner, TokenType::LEFT_PAREN);
    } else if c == ')' as u8 {
        return punctuation(scanner, TokenType::RIGHT_PAREN);
    } else if c == '{' as u8 {
        return punctuation(scanner, TokenType::LEFT_BRACE);
    } else if c == '}' as u8 {
        return punctuation(scanner, TokenType::RIGHT_BRACE);
    } else if c == ';' as u8 {
        return punctuation(scanner, TokenType::SEMICOLON);
    } else if c == ',' as u8 {
        return punctuation(scanner, TokenType::COMMA);
    } else if c == '.' as u8 {
        return punctuation(scanner, TokenType::DOT);
    } else if c == '-' as u8 {
        return punctuation(scanner, TokenType::MINUS);
    } else if c == '+' as u8 {
        return punctuation(scanner, TokenType::PLUS);
    } else if c == '/' as u8 {
        return punctuation(scanner, TokenType::SLASH);
    } else if c == '*' as u8 {
        return punctuation(scanner, TokenType::STAR);
    } else if c == '!' as u8 {
        let token_type = if matchChar(scanner, '=' as u8) {
            TokenType::BANG_EQUAL
        } else {
            TokenType::BANG
        };
        return punctuation(scanner, token_type);
    } else if c == '=' as u8 {
        let token_type = if matchChar(scanner, '=' as u8) {
            TokenType::EQUAL_EQUAL
        } else {
            TokenType::EQUAL
        };
        return punctuation(scanner, token_type);
    } else if c == '<' as u8 {
        let token_type = if matchChar(scanner, '=' as u8) {
            TokenType::LESS_EQUAL
        } else {
            TokenType::LESS
        };
        return punctuation(scanner, token_type);
    } else if c == '>' as u8 {
        let token_type = if matchChar(scanner, '=' as u8) {
            TokenType::GREATER_EQUAL
        } else {
            TokenType::GREATER
        };
        return punctuation(scanner, token_type);
    } else if c == '"' as u8 {
        return scanString(scanner);
    }
    // The bytes that go on with the character belong to it.
    while peek(scanner) >= 0x80 && peek(scanner) <= 0xbf
        invariant
            scanner.inv(),
            scanner@.text == text,
            scanner@.line == old(scanner)@.line + newlines(
                old(scanner)@.text,
                old(scanner)@.current,
                skip_blank(old(scanner)@.text, old(scanner)@.current),
            ),
            1 <= scanner@.current,
            run_end(text, scanner@.current, continuation()) == run_end(text, 1, continuation()),
            newlines(text, 0, scanner@.current) == 0,
        decreases scanner@.text.len() - scanner@.current,
    {
        let _ = advance(scanner);
    }
    proof {
        lemma_boundary_at_start(text, scanner@.current);
    }
    errorToken(scanner, "Unexpected character.")
}

} // verus!
