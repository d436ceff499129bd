use rlox::scanner::advance;
use rlox::scanner::checkKeyword;
use rlox::scanner::initScanner;
use rlox::scanner::isAlpha;
use rlox::scanner::isDigit;
use rlox::scanner::matchChar;
use rlox::scanner::scanToken;
use rlox::scanner::Scanner;
use rlox::scanner::TokenType;

fn kinds(source: &str) -> Vec<TokenType> {
    let mut scanner = initScanner(source);
    let mut found = Vec::new();
    loop {
        let token = scanToken(&mut scanner);
        found.push(token.token_type);
        if token.token_type == TokenType::EOF {
            return found;
        }
    }
}

fn lexemes(source: &str) -> Vec<String> {
    let mut scanner = initScanner(source);
    let mut found = Vec::new();
    loop {
        let token = scanToken(&mut scanner);
        if token.token_type == TokenType::EOF {
            return found;
        }
        found.push(format!("{}", token.start));
    }
}

fn next(scanner: &mut Scanner) -> (TokenType, String, i32) {
    let token = scanToken(scanner);
    (token.token_type, format!("{}", token.start), token.line)
}

#[test]
fn empty_source_is_eof() {
    let mut scanner = initScanner("");
    let token = scanToken(&mut scanner);
    assert_eq!(token.token_type, TokenType::EOF);
    assert_eq!(token.start, "");
    assert_eq!(token.line, 1);
}

#[test]
fn nul_byte_ends_the_source() {
    assert_eq!(kinds("1 + 2\0"), vec![TokenType::NUMBER, TokenType::PLUS, TokenType::NUMBER, TokenType::EOF]);
    assert_eq!(kinds("\0 1 + 2"), vec![TokenType::EOF]);
}

#[test]
fn eof_is_returned_again_and_again() {
    let mut scanner = initScanner("1");
    assert_eq!(scanToken(&mut scanner).token_type, TokenType::NUMBER);
    assert_eq!(scanToken(&mut scanner).token_type, TokenType::EOF);
    assert_eq!(scanToken(&mut scanner).token_type, TokenType::EOF);
    assert_eq!(scanToken(&mut scanner).token_type, TokenType::EOF);
}

#[test]
fn lone_slash_is_slash() {
    let mut scanner = initScanner("/");
    let token = scanToken(&mut scanner);
    assert_eq!(token.token_type, TokenType::SLASH);
    assert_eq!(token.start, "/");
    assert_eq!(scanToken(&mut scanner).token_type, TokenType::EOF);
}

#[test]
fn comment_runs_to_the_end_of_the_line() {
    let mut scanner = initScanner("// a comment ( + 12\n+");
    assert_eq!(next(&mut scanner), (TokenType::PLUS, format!("+"), 2));
    assert_eq!(next(&mut scanner).0, TokenType::EOF);
}

#[test]
fn comment_at_the_end_of_the_source() {
    assert_eq!(kinds("1 // nothing more"), vec![TokenType::NUMBER, TokenType::EOF]);
    assert_eq!(kinds("//"), vec![TokenType::EOF]);
}

#[test]
fn comment_after_a_token_is_skipped() {
    // The comment starts after the first token: the lookahead is relative
    // to the cursor, not to the start of the token.
    assert_eq!(kinds("ab // c\n/ d"), vec![TokenType::IDENTIFIER, TokenType::SLASH, TokenType::IDENTIFIER, TokenType::EOF]);
}

#[test]
fn unterminated_string_is_an_error() {
    let mut scanner = initScanner("\"abc");
    assert_eq!(next(&mut scanner), (TokenType::ERROR, format!("Unterminated string."), 1));
    assert_eq!(next(&mut scanner).0, TokenType::EOF);
}

#[test]
fn number_does_not_take_a_trailing_dot() {
    let mut scanner = initScanner("1.");
    assert_eq!(next(&mut scanner), (TokenType::NUMBER, format!("1"), 1));
    assert_eq!(next(&mut scanner), (TokenType::DOT, format!("."), 1));
    assert_eq!(next(&mut scanner).0, TokenType::EOF);
}

#[test]
fn number_with_a_fraction() {
    assert_eq!(lexemes("12.50 3"), vec!["12.50", "3"]);
    assert_eq!(lexemes("1.2.3"), vec!["1.2", ".", "3"]);
    assert_eq!(kinds(".5"), vec![TokenType::DOT, TokenType::NUMBER, TokenType::EOF]);
}

#[test]
fn string_keeps_its_quotes() {
    let mut scanner = initScanner("\"st\" \"\"");
    assert_eq!(next(&mut scanner), (TokenType::STRING, format!("\"st\""), 1));
    assert_eq!(next(&mut scanner), (TokenType::STRING, format!("\"\""), 1));
}

#[test]
fn string_may_span_lines() {
    let mut scanner = initScanner("\"a\nb\n\" x");
    assert_eq!(next(&mut scanner), (TokenType::STRING, format!("\"a\nb\n\""), 3));
    assert_eq!(next(&mut scanner), (TokenType::IDENTIFIER, format!("x"), 3));
}

#[test]
fn string_may_hold_any_character() {
    let mut scanner = initScanner("\"gr\u{fc}\u{df}e \u{1f600}\" 1");
    assert_eq!(next(&mut scanner), (TokenType::STRING, format!("\"gr\u{fc}\u{df}e \u{1f600}\""), 1));
    assert_eq!(next(&mut scanner).0, TokenType::NUMBER);
}

#[test]
fn lines_are_counted() {
    let mut scanner = initScanner("1\n\n  2 \r\n\t3");
    assert_eq!(next(&mut scanner), (TokenType::NUMBER, format!("1"), 1));
    assert_eq!(next(&mut scanner), (TokenType::NUMBER, format!("2"), 3));
    assert_eq!(next(&mut scanner), (TokenType::NUMBER, format!("3"), 4));
    assert_eq!(next(&mut scanner), (TokenType::EOF, format!(""), 4));
}

#[test]
fn punctuation() {
    assert_eq!(
        kinds("(){};,.-+/*"),
        vec![
            TokenType::LEFT_PAREN,
            TokenType::RIGHT_PAREN,
            TokenType::LEFT_BRACE,
            TokenType::RIGHT_BRACE,
            TokenType::SEMICOLON,
            TokenType::COMMA,
            TokenType::DOT,
            TokenType::MINUS,
            TokenType::PLUS,
            TokenType::SLASH,
            TokenType::STAR,
            TokenType::EOF,
        ]
    );
}

#[test]
fn one_or_two_character_operators() {
    assert_eq!(
        kinds("! != = == < <= > >="),
        vec![
            TokenType::BANG,
            TokenType::BANG_EQUAL,
            TokenType::EQUAL,
            TokenType::EQUAL_EQUAL,
            TokenType::LESS,
            TokenType::LESS_EQUAL,
            TokenType::GREATER,
            TokenType::GREATER_EQUAL,
            TokenType::EOF,
        ]
    );
    assert_eq!(lexemes("!===<=>"), vec!["!=", "==", "<=", ">"]);
    assert_eq!(kinds("!"), vec![TokenType::BANG, TokenType::EOF]);
}

#[test]
fn keywords() {
    assert_eq!(
        kinds("and class else false for fun if nil or print return super this true var while"),
        vec![
            TokenType::AND,
            TokenType::CLASS,
            TokenType::ELSE,
            TokenType::FALSE,
            TokenType::FOR,
            TokenType::FUN,
            TokenType::IF,
            TokenType::NIL,
            TokenType::OR,
            TokenType::PRINT,
            TokenType::RETURN,
            TokenType::SUPER,
            TokenType::THIS,
            TokenType::TRUE,
            TokenType::VAR,
            TokenType::WHILE,
            TokenType::EOF,
        ]
    );
}

#[test]
fn near_keywords_are_identifiers() {
    for word in [
        "an", "andy", "clas", "classy", "els", "elsewhere", "f", "fa", "fals", "falsey", "fo", "fork", "fu", "funny",
        "i", "iff", "ni", "nill", "o", "orb", "prin", "printer", "retur", "returns", "supe", "supers", "t", "th",
        "thi", "thistle", "tr", "tru", "truer", "va", "vary", "whil", "whiles", "And", "NIL", "_", "_nil", "a1", "x_y",
        "fx", "tx", "nil1",
    ] {
        assert_eq!(kinds(word), vec![TokenType::IDENTIFIER, TokenType::EOF], "{}", word);
        assert_eq!(lexemes(word), vec![word]);
    }
}

#[test]
fn unexpected_character_is_an_error() {
    let mut scanner = initScanner("@ 1");
    assert_eq!(next(&mut scanner), (TokenType::ERROR, format!("Unexpected character."), 1));
    assert_eq!(next(&mut scanner), (TokenType::NUMBER, format!("1"), 1));
}

#[test]
fn character_outside_ascii_is_one_error() {
    let mut scanner = initScanner("a\u{e9}b \u{1f600}+");
    assert_eq!(next(&mut scanner), (TokenType::IDENTIFIER, format!("a"), 1));
    assert_eq!(next(&mut scanner), (TokenType::ERROR, format!("Unexpected character."), 1));
    assert_eq!(next(&mut scanner), (TokenType::IDENTIFIER, format!("b"), 1));
    assert_eq!(next(&mut scanner), (TokenType::ERROR, format!("Unexpected character."), 1));
    assert_eq!(next(&mut scanner), (TokenType::PLUS, format!("+"), 1));
    assert_eq!(next(&mut scanner).0, TokenType::EOF);
}

#[test]
fn letters_and_digits() {
    assert!(isAlpha(b'a') && isAlpha(b'z') && isAlpha(b'A') && isAlpha(b'Z') && isAlpha(b'_'));
    assert!(!isAlpha(b'0') && !isAlpha(b'@') && !isAlpha(b'[') && !isAlpha(b'`') && !isAlpha(b'{') && !isAlpha(0xc3));
    assert!(isDigit(b'0') && isDigit(b'9'));
    assert!(!isDigit(b'/') && !isDigit(b':') && !isDigit(b'a'));
}

#[test]
fn nothing_is_matched_at_the_end() {
    let mut scanner = initScanner("=");
    assert!(!matchChar(&mut scanner, b'!'));
    assert_eq!(scanner.current, 0);
    assert!(matchChar(&mut scanner, b'='));
    assert_eq!(scanner.current, 1);
    assert!(!matchChar(&mut scanner, b'='));
    assert!(!matchChar(&mut scanner, 0));
    assert_eq!(scanner.current, 1);

    let mut scanner = initScanner("a\0b");
    advance(&mut scanner);
    assert!(!matchChar(&mut scanner, 0));
    assert!(!matchChar(&mut scanner, b'b'));
    assert_eq!(scanner.current, 1);
}

#[test]
fn a_keyword_is_checked_byte_for_byte() {
    let mut scanner = initScanner("and");
    advance(&mut scanner);
    // One byte read: shorter than any remainder, and than a start beyond it.
    assert_eq!(checkKeyword(&scanner, 1, "nd", TokenType::AND), TokenType::IDENTIFIER);
    assert_eq!(checkKeyword(&scanner, 1, "", TokenType::AND), TokenType::AND);
    assert_eq!(checkKeyword(&scanner, 2, "", TokenType::AND), TokenType::IDENTIFIER);
    assert_eq!(checkKeyword(&scanner, 3, "nd", TokenType::AND), TokenType::IDENTIFIER);
    advance(&mut scanner);
    advance(&mut scanner);
    assert_eq!(checkKeyword(&scanner, 1, "nd", TokenType::AND), TokenType::AND);
    assert_eq!(checkKeyword(&scanner, 0, "and", TokenType::AND), TokenType::AND);
    assert_eq!(checkKeyword(&scanner, 1, "nt", TokenType::AND), TokenType::IDENTIFIER);
    assert_eq!(checkKeyword(&scanner, 1, "n", TokenType::AND), TokenType::IDENTIFIER);
    assert_eq!(checkKeyword(&scanner, 1, "ndy", TokenType::AND), TokenType::IDENTIFIER);
    assert_eq!(checkKeyword(&scanner, 2, "d", TokenType::OR), TokenType::OR);
    assert_eq!(checkKeyword(&scanner, 1, "\u{e9}", TokenType::AND), TokenType::IDENTIFIER);
    assert_eq!(checkKeyword(&scanner, 4, "", TokenType::AND), TokenType::IDENTIFIER);
}
