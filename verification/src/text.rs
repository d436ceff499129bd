//! Pieces of output text, and the integer formatting the diagnostics need.
use vstd::prelude::*;
use vstd::string::*;

verus! {

/// One piece of output. Text is final; a number is handed out as its bit
/// pattern, for the caller to format.
#[derive(Debug)]
pub enum Fragment {
    Text(String),
    Number(u64),
}

/// What a fragment stands for in contracts.
pub enum FragmentView {
    Text(Seq<char>),
    Number(u64),
}

impl View for Fragment {
    type V = FragmentView;

    open spec fn view(&self) -> FragmentView {
        match self {
            Fragment::Text(s) => FragmentView::Text(s@),
            Fragment::Number(bits) => FragmentView::Number(*bits),
        }
    }
}

/// The views of a run of fragments, in order.
pub open spec fn fragment_views(fragments: Seq<Fragment>) -> Seq<FragmentView> {
    fragments.map_values(|f: Fragment| f@)
}

/// The character of a decimal digit.
pub open spec fn digit_char(d: int) -> char {
    if d == 0 {
        '0'
    } else if d == 1 {
        '1'
    } else if d == 2 {
        '2'
    } else if d == 3 {
        '3'
    } else if d == 4 {
        '4'
    } else if d == 5 {
        '5'
    } else if d == 6 {
        '6'
    } else if d == 7 {
        '7'
    } else if d == 8 {
        '8'
    } else {
        '9'
    }
}

/// A natural number in decimal, without leading zeros.
pub open spec fn decimal(n: nat) -> Seq<char>
    decreases n,
{
    if n < 10 {
        seq![digit_char(n as int)]
    } else {
        decimal(n / 10).push(digit_char((n % 10) as int))
    }
}

/// An integer in decimal, with a minus sign where it is negative.
pub open spec fn signed_decimal(n: int) -> Seq<char> {
    if n < 0 {
        seq!['-'] + decimal((-n) as nat)
    } else {
        decimal(n as nat)
    }
}

/// `count` copies of `fill`.
pub open spec fn repeated(fill: char, count: int) -> Seq<char> {
    Seq::new(
        if count < 0 {
            0nat
        } else {
            count as nat
        },
        |i: int| fill,
    )
}

/// `body` moved to the right edge of a field of `width` characters; a body
/// that is already as wide stays as it is.
pub open spec fn right_aligned(body: Seq<char>, width: int, fill: char) -> Seq<char> {
    repeated(fill, width - body.len()) + body
}

/// `body` at the left edge of a field of `width` characters, filled with
/// spaces; a body that is already as wide stays as it is.
pub open spec fn left_aligned(body: Seq<char>, width: int) -> Seq<char> {
    body + repeated(' ', width - body.len())
}

/// A decimal digit as text.
pub fn digit_text(d: u8) -> (text: &'static str)
    requires
        d < 10,
    ensures
        text@ == seq![digit_char(d as int)],
{
    proof {
        reveal_strlit("0");
        reveal_strlit("1");
        reveal_strlit("2");
        reveal_strlit("3");
        reveal_strlit("4");
        reveal_strlit("5");
        reveal_strlit("6");
        reveal_strlit("7");
        reveal_strlit("8");
        reveal_strlit("9");
    }
    let text = match d {
        0 => "0",
        1 => "1",
        2 => "2",
        3 => "3",
        4 => "4",
        5 => "5",
        6 => "6",
        7 => "7",
        8 => "8",
        _ => "9",
    };
    assert(text@ =~= seq![digit_char(d as int)]);
    text
}

/// Formats a natural number in decimal.
pub fn decimal_text(n: u64) -> (text: String)
    ensures
        text@ == decimal(n as nat),
    decreases n,
{
    if n < 10 {
        String::from_str(digit_text(n as u8))
    } else {
        let mut text = decimal_text(n / 10);
        text.append(digit_text((n % 10) as u8));
        text
    }
}

/// Formats an integer in decimal.
pub fn signed_decimal_text(n: i64) -> (text: String)
    ensures
        text@ == signed_decimal(n as int),
{
    if n < 0 {
        proof {
            reveal_strlit("-");
        }
        let magnitude: u64 = if n == i64::MIN {
            9223372036854775808u64
        } else {
            (-n) as u64
        };
        let mut text = String::from_str("-");
        let digits = decimal_text(magnitude);
        text.append(digits.as_str());
        assert(text@ =~= signed_decimal(n as int));
        text
    } else {
        decimal_text(n as u64)
    }
}

/// `count` copies of a one-character text.
pub fn repeated_text(fill: &str, count: usize) -> (text: String)
    requires
        fill@.len() == 1,
    ensures
        text@ == repeated(fill@[0], count as int),
{
    let mut text = String::new();
    let mut done: usize = 0;
    while done < count
        invariant
            done <= count,
            fill@.len() == 1,
            text@ == repeated(fill@[0], done as int),
        decreases count - done,
    {
        text.append(fill);
        done = done + 1;
        assert(text@ =~= repeated(fill@[0], done as int));
    }
    text
}

/// Moves `body` to the right edge of a field of `width` characters.
pub fn right_aligned_text(body: &str, width: usize, fill: &str) -> (text: String)
    requires
        fill@.len() == 1,
    ensures
        text@ == right_aligned(body@, width as int, fill@[0]),
{
    let length = body.unicode_len();
    let missing: usize = if length < width {
        width - length
    } else {
        0
    };
    let mut text = repeated_text(fill, missing);
    text.append(body);
    assert(text@ =~= right_aligned(body@, width as int, fill@[0]));
    text
}

/// Puts `body` at the left edge of a field of `width` characters.
pub fn left_aligned_text(body: &str, width: usize) -> (text: String)
    ensures
        text@ == left_aligned(body@, width as int),
{
    proof {
        reveal_strlit(" ");
    }
    let length = body.unicode_len();
    let missing: usize = if length < width {
        width - length
    } else {
        0
    };
    let mut text = String::from_str(body);
    let filler = repeated_text(" ", missing);
    text.append(filler.as_str());
    assert(text@ =~= left_aligned(body@, width as int));
    text
}

} // verus!
