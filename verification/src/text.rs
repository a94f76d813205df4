//! Numbers as text, and text in the colours of a terminal.
use vstd::prelude::*;

verus! {

/// The character for one decimal digit.
pub open spec fn digit(d: nat) -> char {
    if d == 0 {
        '0'
    } else if d == 1 {
        '1'
    } else if d == 2 {
        '2'
    } else if d == 3 {
        '3'
    } else if d == 4 {
        '4'
    } else if d == 5 {
        '5'
    } else if d == 6 {
        '6'
    } else if d == 7 {
        '7'
    } else if d == 8 {
        '8'
    } else {
        '9'
    }
}

/// A number written in decimal, without sign or leading zeros.
pub open spec fn decimal(n: nat) -> Seq<char>
    decreases n,
{
    if n < 10 {
        seq![digit(n)]
    } else {
        decimal(n / 10).push(digit(n % 10))
    }
}

/// What switches a terminal to bright red text.
pub open spec fn bright_red_on() -> Seq<char> {
    "\x1b[91m"@
}

/// What switches a terminal to its default text colour.
pub open spec fn default_on() -> Seq<char> {
    "\x1b[39m"@
}

/// `text` in bright red: the text between the switch to bright red and the
/// switch back to the default colour.
pub open spec fn bright_red_text(text: Seq<char>) -> Seq<char> {
    bright_red_on() + text + default_on()
}

/// `text` in the default colour: the text between two switches to it.
pub open spec fn default_color_text(text: Seq<char>) -> Seq<char> {
    default_on() + text + default_on()
}

/// One decimal digit as text.
fn digit_str(d: u64) -> (s: &'static str)
    requires
        d < 10,
    ensures
        s@ == seq![digit(d as nat)],
{
    proof {
        reveal_strlit("0");
        reveal_strlit("1");
        reveal_strlit("2");
        reveal_strlit("3");
        reveal_strlit("4");
        reveal_strlit("5");
        reveal_strlit("6");
        reveal_strlit("7");
        reveal_strlit("8");
        reveal_strlit("9");
    }
    let s = if d == 0 {
        "0"
    } else if d == 1 {
        "1"
    } else if d == 2 {
        "2"
    } else if d == 3 {
        "3"
    } else if d == 4 {
        "4"
    } else if d == 5 {
        "5"
    } else if d == 6 {
        "6"
    } else if d == 7 {
        "7"
    } else if d == 8 {
        "8"
    } else {
        "9"
    };
    assert(s@ =~= seq![digit(d as nat)]);
    s
}

/// `n` written in decimal.
pub fn decimal_string(n: u64) -> (s: String)
    ensures
        s@ == decimal(n as nat),
    decreases n,
{
    if n < 10 {
        String::from_str(digit_str(n))
    } else {
        let mut s = decimal_string(n / 10);
        s.append(digit_str(n % 10));
        assert(s@ =~= decimal(n as nat));
        s
    }
}

/// `owo_colors::OwoColorize::bright_red` on a text, written out: the escape
/// sequence for bright red, the text, and the escape sequence for the
/// default colour.
#[verifier::external_body]
pub(crate) fn bright_red(text: &str) -> (s: String)
    ensures
        s@ == bright_red_text(text@),
{
    format!("{}", owo_colors::OwoColorize::bright_red(&text))
}

/// `owo_colors::OwoColorize::default_color` on a text, written out: the
/// text between two escape sequences for the default colour.
#[verifier::external_body]
pub(crate) fn default_color(text: &str) -> (s: String)
    ensures
        s@ == default_color_text(text@),
{
    format!("{}", owo_colors::OwoColorize::default_color(&text))
}

} // verus!
