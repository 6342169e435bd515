//! Texts as lists of characters, and the titles of the outline's entries.

use vstd::prelude::*;
use vstd::string::StringExecFns;

verus! {

/// The character of a digit.
pub open spec fn digit(d: nat) -> char {
    ('0' as u8 + d) as char
}

/// The decimal numeral of a number, without leading zeros.
pub open spec fn decimal(n: nat) -> Seq<char>
    decreases n,
{
    if n < 10 {
        seq![digit(n)]
    } else {
        decimal(n / 10).push(digit(n % 10))
    }
}

/// The title of the outline's entry for the `k`-th source that brings pages.
pub open spec fn title_of(k: nat) -> Seq<char> {
    "Page_"@ + decimal(k)
}

/// The character of the digit `d`.
fn digit_char(d: u32) -> (c: char)
    requires
        d < 10,
    ensures
        c == digit(d as nat),
{
    (('0' as u8) + (d as u8)) as char
}

/// The decimal numeral of `n`.
pub(crate) fn decimal_string(n: u32) -> (s: String)
    ensures
        s@ == decimal(n as nat),
{
    let mut backwards: Vec<char> = Vec::new();
    let mut rest = n;
    assert(decimal(rest as nat) + backwards@.reverse() =~= decimal(n as nat));
    while rest >= 10
        invariant
            decimal(n as nat) == decimal(rest as nat) + backwards@.reverse(),
        decreases rest,
    {
        let ghost before = backwards@;
        backwards.push(digit_char(rest % 10));
        assert(backwards@.reverse() =~= seq![digit((rest % 10) as nat)] + before.reverse());
        assert(decimal(rest as nat) + before.reverse() =~= decimal((rest / 10) as nat)
            + backwards@.reverse());
        rest = rest / 10;
    }
    backwards.push(digit_char(rest));
    let mut digits: Vec<char> = Vec::new();
    let mut i: usize = backwards.len();
    while i > 0
        invariant
            i <= backwards.len(),
            digits@ == backwards@.reverse().take(backwards.len() - i),
        decreases i,
    {
        i -= 1;
        digits.push(backwards[i]);
        assert(digits@ =~= backwards@.reverse().take(backwards.len() - i));
    }
    assert(digits@ =~= backwards@.reverse());
    string_of(digits)
}

/// `String::from_iter` of characters: the text made of them.
#[verifier::external_body]
pub(crate) fn string_of(chars: Vec<char>) -> (s: String)
    ensures
        s@ == chars@,
{
    String::from_iter(chars)
}

/// The characters of a text.
pub(crate) fn chars_of(text: &str) -> (chars: Vec<char>)
    ensures
        chars@ == text@,
{
    let mut chars: Vec<char> = Vec::new();
    for c in it: text.chars()
        invariant
            it.seq() == text@,
            chars@ == it.seq().take(it.index()),
    {
        chars.push(c);
        assert(it.seq().take(it.index() + 1) =~= it.seq().take(it.index()).push(c));
    }
    assert(text@.take(text@.len() as int) =~= text@);
    chars
}

/// The title of the outline's entry for the `k`-th source that brings pages.
pub fn page_title(k: u32) -> (title: String)
    ensures
        title@ == title_of(k as nat),
{
    let mut title = String::from_str("Page_");
    let number = decimal_string(k);
    title.append(number.as_str());
    title
}

} // verus!
