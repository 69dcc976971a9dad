//! Character-level helpers shared by the scanner, the JSON codec and the
//! interpreter: conversions between `str`/`String` and `Vec<char>`, the
//! Unicode character classes taken from std, and decimal rendering.
use vstd::prelude::*;
use vstd::string::*;

verus! {

/// Whether `c` has the Unicode `Alphabetic` property (as `char::is_alphabetic`).
pub uninterp spec fn alphabetic(c: char) -> bool;

/// Whether `c` is alphabetic or numeric in Unicode's sense (as `char::is_alphanumeric`).
pub uninterp spec fn alphanumeric(c: char) -> bool;

/// Whether `c` has the Unicode `White_Space` property (as `char::is_whitespace`).
pub uninterp spec fn whitespace(c: char) -> bool;

/// Relies on `str::chars`: the characters of `s`, in order.
#[verifier::external_body]
pub(crate) fn chars_of(s: &str) -> (r: Vec<char>)
    ensures
        r@ == s@,
{
    s.chars().collect()
}

/// Relies on `String: FromIterator<char>`: the string made of `c`, in order.
#[verifier::external_body]
pub(crate) fn string_of(c: &[char]) -> (r: String)
    ensures
        r@ == c@,
{
    c.iter().collect()
}

/// Relies on `char::is_alphabetic`, the Unicode `Alphabetic` property.
#[verifier::external_body]
pub(crate) fn is_alphabetic(c: char) -> (r: bool)
    ensures
        r == alphabetic(c),
{
    c.is_alphabetic()
}

/// Relies on `char::is_alphanumeric`: true for every alphabetic or numeric
/// character, so for every character that `char::is_alphabetic` accepts.
#[verifier::external_body]
pub(crate) fn is_alphanumeric(c: char) -> (r: bool)
    ensures
        r == alphanumeric(c),
        alphabetic(c) ==> r,
{
    c.is_alphanumeric()
}

/// Relies on `char::is_whitespace`, the Unicode `White_Space` property.
#[verifier::external_body]
pub(crate) fn is_whitespace(c: char) -> (r: bool)
    ensures
        r == whitespace(c),
{
    c.is_whitespace()
}

/// An ASCII decimal digit, as `char::is_digit(10)` and `u8::is_ascii_digit` accept.
pub open spec fn digit(c: char) -> bool {
    '0' <= c && c <= '9'
}

pub fn is_digit(c: char) -> (r: bool)
    ensures
        r == digit(c),
{
    '0' <= c && c <= '9'
}

/// Whether the characters `a` spell exactly the text `lit`.
pub fn same_text(a: &[char], lit: &str) -> (r: bool)
    ensures
        r == (a@ == lit@),
{
    let n = lit.unicode_len();
    if a.len() != n {
        return false;
    }
    let mut i: usize = 0;
    while i < n
        invariant
            n == lit@.len(),
            a@.len() == n,
            i <= n,
            forall|k: int| 0 <= k < i ==> a@[k] == lit@[k],
        decreases n - i,
    {
        if a[i] != lit.get_char(i) {
            return false;
        }
        i += 1;
    }
    assert(a@ =~= lit@);
    true
}

/// Relies on `String::push`: appends one character.
#[verifier::external_body]
pub(crate) fn push_char(s: &mut String, c: char)
    ensures
        final(s)@ == old(s)@.push(c),
{
    s.push(c)
}

/// The digits of base sixteen, lower case; the first ten are the decimal digits.
pub open spec fn hex_digits() -> Seq<char> {
    seq!['0', '1', '2', '3', '4', '5', '6', '7', '8', '9', 'a', 'b', 'c', 'd', 'e', 'f']
}

pub fn hex_char(d: u32) -> (r: char)
    requires
        d < 16,
    ensures
        r == hex_digits()[d as int],
{
    match d {
        0 => '0',
        1 => '1',
        2 => '2',
        3 => '3',
        4 => '4',
        5 => '5',
        6 => '6',
        7 => '7',
        8 => '8',
        9 => '9',
        10 => 'a',
        11 => 'b',
        12 => 'c',
        13 => 'd',
        14 => 'e',
        _ => 'f',
    }
}

/// The decimal digits of `n`, without leading zeros.
pub open spec fn decimal(n: nat) -> Seq<char>
    decreases n,
{
    if n < 10 {
        seq![hex_digits()[n as int]]
    } else {
        decimal(n / 10).push(hex_digits()[(n % 10) as int])
    }
}

/// The decimal text of a signed integer, with `-` before a negative one.
pub open spec fn int_text(n: int) -> Seq<char> {
    if n < 0 {
        seq!['-'] + decimal((-n) as nat)
    } else {
        decimal(n as nat)
    }
}

pub fn push_decimal(out: &mut String, n: u128)
    ensures
        final(out)@ == old(out)@ + decimal(n as nat),
    decreases n,
{
    if n >= 10 {
        push_decimal(out, n / 10);
    }
    let d = hex_char((n % 10) as u32);
    push_char(out, d);
    assert(final(out)@ =~= old(out)@ + decimal(n as nat));
}

pub fn push_int(out: &mut String, n: i64)
    ensures
        final(out)@ == old(out)@ + int_text(n as int),
{
    if n < 0 {
        push_char(out, '-');
        let magnitude = (0i128 - n as i128) as u64;
        push_decimal(out, magnitude as u128);
        assert(final(out)@ =~= old(out)@ + int_text(n as int));
    } else {
        push_decimal(out, n as u128);
    }
}

/// Whether two texts are equal, character for character.
pub fn text_eq(a: &str, b: &str) -> (r: bool)
    ensures
        r == (a@ == b@),
{
    let chars = chars_of(a);
    same_text(chars.as_slice(), b)
}

/// The character whose scalar value is `n`.
pub open spec fn char_of(n: int) -> char {
    choose|c: char| #[trigger] code(c) == n
}

/// The scalar value of a character.
pub open spec fn code(c: char) -> int {
    c as u32 as int
}

/// A Unicode scalar value: at most 0x10FFFF and not a surrogate.
pub open spec fn scalar(n: int) -> bool {
    0 <= n <= 0x10FFFF && !(0xD800 <= n <= 0xDFFF)
}

/// Relies on `char::from_u32`: the character of a scalar value, `None` for a
/// surrogate or a value above 0x10FFFF.
#[verifier::external_body]
pub(crate) fn char_from_u32(n: u32) -> (r: Option<char>)
    ensures
        match r {
            Some(c) => scalar(n as int) && c as u32 == n,
            None => !scalar(n as int),
        },
{
    char::from_u32(n)
}

/// A character is the character of its own scalar value.
pub proof fn lemma_char_of(c: char)
    ensures
        char_of(code(c)) == c,
{
    let d = char_of(code(c));
    assert(code(d) == code(c));
}

} // verus!
