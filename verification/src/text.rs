//! The calls into the standard library for text that the verifier has no
//! account of, each with what its documentation says of it.

use vstd::prelude::*;
use vstd::string::StringExecFns;
use vstd::utf8::{decode_utf8, is_scalar, valid_utf8};

verus! {

/// The text that the bytes `bytes` spell. This calls `std::str::from_utf8`,
/// which takes exactly the byte strings that are valid UTF-8 and reads
/// them as the characters that they encode; the bytes must be valid, for
/// the error is not handled.
#[verifier::external_body]
pub(crate) fn utf8_str(bytes: &[u8]) -> (s: &str)
    requires
        valid_utf8(bytes@),
    ensures
        s@ == decode_utf8(bytes@),
{
    std::str::from_utf8(bytes).unwrap()
}

/// The character with the scalar value `v`, if there is one. This calls
/// `char::from_u32`, which gives a character exactly for the scalar values
/// of Unicode, and then the character of that value.
#[verifier::external_body]
pub(crate) fn char_of(v: u32) -> (c: Option<char>)
    ensures
        is_scalar(v) ==> c == Some(v as char),
        !is_scalar(v) ==> c is None,
{
    char::from_u32(v)
}

/// Appends the character `c` to the string `s`. This calls `String::push`,
/// which puts the character at the end and changes nothing before it.
#[verifier::external_body]
pub(crate) fn push_char(s: &mut String, c: char)
    ensures
        final(s)@ == old(s)@.push(c),
{
    s.push(c)
}

/// The character of the digit `d`.
pub open spec fn digit_char(d: nat) -> char {
    if d == 0 {
        '0'
    } else if d == 1 {
        '1'
    } else if d == 2 {
        '2'
    } else if d == 3 {
        '3'
    } else if d == 4 {
        '4'
    } else if d == 5 {
        '5'
    } else if d == 6 {
        '6'
    } else if d == 7 {
        '7'
    } else if d == 8 {
        '8'
    } else {
        '9'
    }
}

/// The number `n` in decimal digits, without leading zeros.
pub open spec fn digits(n: nat) -> Seq<char>
    decreases n,
{
    if n < 10 {
        seq![digit_char(n)]
    } else {
        digits(n / 10).push(digit_char(n % 10))
    }
}

/// The number `n` in decimal digits, with a minus sign before them if it is
/// negative.
pub open spec fn decimal(n: int) -> Seq<char> {
    if n < 0 {
        seq!['-'] + digits((-n) as nat)
    } else {
        digits(n as nat)
    }
}

/// The number `n` as text. This calls `to_string` of `usize`, which
/// writes a number in decimal digits, without leading zeros.
#[verifier::external_body]
pub(crate) fn nat_text(n: usize) -> (s: String)
    ensures
        s@ == digits(n as nat),
{
    n.to_string()
}

/// The number `n` as text. This calls `to_string` of `isize`, which
/// writes a number in decimal digits, without leading zeros, with a minus
/// sign before them if it is negative.
#[verifier::external_body]
pub(crate) fn int_text(n: isize) -> (s: String)
    ensures
        s@ == decimal(n as int),
{
    n.to_string()
}

/// A value that can be written as text.
pub trait Shown {
    /// The text of the value.
    spec fn text(&self) -> Seq<char>;

    fn show(&self) -> (s: String)
        ensures
            s@ == self.text(),
    ;
}

impl Shown for &'static str {
    open spec fn text(&self) -> Seq<char> {
        self@
    }

    fn show(&self) -> (s: String) {
        String::from_str(*self)
    }
}

impl Shown for String {
    open spec fn text(&self) -> Seq<char> {
        self@
    }

    fn show(&self) -> (s: String) {
        self.clone()
    }
}

impl Shown for usize {
    open spec fn text(&self) -> Seq<char> {
        digits(*self as nat)
    }

    fn show(&self) -> (s: String) {
        nat_text(*self)
    }
}

impl Shown for isize {
    open spec fn text(&self) -> Seq<char> {
        decimal(*self as int)
    }

    fn show(&self) -> (s: String) {
        int_text(*self)
    }
}

impl Shown for bool {
    open spec fn text(&self) -> Seq<char> {
        if *self {
            "true"@
        } else {
            "false"@
        }
    }

    fn show(&self) -> (s: String) {
        if *self {
            String::from_str("true")
        } else {
            String::from_str("false")
        }
    }
}

/// The texts `parts` one after another, with `sep` between each two.
pub open spec fn joined_by(parts: Seq<Seq<char>>, sep: Seq<char>) -> Seq<char>
    decreases parts.len(),
{
    if parts.len() == 0 {
        Seq::empty()
    } else if parts.len() == 1 {
        parts[0]
    } else {
        joined_by(parts.drop_last(), sep) + sep + parts.last()
    }
}

} // verus!
