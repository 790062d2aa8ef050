//! Small string helpers: string equality with a specification, and a
//! verified decimal rendering of unsigned integers.
#![allow(unused_imports)]
use vstd::prelude::*;
use vstd::string::{StringExecFns, StringSliceAdditionalSpecFns};
use vstd::utf8::{decode_utf8, encode_utf8_decode_utf8, valid_utf8};

verus! {

/// Relies on `str`'s `PartialEq`: two string slices compare equal exactly
/// when their character sequences are equal.
#[verifier::external_body]
pub(crate) fn str_eq(a: &str, b: &str) -> (r: bool)
    ensures
        r == (a@ == b@),
{
    a == b
}

/// Relies on std's `str::from_utf8`: accepts exactly the valid UTF-8
/// byte sequences, handing back the text they encode.
#[verifier::external_body]
fn utf8_to_str(buf: &[u8]) -> (r: Option<&str>)
    ensures
        (r is Some) == valid_utf8(buf@),
        r matches Some(t) ==> t.spec_bytes() == buf@,
{
    std::str::from_utf8(buf).ok()
}

/// Appends the text that `buf` encodes to `s`: the whole of `buf` when
/// it is valid UTF-8, and nothing otherwise.
pub fn append_utf8(s: &mut String, buf: &[u8]) -> (r: Option<usize>)
    ensures
        valid_utf8(buf@) ==> (r matches Some(n) && n == buf@.len() && final(s)@ == old(s)@
            + decode_utf8(buf@)),
        !valid_utf8(buf@) ==> r is None && final(s)@ == old(s)@,
{
    match utf8_to_str(buf) {
        Some(t) => {
            proof {
                encode_utf8_decode_utf8(t@);
            }
            s.append(t);
            Some(buf.len())
        },
        None => None,
    }
}

/// The decimal digit character for `d`.
pub open spec fn spec_digit(d: nat) -> char {
    if d == 0 {
        '0'
    } else if d == 1 {
        '1'
    } else if d == 2 {
        '2'
    } else if d == 3 {
        '3'
    } else if d == 4 {
        '4'
    } else if d == 5 {
        '5'
    } else if d == 6 {
        '6'
    } else if d == 7 {
        '7'
    } else if d == 8 {
        '8'
    } else {
        '9'
    }
}

/// The decimal rendering of `n`, most significant digit first.
pub open spec fn u128_str(n: nat) -> Seq<char>
    decreases n,
{
    if n < 10 {
        seq![spec_digit(n)]
    } else {
        u128_str(n / 10) + seq![spec_digit(n % 10)]
    }
}

/// The one-character string for the digit `d`.
fn digit_str(d: u8) -> (r: &'static str)
    requires
        d < 10,
    ensures
        r@ == seq![spec_digit(d as nat)],
{
    proof {
        reveal_strlit("0");
        reveal_strlit("1");
        reveal_strlit("2");
        reveal_strlit("3");
        reveal_strlit("4");
        reveal_strlit("5");
        reveal_strlit("6");
        reveal_strlit("7");
        reveal_strlit("8");
        reveal_strlit("9");
    }
    match d {
        0 => "0",
        1 => "1",
        2 => "2",
        3 => "3",
        4 => "4",
        5 => "5",
        6 => "6",
        7 => "7",
        8 => "8",
        _ => "9",
    }
}

/// Renders `n` in decimal, most significant digit first.
pub(crate) fn u128_to_string(n: u128) -> (s: String)
    ensures
        s@ == u128_str(n as nat),
    decreases n,
{
    if n < 10 {
        digit_str(n as u8).to_owned()
    } else {
        let mut s = u128_to_string(n / 10);
        s.append(digit_str((n % 10) as u8));
        s
    }
}

} // verus!
