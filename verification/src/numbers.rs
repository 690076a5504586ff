//! Fixed-width numbers read from element data, and the decimal text of
//! element identifiers.

use std::io::Cursor;
use byteorder::{BigEndian, ReadBytesExt};
use vstd::prelude::*;
use vstd::arithmetic::power2::{pow2, lemma2_to64_rest};
use crate::bits::{be_value, is_digit_text, lemma_be_value_concat, lemma_pow2_zero};

verus! {

/// The decimal digit character of `d` (below ten).
pub open spec fn decimal_char(d: nat) -> char {
    (48 + d) as char
}

/// The decimal rendering of `n`: no sign, no leading zeros, `"0"` for zero.
pub open spec fn decimal_repr(n: nat) -> Seq<char>
    decreases n,
{
    if n < 10 {
        seq![decimal_char(n)]
    } else {
        decimal_repr(n / 10).push(decimal_char(n % 10))
    }
}

/// The number that a text of decimal digits denotes.
pub open spec fn decimal_value(s: Seq<char>) -> nat
    decreases s.len(),
{
    if s.len() == 0 {
        0
    } else {
        decimal_value(s.drop_last()) * 10 + (s.last() as nat - 48) as nat
    }
}

/// What std's `usize` parsing makes of a text: an optional `+`, then at least
/// one decimal digit and nothing else, denoting at most `usize::MAX`.
pub open spec fn parse_usize_spec(s: Seq<char>) -> Option<nat> {
    let digits = if s.len() > 0 && s[0] == '+' {
        s.drop_first()
    } else {
        s
    };
    if digits.len() > 0 && is_digit_text(digits) && decimal_value(digits) <= usize::MAX {
        Some(decimal_value(digits))
    } else {
        None
    }
}

/// A 64-bit pattern read as a two's-complement signed number.
pub open spec fn signed_of(v: nat) -> int {
    if v < pow2(63) {
        v as int
    } else {
        v - pow2(64)
    }
}

/// Only zero is written `0`.
pub proof fn lemma_decimal_zero(t: nat)
    ensures
        decimal_repr(t).len() >= 1,
        (decimal_repr(t) =~= seq!['0']) <==> t == 0,
    decreases t,
{
    if t >= 10 {
        lemma_decimal_zero(t / 10);
    } else {
        if decimal_repr(t) =~= seq!['0'] {
            assert(decimal_repr(t)[0] == '0');
            assert(decimal_char(t) == '0');
            assert((48 + t) as char == '0');
            assert(t == 0);
        }
    }
}

/// `u64::to_string`: std writes a number in decimal, without sign or leading
/// zeros.
#[verifier::external_body]
pub(crate) fn decimal_text(n: u64) -> (s: String)
    ensures
        s@ == decimal_repr(n as nat),
{
    n.to_string()
}

/// `str::parse::<usize>`: std accepts an optional `+` followed by decimal
/// digits whose value fits a `usize`, and fails on anything else.
#[verifier::external_body]
pub(crate) fn parse_usize(s: &str) -> (r: Option<usize>)
    ensures
        r matches Some(v) ==> parse_usize_spec(s@) == Some(v as nat),
        r is None ==> parse_usize_spec(s@) is None,
{
    s.parse::<usize>().ok()
}

/// byteorder's `ReadBytesExt::read_u64::<BigEndian>` on a cursor at the start
/// of `bytes`: it reads the first eight bytes as a big-endian number, and
/// fails when there are fewer than eight.
#[verifier::external_body]
fn read_u64_be(bytes: &Vec<u8>) -> (r: Option<u64>)
    ensures
        bytes@.len() >= 8 ==> r is Some && r->0 == be_value(bytes@.take(8)),
        bytes@.len() < 8 ==> r is None,
{
    let mut rdr = Cursor::new(bytes);
    rdr.read_u64::<BigEndian>().ok()
}

/// byteorder's `ReadBytesExt::read_i64::<BigEndian>` on a cursor at the start
/// of `bytes`: it reads the first eight bytes as a big-endian two's-complement
/// number, and fails when there are fewer than eight.
#[verifier::external_body]
fn read_i64_be(bytes: &Vec<u8>) -> (r: Option<i64>)
    ensures
        bytes@.len() >= 8 ==> r is Some && r->0 == signed_of(be_value(bytes@.take(8))),
        bytes@.len() < 8 ==> r is None,
{
    let mut rdr = Cursor::new(bytes);
    rdr.read_i64::<BigEndian>().ok()
}

/// `data` behind enough zero bytes to make eight.
fn widen_to_eight(data: &Vec<u8>) -> (local: Vec<u8>)
    requires
        data@.len() <= 8,
    ensures
        local@ =~= Seq::new((8 - data@.len()) as nat, |_i: int| 0u8) + data@,
        be_value(local@) == be_value(data@),
{
    let mut local_data: Vec<u8> = Vec::new();
    let pad: usize = 8 - data.len();
    let mut z: usize = 0;
    while z < pad
        invariant
            z <= pad,
            local_data@ =~= Seq::new(z as nat, |_i: int| 0u8),
        decreases pad - z,
    {
        local_data.push(0);
        z = z + 1;
    }
    let mut i: usize = 0;
    while i < data.len()
        invariant
            i <= data@.len(),
            pad == 8 - data@.len(),
            local_data@ =~= Seq::new(pad as nat, |_i: int| 0u8) + data@.take(i as int),
        decreases data@.len() - i,
    {
        local_data.push(data[i]);
        i = i + 1;
    }
    proof {
        assert(data@.take(data@.len() as int) =~= data@);
        let zeros = Seq::new(pad as nat, |_i: int| 0u8);
        lemma_be_value_concat(zeros, data@);
        lemma_zero_value(pad as nat);
        assert(0 * pow2(8 * data@.len()) == 0) by (nonlinear_arith);
    }
    local_data
}

proof fn lemma_zero_value(k: nat)
    ensures
        be_value(Seq::new(k, |_i: int| 0u8)) == 0,
    decreases k,
{
    if k > 0 {
        assert(Seq::new(k, |_i: int| 0u8).drop_last() =~= Seq::new((k - 1) as nat, |_i: int| 0u8));
        lemma_zero_value((k - 1) as nat);
    }
}

/// Reads at most eight bytes as a big-endian unsigned number.
pub fn parse_u64(data: &Vec<u8>) -> (v: u64)
    requires
        data@.len() <= 8,
    ensures
        v == be_value(data@),
{
    let local_data = widen_to_eight(data);
    assert(local_data@.take(8) =~= local_data@);
    match read_u64_be(&local_data) {
        Some(v) => v,
        None => 0,
    }
}

/// Reads at most eight bytes, widened with zero bytes in front, as a
/// big-endian two's-complement signed number.
pub fn parse_i64(data: &Vec<u8>) -> (v: i64)
    requires
        data@.len() <= 8,
    ensures
        v == signed_of(be_value(data@)),
{
    let local_data = widen_to_eight(data);
    assert(local_data@.take(8) =~= local_data@);
    match read_i64_be(&local_data) {
        Some(v) => v,
        None => 0,
    }
}

} // verus!
