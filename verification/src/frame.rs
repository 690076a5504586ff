//! VP8 frame helpers: the boolean decoder that reads the entropy-coded data of
//! a frame, and bit-level views of byte strings.

use vstd::prelude::*;
use crate::bits::{
    be_value, binary_text, bits_of, bits_value, lemma_bits_of, lemma_bits_value_concat,
    lemma_byte_digits,
};
use vstd::arithmetic::power2::{lemma2_to64, pow2};

pub use crate::bits::fill_bits;

verus! {

/// The state of a boolean decoder: the next input byte, the range, the value
/// window, and the count of bits shifted in from the input.
#[derive(Debug, Clone, Copy)]
pub struct BoolDecoder {
    pub input: u8,
    pub range: u32,
    pub value: u32,
    pub bit_count: u32,
}

/// Where a probability `prob` splits the range `range`.
pub open spec fn split_of(range: u32, prob: u8) -> u32 {
    (1 + ((((range - 1) * prob) as u32) >> 8u32)) as u32
}

/// The decoder after its range is doubled until it reaches 128: each doubling
/// shifts the value left by one bit, and when the bit count stands at seven
/// the count restarts and the input byte is or-ed into the value.
pub open spec fn normalize(range: nat, value: u32, bit_count: u32, input: u8) -> (nat, u32, u32)
    decreases 256 - range,
{
    if range == 0 || range >= 128 {
        (range, value, bit_count)
    } else {
        let v = (value << 1u32) as u32;
        if bit_count + 1 == 8 {
            normalize(range * 2, v | (input as u32), 0, input)
        } else {
            normalize(range * 2, v, bit_count, input)
        }
    }
}

/// The range and value after a decision, before normalization.
pub open spec fn decided(d: BoolDecoder, prob: u8) -> (u32, u32) {
    let split = split_of(d.range, prob);
    let big_split = (split << 8u32) as u32;
    if d.value >= big_split {
        ((d.range - split) as u32, (d.value - big_split) as u32)
    } else {
        (split, d.value)
    }
}

/// Decodes one boolean with probability `prob` (of 256) for zero: returns one
/// when the value lies at or above the split, zero otherwise, and narrows and
/// renormalizes the decoder.
#[allow(non_snake_case)]
pub fn read_bool(decoder: &mut BoolDecoder, prob: u8) -> (retval: u8)
    requires
        old(decoder).range >= 1,
        (old(decoder).range - 1) * prob <= u32::MAX,
        decided(*old(decoder), prob).0 > 0,
        decided(*old(decoder), prob).0 < 128 ==> old(decoder).bit_count < u32::MAX,
    ensures
        retval == (if old(decoder).value >= (split_of(old(decoder).range, prob) << 8u32) as u32 {
            1u8
        } else {
            0u8
        }),
        final(decoder).input == old(decoder).input,
        (final(decoder).range as nat, final(decoder).value, final(decoder).bit_count) == normalize(
            decided(*old(decoder), prob).0 as nat,
            decided(*old(decoder), prob).1,
            old(decoder).bit_count,
            old(decoder).input,
        ),
{
    let m: u32 = (decoder.range - 1) * prob as u32;
    let shifted: u32 = m >> 8;
    proof {
        let r = (decoder.range - 1) as u32;
        let p = prob as u32;
        assert(shifted <= r) by (bit_vector)
            requires
                m == r * p,
                shifted == m >> 8u32,
                p <= 255,
        ;
    }
    let split: u32 = 1 + shifted;
    let SPLIT: u32 = split << 8;
    let retval: u8;
    if decoder.value >= SPLIT {
        retval = 1;
        decoder.range -= split;
        decoder.value -= SPLIT;
    } else {
        retval = 0;
        decoder.range = split;
    }
    let ghost input = decoder.input;
    while decoder.range < 128
        invariant
            decoder.range > 0,
            decoder.input == input,
            decoder.range < 128 ==> decoder.bit_count < u32::MAX,
            normalize(decoder.range as nat, decoder.value, decoder.bit_count, input) == normalize(
                decided(*old(decoder), prob).0 as nat,
                decided(*old(decoder), prob).1,
                old(decoder).bit_count,
                old(decoder).input,
            ),
        decreases 0x1_0000_0000 - decoder.range,
    {
        let r = decoder.range;
        assert(r << 1u32 == r * 2) by (bit_vector)
            requires
                r < 128,
        ;
        decoder.value = decoder.value << 1;
        decoder.range = decoder.range << 1;
        if decoder.bit_count + 1 == 8 {
            decoder.bit_count = 0;
            decoder.value |= decoder.input as u32;
        }
    }
    return retval;
}

/// A decoder in its working state: the range lies between 128 and 255, the
/// value lies below the range shifted up by eight bits, and the bit count is
/// at most seven.
pub open spec fn decoder_ok(range: nat, value: u32, bit_count: u32) -> bool {
    &&& 128 <= range <= 255
    &&& value < range * 256
    &&& bit_count <= 7
}

/// Normalization brings a range between one and 255, with the value below it
/// shifted by eight bits and a bit count of at most seven, back into the
/// working state.
proof fn lemma_normalize_ok(range: nat, value: u32, bit_count: u32, input: u8)
    requires
        0 < range <= 255,
        value < range * 256,
        bit_count <= 7,
    ensures
        decoder_ok(
            normalize(range, value, bit_count, input).0,
            normalize(range, value, bit_count, input).1,
            normalize(range, value, bit_count, input).2,
        ),
    decreases 256 - range,
{
    if range < 128 {
        let v = (value << 1u32) as u32;
        assert(v == value * 2) by (bit_vector)
            requires
                value < 32768,
                v == (value << 1u32) as u32,
        ;
        let r2 = (range * 2) as u32;
        if bit_count + 1 == 8 {
            let inp = input as u32;
            let w = v | inp;
            assert(w < r2 * 256) by (bit_vector)
                requires
                    v < r2 * 256,
                    r2 <= 256,
                    inp < 256,
                    w == v | inp,
            ;
            lemma_normalize_ok(range * 2, w, 0, input);
        } else {
            lemma_normalize_ok(range * 2, v, bit_count, input);
        }
    }
}

/// A decoder in its working state stays in it: for every probability the
/// decision can be made without overflow, leaves a range above zero, and
/// renormalizing brings the range back between 128 and 255, keeps the value
/// below the range shifted up by eight bits, and keeps the bit count at most
/// seven.
pub proof fn law_read_bool_keeps_state(d: BoolDecoder, prob: u8)
    requires
        decoder_ok(d.range as nat, d.value, d.bit_count),
    ensures
        (d.range - 1) * prob <= u32::MAX,
        decided(d, prob).0 > 0,
        d.bit_count < u32::MAX,
        decoder_ok(
            normalize(decided(d, prob).0 as nat, decided(d, prob).1, d.bit_count, d.input).0,
            normalize(decided(d, prob).0 as nat, decided(d, prob).1, d.bit_count, d.input).1,
            normalize(decided(d, prob).0 as nat, decided(d, prob).1, d.bit_count, d.input).2,
        ),
{
    let r = (d.range - 1) as u32;
    let p = prob as u32;
    assert(r * p <= 254 * 255) by (nonlinear_arith)
        requires
            r <= 254,
            p <= 255,
    ;
    let m = (r * p) as u32;
    assert((m >> 8u32) < r) by (bit_vector)
        requires
            m == r * p,
            127 <= r <= 254,
            p <= 255,
    ;
    let split = split_of(d.range, prob);
    assert(1 <= split < d.range);
    let big = (split << 8u32) as u32;
    assert(big == split * 256) by (bit_vector)
        requires
            split < 256,
            big == (split << 8u32) as u32,
    ;
    if d.value >= big {
        assert(d.value - big < (d.range - split) * 256) by (nonlinear_arith)
            requires
                d.value < d.range * 256,
                big == split * 256,
        ;
    }
    lemma_normalize_ok(decided(d, prob).0 as nat, decided(d, prob).1, d.bit_count, d.input);
}

/// A decoder started at `start_position`: the value holds that number and the
/// next (as two bytes shifted together), the input the one after, the range
/// is 255 and no bit has been counted.
pub fn init_bool_decoder(start_position: u32) -> (d: BoolDecoder)
    requires
        start_position <= u32::MAX - 2,
    ensures
        d.value == (((start_position << 8u32) as u32) | ((start_position + 1) as u32)),
        d.input == ((start_position + 2) as u8),
        d.bit_count == 0,
        d.range == 255,
{
    let start = start_position;
    let mut start_position = start_position;
    let mut value: u32 = 0;
    let mut i: u32 = 1;
    while i <= 2
        invariant
            1 <= i <= 3,
            start <= u32::MAX - 2,
            start_position == start + i - 1,
            i == 1 ==> value == 0,
            i == 2 ==> value == start,
            i == 3 ==> value == (((start << 8u32) as u32) | ((start + 1) as u32)),
        decreases 3 - i,
    {
        let v = value;
        let s = start_position;
        if i == 1 {
            assert(((v << 8u32) | s) == s) by (bit_vector)
                requires
                    v == 0,
            ;
        }
        value = (value << 8) | start_position;
        start_position += 1;
        i += 1;
    }
    BoolDecoder { value: value, input: start_position as u8, bit_count: 0, range: 255 }
}

/// The eight binary digits of each byte of a sequence, one byte after the
/// other.
pub open spec fn bytes_bits(s: Seq<u8>) -> Seq<u8>
    decreases s.len(),
{
    if s.len() == 0 {
        Seq::empty()
    } else {
        bytes_bits(s.drop_last()) + bits_of(s.last() as nat, 8)
    }
}

/// The eight binary digits of each byte, one byte after the other.
pub fn bytes_array_to_bits_array(pool: &Vec<u8>) -> (collect: Vec<u8>)
    ensures
        collect@ =~= bytes_bits(pool@),
{
    let mut collect: Vec<u8> = Vec::new();
    let mut i: usize = 0;
    while i < pool.len()
        invariant
            i <= pool@.len(),
            collect@ =~= bytes_bits(pool@.take(i as int)),
        decreases pool@.len() - i,
    {
        let b = pool[i];
        proof {
            lemma_byte_digits(b);
        }
        let mut bits = fill_bits(binary_text(b));
        assert(pool@.take(i as int + 1).drop_last() =~= pool@.take(i as int));
        collect.append(&mut bits);
        i = i + 1;
    }
    assert(pool@.take(pool@.len() as int) =~= pool@);
    collect
}

/// The entries of `pool` from `start` to `end`, both included (none when
/// `start` lies past `end`).
pub fn extract_part(pool: &Vec<u8>, start: usize, end: usize) -> (collect: Vec<u8>)
    requires
        start <= end ==> end < pool@.len(),
    ensures
        collect@ =~= if start <= end {
            pool@.subrange(start as int, end + 1)
        } else {
            Seq::empty()
        },
{
    let mut collect: Vec<u8> = Vec::new();
    if start > end {
        return collect;
    }
    let len: usize = pool.len();
    let mut i: usize = start;
    while i <= end
        invariant
            start <= i <= end + 1,
            end < len,
            len == pool@.len(),
            collect@ =~= pool@.subrange(start as int, i as int),
        decreases end + 1 - i,
    {
        collect.push(pool[i]);
        i = i + 1;
    }
    collect
}

/// The digits of a byte string denote the number its bytes denote.
pub proof fn law_bits_of_bytes(s: Seq<u8>)
    ensures
        bytes_bits(s).len() == 8 * s.len(),
        bits_value(bytes_bits(s)) == be_value(s),
    decreases s.len(),
{
    if s.len() > 0 {
        let s0 = s.drop_last();
        law_bits_of_bytes(s0);
        lemma_bits_of(s.last() as nat, 8);
        lemma_bits_value_concat(bytes_bits(s0), bits_of(s.last() as nat, 8));
        assert(pow2(8) == 256) by {
            lemma2_to64();
        }
        vstd::arithmetic::div_mod::lemma_small_mod(s.last() as nat, 256);
    }
}

} // verus!
