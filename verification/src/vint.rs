//! EBML variable-length integers: the leading zero bits of the first byte say
//! how many bytes follow, and a marker bit separates them from the value.

use vstd::prelude::*;
use vstd::arithmetic::power2::*;
use crate::bits::{
    be_value, binary_repr, binary_text, bit_length, bits_of, bits_value, digit_values, fill_bits,
    find_width, first_one, lemma_be_value_bound, lemma_be_value_concat, lemma_binary_repr,
    lemma_bit_length_range, lemma_bits_of, lemma_bits_of_split, lemma_bits_value_bound,
    lemma_bits_value_concat, lemma_bit_length_bound, lemma_bit_length_unique, lemma_byte_digits, lemma_first_one,
    lemma_leading_one, lemma_marker_bits, lemma_pow2_zero, lemma_zero_bits_of,
    make_number_from_bits, zero_bits,
};

verus! {

/// The number of bytes that follow the first byte of a variable-length
/// integer: the leading zero bits of that byte (eight for a zero byte).
pub open spec fn vint_width(b: u8) -> nat {
    if b == 0 {
        8
    } else {
        (8 - bit_length(b as nat)) as nat
    }
}

/// A whole variable-length integer starts at `at`.
pub open spec fn vint_readable(s: Seq<u8>, at: int) -> bool {
    0 <= at < s.len() && at + vint_width(s[at]) < s.len()
}

/// The value of the variable-length integer at `at`: its bytes read
/// big-endian, without the marker bit that ends the leading zeros.
pub open spec fn vint_value(s: Seq<u8>, at: int) -> nat {
    let w = vint_width(s[at]);
    let whole = be_value(s.subrange(at, at + w + 1));
    if w < 8 {
        (whole - pow2(7 * (w + 1))) as nat
    } else {
        whole
    }
}

/// The eight-byte form `01 FF FF FF FF FF FF FF` that marks a size as unknown.
pub open spec fn vint_unknown_size(s: Seq<u8>, at: int) -> bool {
    &&& s[at] == 1
    &&& forall|i: int| at < i <= at + 7 ==> s[i] == 255
}

/// What `read_v_int` reads at `at`: the value (zero for an unknown size where
/// sizes are read) and the position after the integer.
pub open spec fn read_v_int_spec(s: Seq<u8>, at: int, read_empty: bool) -> (nat, int) {
    (
        if read_empty && vint_unknown_size(s, at) {
            0
        } else {
            vint_value(s, at)
        },
        at + vint_width(s[at]) + 1,
    )
}

/// The digits of a byte begin with as many zeros as the integer it starts
/// has bytes after it, then the marker bit.
pub(crate) proof fn lemma_width_digits(b: u8)
    ensures
        first_one(bits_of(b as nat, 8)) == vint_width(b),
        vint_width(b) <= 8,
        bits_of(b as nat, 8).len() == 8,
        vint_width(b) < 8 ==> bits_of(b as nat, 8).skip(vint_width(b) + 1int) =~= bits_of(
            b as nat,
            (7 - vint_width(b)) as nat,
        ),
        vint_width(b) < 8 ==> b as nat == pow2((7 - vint_width(b)) as nat) + b as nat % pow2(
            (7 - vint_width(b)) as nat,
        ),
        vint_width(b) == 8 ==> b == 0,
{
    let s = bits_of(b as nat, 8);
    lemma_bits_of(b as nat, 8);
    lemma_first_one(s);
    if b == 0 {
        lemma_zero_bits_of(8);
        assert forall|j: int| 0 <= j < 8 implies s[j] != 1 by {
            assert(s[j] == zero_bits(8)[j]);
        }
        if first_one(s) < 8 {
            assert(s[first_one(s) as int] == 1);
        }
    } else {
        lemma_byte_digits(b);
        lemma_binary_repr(b as nat);
        lemma_bit_length_range(b as nat);
        let l = bit_length(b as nat);
        let w = (8 - l) as nat;
        assert(s[w as int] == 1) by {
            assert(s[w as int] == digit_values(binary_repr(b as nat))[0]);
        }
        assert forall|j: int| 0 <= j < w implies s[j] != 1 by {
            assert(s[j] == zero_bits(w)[j]);
        }
        if first_one(s) < w {
            assert(s[first_one(s) as int] == 1);
        }
        assert(first_one(s) == w);
        lemma_bits_of_split(b as nat, w + 1, (7 - w) as nat);
        lemma_bits_of(b as nat / pow2((7 - w) as nat), w + 1);
        assert(w + 1 + (7 - w) as nat == 8);
        assert(s.skip(w + 1int) =~= bits_of(b as nat, (7 - w) as nat));
        let p = pow2((7 - w) as nat);
        lemma_pow2_pos((7 - w) as nat);
        lemma_pow2_unfold(l);
        assert((l - 1) as nat == (7 - w) as nat);
        assert(p <= b < 2 * p);
        vstd::arithmetic::div_mod::lemma_fundamental_div_mod_converse(
            b as int,
            p as int,
            1,
            b - p,
        );
    }
}

/// Splits the bytes of an integer into its first byte and the rest.
proof fn lemma_vint_value(s: Seq<u8>, at: int)
    requires
        vint_readable(s, at),
    ensures
        vint_width(s[at]) < 8 ==> vint_value(s, at) == (s[at] as nat % pow2(
            (7 - vint_width(s[at])) as nat,
        )) * pow2(8 * vint_width(s[at])) + be_value(
            s.subrange(at + 1, at + 1 + vint_width(s[at])),
        ),
        vint_width(s[at]) == 8 ==> vint_value(s, at) == be_value(
            s.subrange(at + 1, at + 1 + vint_width(s[at])),
        ),
{
    let w = vint_width(s[at]);
    let b = s[at];
    lemma_width_digits(b);
    let head = seq![b];
    let rest = s.subrange(at + 1, at + 1 + w);
    assert(s.subrange(at, at + w + 1) =~= head + rest);
    lemma_be_value_concat(head, rest);
    assert(head.drop_last() =~= Seq::<u8>::empty());
    assert(be_value(Seq::<u8>::empty()) == 0);
    assert(be_value(head) == b as nat);
    let q = pow2(8 * w);
    if w < 8 {
        let p = pow2((7 - w) as nat);
        lemma_pow2_adds((7 - w) as nat, 8 * w);
        assert(((7 - w) as nat + 8 * w) as nat == 7 * (w + 1));
        let m = b as nat % p;
        assert((p + m) * q == p * q + m * q) by (nonlinear_arith);
    } else {
        assert(b == 0);
        assert(0 * q == 0) by (nonlinear_arith);
    }
}

/// Reads the variable-length integer that starts at `cursor`. Where `read_empty`
/// is set, the unknown-size form reads as zero.
pub fn read_v_int(buffer: &Vec<u8>, cursor: usize, read_empty: bool) -> (res: (u64, usize))
    requires
        vint_readable(buffer@, cursor as int),
    ensures
        res.0 as nat == read_v_int_spec(buffer@, cursor as int, read_empty).0,
        res.1 as int == read_v_int_spec(buffer@, cursor as int, read_empty).1,
{
    let ghost s = buffer@;
    let blen: usize = buffer.len();
    let b0: u8 = buffer[cursor];
    proof {
        lemma_byte_digits(b0);
        lemma_width_digits(b0);
        lemma_vint_value(s, cursor as int);
    }
    let start = fill_bits(binary_text(b0));
    assert(start@ =~= bits_of(b0 as nat, 8));
    let (width, mut pool) = find_width(&start);
    let ghost w = width as nat;
    assert(w == vint_width(b0));
    let ghost first = pool@;
    proof {
        if w < 8 {
            lemma_bits_of(b0 as nat, (7 - w) as nat);
        }
        lemma_pow2_zero();
        lemma_bits_value_bound(first);
    }
    let ghost stripped = bits_value(first);
    assert(w < 8 ==> stripped == b0 as nat % pow2((7 - w) as nat));
    assert(w == 8 ==> stripped == 0);
    let mut p_found = false;
    let mut i: usize = cursor + 1;
    assert(s.subrange(cursor + 1, i as int) =~= Seq::<u8>::empty());
    assert(be_value(Seq::<u8>::empty()) == 0);
    assert(stripped * 1 == stripped);
    let last: usize = cursor + width as usize;
    while i <= last
        invariant
            s == buffer@,
            last == cursor + w,
            last < s.len(),
            s.len() == blen,
            cursor + 1 <= i <= last + 1,
            pool@.len() == first.len() + 8 * (i - cursor - 1),
            forall|j: int| 0 <= j < pool@.len() ==> #[trigger] pool@[j] <= 1,
            bits_value(pool@) == stripped * pow2(8 * ((i - cursor - 1) as nat)) + be_value(
                s.subrange(cursor + 1, i as int),
            ),
            p_found <==> exists|j: int| cursor < j < i && s[j] != 255,
        decreases last + 1 - i,
    {
        let b = buffer[i];
        let ghost old_pool = pool@;
        let ghost k = (i - cursor - 1) as nat;
        proof {
            lemma_byte_digits(b);
        }
        let mut as_bits = fill_bits(binary_text(b));
        proof {
            lemma_bits_of(b as nat, 8);
            assert(pow2(8) == 256) by {
                lemma2_to64();
            }
            assert(b as nat % 256 == b as nat);
        }
        assert(as_bits@ =~= bits_of(b as nat, 8));
        pool.append(&mut as_bits);
        if !p_found && buffer[i] != 255 {
            p_found = true;
        }
        proof {
            assert(pool@ =~= old_pool + bits_of(b as nat, 8));
            lemma_bits_value_concat(old_pool, bits_of(b as nat, 8));
            assert forall|j: int| 0 <= j < pool@.len() implies #[trigger] pool@[j] <= 1 by {
                if j >= old_pool.len() {
                    assert(pool@[j] == bits_of(b as nat, 8)[j - old_pool.len()]);
                } else {
                    assert(pool@[j] == old_pool[j]);
                }
            }
            let sub = s.subrange(cursor + 1, i as int + 1);
            assert(sub.drop_last() =~= s.subrange(cursor + 1, i as int));
            lemma_pow2_adds(8 * k, 8);
            assert(8 * (k + 1) == 8 * k + 8);
            let x = stripped;
            let pk = pow2(8 * k);
            let y = be_value(s.subrange(cursor + 1, i as int));
            assert((x * pk + y) * 256 + b == x * (pk * 256) + (y * 256 + b)) by (nonlinear_arith);
            if p_found {
                if b != 255 {
                    assert(cursor < i as int && s[i as int] != 255);
                }
            }
        }
        i = i + 1;
    }
    let ghost k = w;
    if buffer[cursor] == 1 && read_empty && !p_found {
        return (0, cursor + width as usize + 1);
    }
    proof {
        lemma_bits_value_bound(pool@);
        assert(pool@.len() <= 64);
        lemma2_to64();
        if pool@.len() < 64 {
            lemma_pow2_strictly_increases(pool@.len(), 64);
        }
        assert(pow2(64) == 0x10000000000000000) by {
            lemma2_to64_rest();
        }
    }
    let num = make_number_from_bits(pool);
    proof {
        if w == 8 {
            assert(stripped * pow2(8 * w) == 0) by (nonlinear_arith)
                requires
                    stripped == 0,
            ;
        }
        if read_empty && vint_unknown_size(s, cursor as int) {
            assert(b0 == 1);
            assert(w == 7);
            let j = choose|j: int| cursor < j < i && s[j] != 255;
            assert(s[j] == 255);
        }
    }
    (num, cursor + width as usize + 1)
}

/// The number of bytes that follow a variable-length integer's first byte.
pub(crate) fn vint_width_of(b: u8) -> (w: u8)
    ensures
        w as nat == vint_width(b),
{
    proof {
        lemma_byte_digits(b);
        lemma_width_digits(b);
    }
    let start = fill_bits(binary_text(b));
    assert(start@ =~= bits_of(b as nat, 8));
    let (width, _rest) = find_width(&start);
    width
}

/// Whether a whole variable-length integer starts at `at`.
pub(crate) fn vint_fits(buffer: &Vec<u8>, at: usize) -> (b: bool)
    ensures
        b == vint_readable(buffer@, at as int),
{
    if at >= buffer.len() {
        return false;
    }
    let w = vint_width_of(buffer[at]);
    (w as usize) < buffer.len() - at
}

/// Reads an element's identifier at `cursor`.
pub fn read_tag(buffer: &Vec<u8>, cursor: usize) -> (res: (u64, usize))
    requires
        vint_readable(buffer@, cursor as int),
    ensures
        res.0 as nat == read_v_int_spec(buffer@, cursor as int, false).0,
        res.1 as int == read_v_int_spec(buffer@, cursor as int, false).1,
{
    read_v_int(buffer, cursor, false)
}

/// Reads an element's size at `cursor`; the unknown-size form reads as zero.
pub fn read_size(buffer: &Vec<u8>, cursor: usize) -> (res: (u64, usize))
    requires
        vint_readable(buffer@, cursor as int),
    ensures
        res.0 as nat == read_v_int_spec(buffer@, cursor as int, true).0,
        res.1 as int == read_v_int_spec(buffer@, cursor as int, true).1,
{
    read_v_int(buffer, cursor, true)
}


/// The `k`-byte big-endian form of the low `8k` bits of `n`.
pub open spec fn be_bytes(n: nat, k: nat) -> Seq<u8>
    decreases k,
{
    if k == 0 {
        Seq::empty()
    } else {
        be_bytes(n / 256, (k - 1) as nat).push((n % 256) as u8)
    }
}

/// The bytes of a sequence that are not zero, in order.
pub open spec fn nonzero_bytes(s: Seq<u8>) -> Seq<u8>
    decreases s.len(),
{
    if s.len() == 0 {
        s
    } else if s.last() != 0 {
        nonzero_bytes(s.drop_last()).push(s.last())
    } else {
        nonzero_bytes(s.drop_last())
    }
}

/// A sequence without its leading zero bytes.
pub open spec fn drop_leading_zeros(s: Seq<u8>) -> Seq<u8>
    decreases s.len(),
{
    if s.len() > 0 && s[0] == 0 {
        drop_leading_zeros(s.drop_first())
    } else {
        s
    }
}

/// What `make_vint` encodes for `n`: the bytes of `n`'s eight-byte big-endian
/// form that are not zero, read big-endian (`n` itself when no zero byte
/// stands between its significant bytes).
pub open spec fn vint_payload(n: nat) -> nat {
    be_value(nonzero_bytes(be_bytes(n, 8)))
}

/// The number of bytes `make_vint` writes for a payload of `b` binary digits.
pub open spec fn vint_length(b: nat) -> nat {
    (b + (b + 7) / 8 + 7) / 8
}

/// What `make_vint` writes for `n`: the unknown-size form for zero, otherwise
/// the payload with a marker bit on top, big-endian, in the fewest bytes that
/// leave seven bits per byte for the payload.
pub open spec fn vint_bytes(n: nat) -> Seq<u8> {
    if n == 0 {
        unknown_size_bytes()
    } else {
        let v = vint_payload(n);
        let r = vint_length(bit_length(v));
        be_bytes(pow2(7 * r) + v, r)
    }
}

/// The eight bytes `01 FF FF FF FF FF FF FF`.
pub open spec fn unknown_size_bytes() -> Seq<u8> {
    seq![1u8, 255u8, 255u8, 255u8, 255u8, 255u8, 255u8, 255u8]
}

/// The byte at position `j` of `be_bytes(n, k)`.
pub proof fn lemma_be_bytes_index(n: nat, k: nat, j: int)
    requires
        0 <= j < k,
    ensures
        be_bytes(n, k).len() == k,
        be_bytes(n, k)[j] == ((n / pow2((8 * (k - 1 - j)) as nat)) % 256) as u8,
    decreases k,
{
    lemma_be_bytes_len(n, k);
    let k1 = (k - 1) as nat;
    if j == k - 1 {
        lemma_pow2_zero();
        assert(n / 1 == n);
    } else {
        lemma_be_bytes_index(n / 256, k1, j);
        let e = (8 * (k1 - 1 - j)) as nat;
        lemma_pow2_pos(e);
        lemma_pow2_adds(8, e);
        assert(pow2(8) == 256) by {
            lemma2_to64();
        }
        assert((8 * (k - 1 - j)) as nat == 8 + e);
        vstd::arithmetic::div_mod::lemma_div_denominator(n as int, 256, pow2(e) as int);
    }
}

pub proof fn lemma_be_bytes_len(n: nat, k: nat)
    ensures
        be_bytes(n, k).len() == k,
    decreases k,
{
    if k > 0 {
        lemma_be_bytes_len(n / 256, (k - 1) as nat);
    }
}

/// The eight-byte big-endian form of a 64-bit number.
pub(crate) fn be_bytes_u64(x: u64) -> (r: Vec<u8>)
    ensures
        r@ =~= be_bytes(x as nat, 8),
{
    let mut r: Vec<u8> = Vec::new();
    let mut d: u64 = 0x100000000000000;
    let mut j: usize = 0;
    proof {
        lemma_be_bytes_len(x as nat, 8);
        assert(pow2(56) == 0x100000000000000) by {
            lemma2_to64_rest();
        }
    }
    while j < 8
        invariant
            j <= 8,
            j < 8 ==> d as nat == pow2((8 * (7 - j)) as nat),
            be_bytes(x as nat, 8).len() == 8,
            r@ =~= be_bytes(x as nat, 8).take(j as int),
        decreases 8 - j,
    {
        proof {
            lemma_pow2_pos((8 * (7 - j)) as nat);
        }
        let byte: u8 = ((x / d) % 256) as u8;
        proof {
            lemma_be_bytes_index(x as nat, 8, j as int);
        }
        r.push(byte);
        if j < 7 {
            proof {
                let e = (8 * (6 - j)) as nat;
                lemma_pow2_adds(e, 8);
                assert(pow2(8) == 256) by {
                    lemma2_to64();
                }
                assert((8 * (7 - j)) as nat == e + 8);
                lemma_pow2_pos(e);
                assert(d as nat / 256 == pow2(e)) by (nonlinear_arith)
                    requires
                        d as nat == pow2(e) * 256,
                ;
            }
            d = d / 256;
        }
        j = j + 1;
    }
    r
}

/// Removes the leading zero bytes of a sequence.
pub(crate) fn strip_leading_zeros(as_bytes: &mut Vec<u8>)
    ensures
        final(as_bytes)@ =~= drop_leading_zeros(old(as_bytes)@),
{
    loop
        invariant
            drop_leading_zeros(as_bytes@) =~= drop_leading_zeros(old(as_bytes)@),
        ensures
            as_bytes@ =~= drop_leading_zeros(old(as_bytes)@),
        decreases as_bytes@.len(),
    {
        if as_bytes.len() > 0 {
            if as_bytes[0] == 0 {
                let ghost before = as_bytes@;
                as_bytes.remove(0);
                assert(as_bytes@ =~= before.drop_first());
            } else {
                break;
            }
        } else {
            break;
        }
    }
}


/// A sequence of bytes is the big-endian form of what it denotes.
pub proof fn lemma_be_bytes_of_value(s: Seq<u8>)
    ensures
        be_bytes(be_value(s), s.len()) =~= s,
    decreases s.len(),
{
    if s.len() > 0 {
        let s0 = s.drop_last();
        lemma_be_bytes_of_value(s0);
        let x = be_value(s0);
        let l = s.last() as nat;
        assert((x * 256 + l) / 256 == x && (x * 256 + l) % 256 == l) by (nonlinear_arith)
            requires
                l < 256,
        ;
        assert(s =~= s0.push(s.last()));
    }
}

/// The bytes of the right length that denote the marked payload are those of
/// `vint_bytes`.
proof fn lemma_vint_bytes_unique(n: nat, s: Seq<u8>)
    requires
        n != 0,
        s.len() == vint_length(bit_length(vint_payload(n))),
        be_value(s) == pow2(7 * s.len()) + vint_payload(n),
    ensures
        s == vint_bytes(n),
{
    lemma_be_bytes_of_value(s);
}

/// The big-endian form of `n` keeps its low `8k` bits.
pub proof fn lemma_be_bytes_value(n: nat, k: nat)
    ensures
        be_value(be_bytes(n, k)) == n % pow2(8 * k),
    decreases k,
{
    if k == 0 {
        lemma_pow2_zero();
        assert(be_value(Seq::<u8>::empty()) == 0);
    } else {
        let k1 = (k - 1) as nat;
        lemma_be_bytes_value(n / 256, k1);
        assert(be_bytes(n, k).drop_last() =~= be_bytes(n / 256, k1));
        lemma_pow2_adds(8 * k1, 8);
        assert(pow2(8) == 256) by {
            lemma2_to64();
        }
        assert(8 * k == 8 * k1 + 8);
        lemma_pow2_pos(8 * k1);
        let p = pow2(8 * k1);
        assert(((n / 256) % p) * 256 + n % 256 == n % (p * 256)) by (nonlinear_arith)
            requires
                p > 0,
        {
            assert(n == (n / 256) * 256 + n % 256);
            assert(n / 256 == ((n / 256) / p) * p + (n / 256) % p);
            assert(n == ((n / 256) / p) * (p * 256) + (((n / 256) % p) * 256 + n % 256));
            assert(((n / 256) % p) * 256 + n % 256 < p * 256);
            vstd::arithmetic::div_mod::lemma_fundamental_div_mod_converse(
                n as int,
                (p * 256) as int,
                ((n / 256) / p) as int,
                (((n / 256) % p) * 256 + n % 256) as int,
            );
        }
    }
}

/// Only zero bytes denote zero.
proof fn lemma_be_value_zero(s: Seq<u8>)
    requires
        forall|i: int| 0 <= i < s.len() ==> s[i] == 0,
    ensures
        be_value(s) == 0,
    decreases s.len(),
{
    if s.len() > 0 {
        let s0 = s.drop_last();
        assert forall|i: int| 0 <= i < s0.len() implies s0[i] == 0 by {
            assert(s0[i] == s[i]);
        }
        lemma_be_value_zero(s0);
        assert(s.last() == s[s.len() - 1]);
    }
}

/// The bytes that `nonzero_bytes` keeps are not zero, and it keeps at least
/// one when there is one.
proof fn lemma_nonzero_bytes(s: Seq<u8>)
    ensures
        forall|i: int| 0 <= i < nonzero_bytes(s).len() ==> #[trigger] nonzero_bytes(s)[i] != 0,
        (exists|i: int| 0 <= i < s.len() && s[i] != 0) ==> nonzero_bytes(s).len() > 0,
        nonzero_bytes(s).len() <= s.len(),
    decreases s.len(),
{
    if s.len() > 0 {
        let s0 = s.drop_last();
        lemma_nonzero_bytes(s0);
        let r = nonzero_bytes(s);
        assert forall|i: int| 0 <= i < r.len() implies #[trigger] r[i] != 0 by {
            if i < nonzero_bytes(s0).len() {
                assert(r[i] == nonzero_bytes(s0)[i]);
            }
        }
        if exists|i: int| 0 <= i < s.len() && s[i] != 0 {
            let i = choose|i: int| 0 <= i < s.len() && s[i] != 0;
            if i < s.len() - 1 {
                assert(s0[i] != 0);
            }
        }
    }
}

/// Encodes `n` as a variable-length integer of the fewest bytes that hold its
/// payload (`vint_payload`), where the marker takes one bit per byte; zero
/// becomes the unknown-size form.
#[verifier::rlimit(30)]
pub fn make_vint(n: usize) -> (bytes: Vec<u8>)
    requires
        n == 0 || vint_payload(n as nat) < pow2(63),
    ensures
        bytes@ == vint_bytes(n as nat),
{
    if n == 0 {
        let r: Vec<u8> = vec![1, 255, 255, 255, 255, 255, 255, 255];
        assert(r@ =~= unknown_size_bytes());
        return r;
    }
    let as_bytes = be_bytes_u64(n as u64);
    let ghost eight = be_bytes(n as nat, 8);
    let ghost payload = vint_payload(n as nat);
    proof {
        lemma_be_bytes_len(n as nat, 8);
        lemma_be_bytes_value(n as nat, 8);
        lemma2_to64_rest();
        assert(pow2(64) == 0x10000000000000000);
        vstd::arithmetic::div_mod::lemma_small_mod(n as nat, pow2(64));
        if forall|i: int| 0 <= i < eight.len() ==> eight[i] == 0 {
            lemma_be_value_zero(eight);
        }
        lemma_nonzero_bytes(eight);
    }
    let mut refine: Vec<u8> = Vec::new();
    let mut i: usize = 0;
    while i < as_bytes.len()
        invariant
            as_bytes@ == eight,
            eight.len() == 8,
            i <= 8,
            refine@ =~= nonzero_bytes(eight.take(i as int)),
        decreases 8 - i,
    {
        assert(eight.take(i as int + 1).drop_last() =~= eight.take(i as int));
        if as_bytes[i] != 0 {
            refine.push(as_bytes[i]);
        }
        i = i + 1;
    }
    assert(eight.take(8) =~= eight);
    let ghost k = refine@.len();
    assert(k >= 1);
    assert(k <= 8);
    let r0: u8 = refine[0];
    proof {
        lemma_byte_digits(r0);
        lemma_binary_repr(r0 as nat);
        lemma_bit_length_range(r0 as nat);
        lemma_bits_of(r0 as nat, 8);
    }
    let filled = fill_bits(binary_text(r0));
    let ghost l = bit_length(r0 as nat);
    let ghost f = (8 - l) as int;
    assert(filled@ =~= bits_of(r0 as nat, 8));
    assert(filled@[f] == 1) by {
        assert(filled@[f] == digit_values(binary_repr(r0 as nat))[0]);
    }
    assert(forall|j: int| 0 <= j < f ==> filled@[j] == 0) by {
        assert forall|j: int| 0 <= j < f implies filled@[j] == 0 by {
            assert(filled@[j] == zero_bits((8 - binary_repr(r0 as nat).len()) as nat)[j]);
        }
    }
    let mut collect: Vec<u8> = Vec::new();
    let mut found = false;
    let mut j: usize = 0;
    while j < filled.len()
        invariant
            filled@.len() == 8,
            0 <= f < 8,
            filled@[f] == 1,
            forall|t: int| 0 <= t < f ==> filled@[t] == 0,
            j <= 8,
            found == (j > f),
            collect@ =~= if j > f {
                filled@.subrange(f, j as int)
            } else {
                Seq::empty()
            },
        decreases 8 - j,
    {
        let item = filled[j];
        if found {
            collect.push(item);
        }
        if item == 1 && !found {
            collect.push(item);
            found = true;
        }
        j = j + 1;
    }
    proof {
        assert(collect@ =~= digit_values(binary_repr(r0 as nat))) by {
            assert forall|t: int| 0 <= t < l implies collect@[t] == digit_values(
                binary_repr(r0 as nat),
            )[t] by {
                assert(collect@[t] == filled@[f + t]);
            }
        }
        assert(collect@ =~= bits_of(r0 as nat, l));
        lemma_bits_of(r0 as nat, l);
        vstd::arithmetic::div_mod::lemma_small_mod(r0 as nat, pow2(l));
        assert(refine@.take(1) =~= seq![r0]);
        assert(seq![r0].drop_last() =~= Seq::<u8>::empty());
        assert(be_value(Seq::<u8>::empty()) == 0);
        assert(be_value(seq![r0]) == r0 as nat);
    }
    let mut idx: usize = 1;
    while idx < refine.len()
        invariant
            1 <= idx <= k,
            k == refine@.len(),
            k <= 8,
            l >= 1,
            collect@.len() == l + 8 * (idx - 1),
            collect@[0] == 1,
            forall|t: int| 0 <= t < collect@.len() ==> #[trigger] collect@[t] <= 1,
            bits_value(collect@) == be_value(refine@.take(idx as int)),
        decreases k - idx,
    {
        let b = refine[idx];
        proof {
            lemma_byte_digits(b);
            lemma_bits_of(b as nat, 8);
        }
        let mut more = fill_bits(binary_text(b));
        assert(more@ =~= bits_of(b as nat, 8));
        let ghost before = collect@;
        collect.append(&mut more);
        proof {
            assert(collect@ =~= before + bits_of(b as nat, 8));
            assert(collect@[0] == before[0]);
            assert forall|t: int| 0 <= t < collect@.len() implies #[trigger] collect@[t] <= 1 by {
                if t >= before.len() {
                    assert(collect@[t] == bits_of(b as nat, 8)[t - before.len()]);
                } else {
                    assert(collect@[t] == before[t]);
                }
            }
            lemma_bits_value_concat(before, bits_of(b as nat, 8));
            assert(pow2(8) == 256) by {
                lemma2_to64();
            }
            vstd::arithmetic::div_mod::lemma_small_mod(b as nat, 256);
            assert(refine@.take(idx as int + 1).drop_last() =~= refine@.take(idx as int));
        }
        idx = idx + 1;
    }
    let ghost bsz = collect@.len();
    proof {
        assert(refine@.take(k as int) =~= refine@);
        assert(refine@ =~= nonzero_bytes(eight));
        assert(bits_value(collect@) == payload);
        lemma_leading_one(collect@);
        lemma_bits_value_bound(collect@);
        lemma_bit_length_unique(payload, bsz);
        if bsz > 64 {
            lemma_pow2_strictly_increases(63, (bsz - 1) as nat);
        } else if bsz == 64 {
            assert(pow2((bsz - 1) as nat) == pow2(63));
        }
        assert(bsz <= 63);
    }
    let base_bytes: usize = (collect.len() + 7) / 8;
    let required_bytes: usize = (collect.len() + base_bytes + 7) / 8;
    assert(1 <= required_bytes <= 9);
    assert(collect@.len() + required_bytes <= required_bytes * 8);
    let mut header: Vec<u8> = Vec::new();
    let mut z: usize = 0;
    while z < required_bytes - 1
        invariant
            z <= required_bytes - 1,
            header@ =~= zero_bits(z as nat),
        decreases required_bytes - 1 - z,
    {
        header.push(0);
        z = z + 1;
    }
    header.push(1);
    let padding: usize = required_bytes * 8 - collect.len() - header.len();
    let ghost head_part = header@;
    let mut y: usize = 0;
    while y < padding
        invariant
            y <= padding,
            header@ =~= head_part + zero_bits(y as nat),
        decreases padding - y,
    {
        header.push(0);
        y = y + 1;
    }
    let ghost bits_part = collect@;
    header.append(&mut collect);
    let ghost total = header@;
    let ghost rb = required_bytes as nat;
    proof {
        assert(total =~= zero_bits((rb - 1) as nat) + seq![1u8] + zero_bits(padding as nat)
            + bits_part);
        lemma_marker_bits((rb - 1) as nat, padding as nat, bits_part);
        assert(padding + bits_part.len() == 7 * rb);
        assert(total.len() == 8 * rb);
        assert forall|t: int| 0 <= t < total.len() implies #[trigger] total[t] <= 1 by {
            if t >= total.len() - bits_part.len() {
                assert(total[t] == bits_part[t - (total.len() - bits_part.len())]);
            }
        }
    }
    let mut parts: Vec<Vec<u8>> = Vec::new();
    let mut part: Vec<u8> = Vec::new();
    let mut h: usize = 0;
    while h < header.len()
        invariant
            header@ == total,
            total.len() == 8 * rb,
            h <= total.len(),
            parts@.len() * 8 + part@.len() == h,
            part@.len() <= 8,
            h > 0 ==> part@.len() >= 1,
            forall|q: int|
                0 <= q < parts@.len() ==> #[trigger] parts@[q]@ =~= total.subrange(8 * q, 8 * q + 8),
            part@ =~= total.subrange(8 * parts@.len() as int, h as int),
        decreases total.len() - h,
    {
        let item = header[h];
        if part.len() == 8 {
            parts.push(part);
            part = Vec::new();
            part.push(item);
        } else if part.len() < 8 {
            part.push(item);
        }
        h = h + 1;
    }
    parts.push(part);
    assert(parts@.len() == rb);
    let mut bytes: Vec<u8> = Vec::new();
    let mut q: usize = 0;
    while q < parts.len()
        invariant
            parts@.len() == rb,
            total.len() == 8 * rb,
            forall|t: int| 0 <= t < total.len() ==> #[trigger] total[t] <= 1,
            forall|r: int|
                0 <= r < parts@.len() ==> #[trigger] parts@[r]@ =~= total.subrange(8 * r, 8 * r + 8),
            q <= rb,
            bytes@.len() == q,
            be_value(bytes@) == bits_value(total.take(8 * q)),
        decreases rb - q,
    {
        let chunk = parts[q].clone();
        assert(chunk@ =~= parts@[q as int]@);
        let ghost c = total.subrange(8 * q, 8 * q + 8);
        proof {
            assert forall|t: int| 0 <= t < c.len() implies #[trigger] c[t] <= 1 by {
                assert(c[t] == total[8 * q + t]);
            }
            lemma_bits_value_bound(c);
            assert(pow2(8) == 256) by {
                lemma2_to64();
            }
        }
        let v = make_number_from_bits(chunk);
        let ghost before = bytes@;
        bytes.push(v as u8);
        proof {
            assert(total.take(8 * q + 8) =~= total.take(8 * q) + c);
            lemma_bits_value_concat(total.take(8 * q), c);
            assert(bytes@.drop_last() =~= before);
        }
        q = q + 1;
    }
    proof {
        assert(total.take(8 * rb as int) =~= total);
        assert(bsz == bit_length(payload));
        assert(bytes@.len() == rb);
        assert(be_value(bytes@) == pow2(7 * rb) + payload);
        lemma_vint_bytes_unique(n as nat, bytes@);
    }
    bytes
}


/// The size field `make_master_vint` writes for a master element whose
/// children take `num` bytes: the unknown-size form for zero, otherwise a
/// byte holding the count `L` of significant bytes, `7 - L` zero bytes, and
/// the `L` significant bytes of `num`, big-endian.
pub open spec fn master_size_bytes(num: nat) -> Seq<u8> {
    if num == 0 {
        unknown_size_bytes()
    } else {
        let sig = drop_leading_zeros(be_bytes(num, 8));
        seq![sig.len() as u8] + Seq::new((7 - sig.len()) as nat, |_i: int| 0u8) + sig
    }
}

proof fn lemma_drop_leading_zeros_len(s: Seq<u8>)
    ensures
        drop_leading_zeros(s).len() <= s.len(),
        s.len() > 0 && s[0] == 0 ==> drop_leading_zeros(s).len() < s.len(),
    decreases s.len(),
{
    if s.len() > 0 && s[0] == 0 {
        lemma_drop_leading_zeros_len(s.drop_first());
    }
}

/// Writes the size field of a master element whose children take `num` bytes.
pub fn make_master_vint(num: usize) -> (r: Vec<u8>)
    requires
        num < pow2(56),
    ensures
        r@ == master_size_bytes(num as nat),
{
    if num == 0 {
        let r: Vec<u8> = vec![1, 255, 255, 255, 255, 255, 255, 255];
        assert(r@ =~= unknown_size_bytes());
        return r;
    }
    let mut collect: Vec<u8> = Vec::new();
    let mut as_bytes = be_bytes_u64(num as u64);
    proof {
        lemma_be_bytes_index(num as nat, 8, 0);
        lemma_pow2_pos(56);
        vstd::arithmetic::div_mod::lemma_basic_div(num as int, pow2(56) as int);
        lemma_drop_leading_zeros_len(as_bytes@);
    }
    strip_leading_zeros(&mut as_bytes);
    let len: usize = as_bytes.len();
    assert(len <= 7);
    if len == 0 {
        return vec![0, 0, 0, 0, 0, 0, 0, 0];
    }
    collect.push(len as u8);
    let padding: usize = 8 - 1 - len;
    let mut z: usize = 0;
    while z < padding
        invariant
            z <= padding,
            collect@ =~= seq![len as u8] + Seq::new(z as nat, |_i: int| 0u8),
        decreases padding - z,
    {
        collect.push(0);
        z = z + 1;
    }
    collect.append(&mut as_bytes);
    collect
}


/// A run of bytes that are all `FF` denotes `2^(8k) - 1`.
proof fn lemma_be_value_all_ff(s: Seq<u8>)
    requires
        forall|i: int| 0 <= i < s.len() ==> s[i] == 255,
    ensures
        be_value(s) + 1 == pow2(8 * s.len()),
    decreases s.len(),
{
    if s.len() == 0 {
        lemma_pow2_zero();
    } else {
        let s0 = s.drop_last();
        assert forall|i: int| 0 <= i < s0.len() implies s0[i] == 255 by {
            assert(s0[i] == s[i]);
        }
        lemma_be_value_all_ff(s0);
        lemma_pow2_adds(8 * s0.len(), 8);
        assert(pow2(8) == 256) by {
            lemma2_to64();
        }
        assert(8 * s.len() == 8 * s0.len() + 8);
        assert(s.last() == s[s.len() - 1]);
    }
}

/// The width byte of a variable-length integer is the first byte of the
/// big-endian form of the marked payload.
proof fn lemma_vint_first_byte(v: nat, r: nat)
    requires
        1 <= r <= 8,
        v < pow2(7 * r),
    ensures
        be_bytes(pow2(7 * r) + v, r).len() == r,
        vint_width(be_bytes(pow2(7 * r) + v, r)[0]) == r - 1,
        be_value(be_bytes(pow2(7 * r) + v, r)) == pow2(7 * r) + v,
{
    let x = pow2(7 * r) + v;
    let s = be_bytes(x, r);
    let e = (8 * (r - 1)) as nat;
    let f = (8 - r) as nat;
    let p = pow2(e);
    let q = pow2(f);
    lemma_be_bytes_len(x, r);
    lemma_be_bytes_index(x, r, 0);
    lemma_be_bytes_value(x, r);
    lemma_pow2_adds(f, e);
    assert(f + e == 7 * r);
    assert(pow2(7 * r) == q * p);
    lemma_pow2_pos(e);
    lemma_pow2_pos(f);
    lemma_pow2_adds(7 * r, r);
    lemma_pow2_strictly_increases(0, r);
    lemma_pow2_zero();
    assert(x < pow2(8 * r)) by {
        assert(pow2(8 * r) == pow2(7 * r) * pow2(r));
        assert(pow2(r) >= 2);
        assert(x < pow2(7 * r) * 2);
        assert(pow2(7 * r) * 2 <= pow2(7 * r) * pow2(r)) by (nonlinear_arith)
            requires
                pow2(r) >= 2,
        ;
    }
    vstd::arithmetic::div_mod::lemma_small_mod(x, pow2(8 * r));
    let d = v / p;
    assert(d < q && x / p == q + d) by (nonlinear_arith)
        requires
            p > 0,
            x == q * p + v,
            v < q * p,
            d == v / p,
    {
        assert(v == d * p + v % p);
        assert(0 <= v % p < p);
        assert(x == (q + d) * p + v % p);
        vstd::arithmetic::div_mod::lemma_fundamental_div_mod_converse(
            x as int,
            p as int,
            (q + d) as int,
            (v % p) as int,
        );
        if d >= q {
            assert(d * p >= q * p);
        }
    }
    if f < 7 {
        lemma_pow2_strictly_increases(f, 7);
    }
    assert(pow2(7) == 128) by {
        lemma2_to64();
    }
    lemma_pow2_unfold((9 - r) as nat);
    assert(((9 - r) - 1) as nat == f);
    vstd::arithmetic::div_mod::lemma_small_mod((q + d) as nat, 256);
    assert(s[0] as nat == q + d);
    lemma_bit_length_unique(s[0] as nat, (9 - r) as nat);
}

/// Whatever `make_vint` writes for a nonzero `n` whose payload fits in seven
/// bytes reads back as that payload, and ends where the bytes end. Read as a
/// size it reads back too, but for the one payload `2^56 - 1` whose bytes are
/// the unknown-size form.
pub proof fn law_vint_roundtrip(n: nat)
    requires
        n != 0,
        vint_payload(n) < pow2(56),
    ensures
        vint_readable(vint_bytes(n), 0),
        read_v_int_spec(vint_bytes(n), 0, false) == (
            vint_payload(n),
            vint_bytes(n).len() as int,
        ),
        vint_payload(n) + 1 < pow2(56) ==> read_v_int_spec(vint_bytes(n), 0, true)
            == (vint_payload(n), vint_bytes(n).len() as int),
{
    let v = vint_payload(n);
    let b = bit_length(v);
    let r = vint_length(b);
    let s = vint_bytes(n);
    lemma_binary_repr(v);
    lemma_bit_length_bound(v, 56);
    assert(r <= 8);
    assert(b <= 7 * r);
    if b < 7 * r {
        lemma_pow2_strictly_increases(b, 7 * r);
    }
    lemma_vint_first_byte(v, r);
    assert(s.subrange(0, r as int) =~= s);
    if vint_unknown_size(s, 0) {
        let tail = s.subrange(1, 8);
        assert forall|i: int| 0 <= i < tail.len() implies tail[i] == 255 by {
            assert(tail[i] == s[i + 1]);
        }
        assert(s[0] == 1);
        assert(vint_width(1) == 7);
        assert(r == 8);
        lemma_be_value_all_ff(tail);
        let head = seq![s[0]];
        assert(s =~= head + tail);
        lemma_be_value_concat(head, tail);
        assert(head.drop_last() =~= Seq::<u8>::empty());
        assert(be_value(Seq::<u8>::empty()) == 0);
        assert(be_value(head) == 1);
        assert(1 * pow2(56) == pow2(56));
        assert(be_value(head) * pow2(8 * tail.len()) == pow2(56));
        assert(be_value(s) == pow2(56) + be_value(tail));
        assert(v + 1 == pow2(56));
    }
}

/// Zero bytes in front add nothing to a sequence.
proof fn lemma_drop_zero_prefix(k: nat, t: Seq<u8>)
    ensures
        drop_leading_zeros(Seq::new(k, |_i: int| 0u8) + t) == drop_leading_zeros(t),
    decreases k,
{
    if k > 0 {
        let z = Seq::new(k, |_i: int| 0u8) + t;
        assert(z.drop_first() =~= Seq::new((k - 1) as nat, |_i: int| 0u8) + t);
        lemma_drop_zero_prefix((k - 1) as nat, t);
    }
}

/// A number below 256 has seven zero bytes, then itself.
pub proof fn lemma_small_be_bytes(n: nat)
    requires
        n < 256,
    ensures
        be_bytes(n, 8) =~= Seq::new(7, |_i: int| 0u8) + seq![n as u8],
{
    let eight = be_bytes(n, 8);
    let z7 = Seq::new(7, |_i: int| 0u8);
    lemma_be_bytes_len(n, 8);
    assert forall|j: int| 0 <= j < 8 implies eight[j] == (z7 + seq![n as u8])[j] by {
        lemma_be_bytes_index(n, 8, j);
        let e = (8 * (7 - j)) as nat;
        if j < 6 {
            lemma_pow2_strictly_increases(8, e);
        }
        if j < 7 {
            assert(pow2(8) == 256) by {
                lemma2_to64();
            }
            vstd::arithmetic::div_mod::lemma_basic_div(n as int, pow2(e) as int);
        } else {
            lemma_pow2_zero();
        }
    }
}

/// `make_vint` encodes a number below 256 as itself.
pub proof fn lemma_small_payload(n: nat)
    requires
        n < 256,
    ensures
        vint_payload(n) == n,
{
    lemma_small_be_bytes(n);
    let s = be_bytes(n, 8);
    assert(zeros_only_leading(s)) by {
        assert forall|i: int, j: int| 0 <= j < i < s.len() && s[i] == 0 implies s[j] == 0 by {
            assert(j < 7);
        }
    }
    lemma2_to64_rest();
    law_vint_payload_exact(n);
}

/// A master size below 256 reads back as itself, and the field takes eight
/// bytes.
pub proof fn law_master_size_roundtrip(n: nat)
    requires
        n < 256,
    ensures
        master_size_bytes(n).len() == 8,
        vint_readable(master_size_bytes(n), 0),
        read_v_int_spec(master_size_bytes(n), 0, true) == (n, 8int),
{
    lemma_pow2_zero();
    lemma_pow2_unfold(1);
    lemma_bit_length_unique(1, 1);
    let s = master_size_bytes(n);
    if n == 0 {
        assert(s[0] == 1);
        assert(vint_width(s[0]) == 7);
        assert(vint_unknown_size(s, 0));
    } else {
        let eight = be_bytes(n, 8);
        let z7 = Seq::new(7, |_i: int| 0u8);
        assert(eight =~= z7 + seq![n as u8]) by {
            lemma_be_bytes_len(n, 8);
            assert forall|j: int| 0 <= j < 8 implies eight[j] == (z7 + seq![n as u8])[j] by {
                lemma_be_bytes_index(n, 8, j);
                let e = (8 * (7 - j)) as nat;
                if j < 6 {
                    lemma_pow2_strictly_increases(8, e);
                }
                if j < 7 {
                    assert(pow2(8) == 256) by {
                        lemma2_to64();
                    }
                    vstd::arithmetic::div_mod::lemma_basic_div(n as int, pow2(e) as int);
                } else {
                    lemma_pow2_zero();
                }
            }
        }
        lemma_drop_zero_prefix(7, seq![n as u8]);
        assert(seq![n as u8].drop_first() =~= Seq::<u8>::empty());
        assert(drop_leading_zeros(eight) =~= seq![n as u8]);
        let z6 = Seq::new(6, |_i: int| 0u8);
        assert(s =~= seq![1u8] + (z6 + seq![n as u8]));
        lemma_be_value_concat(seq![1u8], z6 + seq![n as u8]);
        lemma_be_value_concat(z6, seq![n as u8]);
        lemma_be_value_zero(z6);
        assert(seq![1u8].drop_last() =~= Seq::<u8>::empty());
        assert(seq![n as u8].drop_last() =~= Seq::<u8>::empty());
        assert(be_value(Seq::<u8>::empty()) == 0);
        assert(s[1] == 0);
        assert(s[0] == 1);
        assert(vint_width(1) == 7);
        assert(s.subrange(0, 8) =~= s);
        assert(pow2(56) * 1 == pow2(56));
        assert(be_value(seq![1u8]) == 1);
        assert(be_value(seq![n as u8]) == n);
        assert(0 * pow2(8) == 0) by (nonlinear_arith);
        assert(be_value(z6 + seq![n as u8]) == n);
        assert((z6 + seq![n as u8]).len() == 7);
        assert(1 * pow2(56) == pow2(56));
        assert(be_value(seq![1u8]) * pow2(8 * (z6 + seq![n as u8]).len()) == pow2(56));
        assert(be_value(s) == pow2(56) + n);
        assert(vint_value(s, 0) == n);
        assert(!vint_unknown_size(s, 0));
    }
}


/// No zero byte stands after a nonzero one: the zeros of the sequence, if
/// any, all lead.
pub open spec fn zeros_only_leading(s: Seq<u8>) -> bool {
    forall|i: int, j: int| 0 <= j < i < s.len() && s[i] == 0 ==> s[j] == 0
}

proof fn lemma_nonzero_bytes_all_zero(s: Seq<u8>)
    requires
        forall|i: int| 0 <= i < s.len() ==> s[i] == 0,
    ensures
        nonzero_bytes(s).len() == 0,
    decreases s.len(),
{
    if s.len() > 0 {
        let s0 = s.drop_last();
        assert forall|i: int| 0 <= i < s0.len() implies s0[i] == 0 by {
            assert(s0[i] == s[i]);
        }
        lemma_nonzero_bytes_all_zero(s0);
        assert(s.last() == s[s.len() - 1]);
    }
}

proof fn lemma_nonzero_bytes_value(s: Seq<u8>)
    requires
        zeros_only_leading(s),
    ensures
        be_value(nonzero_bytes(s)) == be_value(s),
    decreases s.len(),
{
    if s.len() > 0 {
        let s0 = s.drop_last();
        assert(zeros_only_leading(s0)) by {
            assert forall|i: int, j: int| 0 <= j < i < s0.len() && s0[i] == 0 implies s0[j]
                == 0 by {
                assert(s0[i] == s[i] && s0[j] == s[j]);
            }
        }
        lemma_nonzero_bytes_value(s0);
        if s.last() != 0 {
            let nz = nonzero_bytes(s0).push(s.last());
            assert(nz.drop_last() =~= nonzero_bytes(s0));
            assert(nonzero_bytes(s) == nz);
        }
        if s.last() == 0 {
            assert(forall|j: int| 0 <= j < s.len() ==> s[j] == 0) by {
                assert forall|j: int| 0 <= j < s.len() implies s[j] == 0 by {
                    if j < s.len() - 1 {
                        assert(s[s.len() - 1] == 0);
                    }
                }
            }
            lemma_nonzero_bytes_all_zero(s);
            lemma_be_value_zero(s);
            assert(nonzero_bytes(s) =~= Seq::<u8>::empty());
            assert(be_value(Seq::<u8>::empty()) == 0);
        }
    }
}

/// `make_vint` encodes `n` itself when no zero byte stands between the
/// significant bytes of `n`.
pub proof fn law_vint_payload_exact(n: nat)
    requires
        n < pow2(64),
        zeros_only_leading(be_bytes(n, 8)),
    ensures
        vint_payload(n) == n,
{
    lemma_nonzero_bytes_value(be_bytes(n, 8));
    lemma_be_bytes_value(n, 8);
    vstd::arithmetic::div_mod::lemma_small_mod(n, pow2(64));
}


/// Bytes after a whole variable-length integer change nothing of it.
pub proof fn lemma_vint_prefix(a: Seq<u8>, c: Seq<u8>, read_empty: bool)
    requires
        vint_readable(a, 0),
    ensures
        vint_readable(a + c, 0),
        read_v_int_spec(a + c, 0, read_empty) == read_v_int_spec(a, 0, read_empty),
{
    let w = vint_width(a[0]);
    assert((a + c)[0] == a[0]);
    assert((a + c).subrange(0, w + 1int) =~= a.subrange(0, w + 1int));
    if a[0] == 1 {
        assert(forall|i: int| 0 < i <= 7 ==> (a + c)[i] == a[i]);
    }
}

/// Leading zero bytes add nothing to what bytes denote.
pub proof fn lemma_drop_leading_zeros_value(s: Seq<u8>)
    ensures
        be_value(drop_leading_zeros(s)) == be_value(s),
    decreases s.len(),
{
    if s.len() > 0 && s[0] == 0 {
        lemma_drop_leading_zeros_value(s.drop_first());
        assert(s =~= seq![0u8] + s.drop_first());
        lemma_be_value_concat(seq![0u8], s.drop_first());
        assert(seq![0u8].drop_last() =~= Seq::<u8>::empty());
        assert(be_value(Seq::<u8>::empty()) == 0);
        assert(be_value(seq![0u8]) == 0);
        assert(0 * pow2(8 * s.drop_first().len()) == 0) by (nonlinear_arith);
    }
}

/// A count written by `make_vint` reads back as a size: zero as the
/// unknown-size form, any other count whose significant bytes hold no zero
/// byte and that stays below `2^56 - 1` as itself.
pub proof fn law_size_roundtrip(n: nat)
    requires
        n + 1 < pow2(56),
        zeros_only_leading(be_bytes(n, 8)),
    ensures
        vint_readable(vint_bytes(n), 0),
        read_v_int_spec(vint_bytes(n), 0, true) == (n, vint_bytes(n).len() as int),
{
    lemma2_to64_rest();
    lemma_pow2_strictly_increases(56, 64);
    if n == 0 {
        lemma_pow2_zero();
        lemma_pow2_unfold(1);
        lemma_bit_length_unique(1, 1);
        let s = vint_bytes(0);
        assert(s[0] == 1);
        assert(vint_width(s[0]) == 7);
        assert(vint_unknown_size(s, 0));
    } else {
        law_vint_payload_exact(n);
        law_vint_roundtrip(n);
    }
}


/// The byte count `make_vint` picks for a payload of `b` binary digits (one to
/// 63) is the fewest bytes whose seven payload bits each hold them.
proof fn lemma_vint_length_fewest(b: nat)
    requires
        1 <= b <= 63,
    ensures
        7 * (vint_length(b) - 1) < b <= 7 * vint_length(b),
        1 <= vint_length(b) <= 9,
{
}

/// `make_vint` writes the shortest variable-length integer that holds the
/// payload: its bytes hold the payload in their seven-bits-per-byte room,
/// and one byte fewer would not, so a payload written in `r > 1` bytes is at
/// least `2^(7(r-1))`.
pub proof fn law_vint_fewest_bytes(n: nat)
    requires
        n != 0,
        vint_payload(n) < pow2(63),
    ensures
        vint_bytes(n).len() >= 1,
        vint_payload(n) < pow2(7 * vint_bytes(n).len()),
        vint_bytes(n).len() > 1 ==> vint_payload(n) >= pow2((7 * (vint_bytes(n).len() - 1)) as nat),
{
    let v = vint_payload(n);
    let b = bit_length(v);
    lemma_binary_repr(v);
    lemma_bit_length_bound(v, 63);
    let r = vint_length(b);
    lemma_vint_length_fewest(b);
    lemma_be_bytes_len(pow2(7 * r) + v, r);
    assert(vint_bytes(n).len() == r);
    if b < 7 * r {
        lemma_pow2_strictly_increases(b, 7 * r);
    }
    if r > 1 {
        lemma_bit_length_range(v);
        let lo = (7 * (r - 1)) as nat;
        if lo < (b - 1) as nat {
            lemma_pow2_strictly_increases(lo, (b - 1) as nat);
        }
    }
}

/// Whether `make_vint` can write `n`.
pub fn payload_fits(n: usize) -> (b: bool)
    ensures
        b == (n == 0 || vint_payload(n as nat) < pow2(63)),
{
    if n == 0 {
        return true;
    }
    let as_bytes = be_bytes_u64(n as u64);
    let ghost eight = be_bytes(n as nat, 8);
    proof {
        lemma_be_bytes_len(n as nat, 8);
        lemma_nonzero_bytes(eight);
    }
    let mut refine: Vec<u8> = Vec::new();
    let mut i: usize = 0;
    while i < as_bytes.len()
        invariant
            as_bytes@ == eight,
            eight.len() == 8,
            i <= 8,
            refine@ =~= nonzero_bytes(eight.take(i as int)),
        decreases 8 - i,
    {
        assert(eight.take(i as int + 1).drop_last() =~= eight.take(i as int));
        if as_bytes[i] != 0 {
            refine.push(as_bytes[i]);
        }
        i = i + 1;
    }
    assert(eight.take(8) =~= eight);
    let k = refine.len();
    proof {
        let r = refine@;
        lemma_be_value_bound(r);
        lemma2_to64_rest();
        if k > 0 {
            let rest = r.drop_first();
            assert(r =~= seq![r[0]] + rest);
            lemma_be_value_concat(seq![r[0]], rest);
            assert(seq![r[0]].drop_last() =~= Seq::<u8>::empty());
            assert(be_value(Seq::<u8>::empty()) == 0);
            assert(be_value(seq![r[0]]) == r[0] as nat);
            lemma_be_value_bound(rest);
            if k < 8 {
                lemma_pow2_strictly_increases(8 * k as nat, 63);
            } else {
                lemma_pow2_adds(7, 56);
                assert(pow2(7) == 128) by {
                    lemma2_to64();
                }
                let p = pow2(56);
                let x = r[0] as nat;
                let y = be_value(rest);
                assert(8 * rest.len() == 56);
                if x < 128 {
                    assert(x * p + y < 128 * p) by (nonlinear_arith)
                        requires
                            x < 128,
                            y < p,
                    ;
                } else {
                    assert(x * p + y >= 128 * p) by (nonlinear_arith)
                        requires
                            x >= 128,
                    ;
                }
            }
        }
    }
    k < 8 || refine[0] < 128
}

} // verus!
