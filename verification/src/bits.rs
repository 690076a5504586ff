//! Binary digits and big-endian byte strings: the models that the rest of the
//! crate is specified over, and the small bit-level helpers of the codec.

use vstd::prelude::*;
use vstd::arithmetic::power2::*;

verus! {

/// The number that a sequence of binary digits denotes, most significant digit
/// first. Every entry is weighted by its position, whatever its value.
pub open spec fn bits_value(bits: Seq<u8>) -> nat
    decreases bits.len(),
{
    if bits.len() == 0 {
        0
    } else {
        bits_value(bits.drop_last()) * 2 + bits.last() as nat
    }
}

/// The lowest `k` binary digits of `n`, most significant first.
pub open spec fn bits_of(n: nat, k: nat) -> Seq<u8>
    decreases k,
{
    if k == 0 {
        Seq::empty()
    } else {
        bits_of(n / 2, (k - 1) as nat).push((n % 2) as u8)
    }
}

/// `k` zero digits.
pub open spec fn zero_bits(k: nat) -> Seq<u8> {
    Seq::new(k, |_i: int| 0u8)
}

/// The character of a binary digit.
pub open spec fn digit_char(d: nat) -> char {
    if d == 0 {
        '0'
    } else {
        '1'
    }
}

/// The binary rendering of `n`: most significant digit first, no leading zeros,
/// and `"0"` for zero.
pub open spec fn binary_repr(n: nat) -> Seq<char>
    decreases n,
{
    if n < 2 {
        seq![digit_char(n)]
    } else {
        binary_repr(n / 2).push(digit_char(n % 2))
    }
}

/// The number of binary digits of `n` (one for zero).
pub open spec fn bit_length(n: nat) -> nat
    decreases n,
{
    if n < 2 {
        1
    } else {
        1 + bit_length(n / 2)
    }
}

/// A text made of the decimal digits `0` to `9` only.
pub open spec fn is_digit_text(s: Seq<char>) -> bool {
    forall|i: int| 0 <= i < s.len() ==> '0' <= #[trigger] s[i] <= '9'
}

/// The values of the decimal digits of a text.
pub open spec fn digit_values(s: Seq<char>) -> Seq<u8> {
    Seq::new(s.len(), |i: int| (s[i] as int - '0' as int) as u8)
}

/// The number that a big-endian sequence of bytes denotes.
pub open spec fn be_value(bytes: Seq<u8>) -> nat
    decreases bytes.len(),
{
    if bytes.len() == 0 {
        0
    } else {
        be_value(bytes.drop_last()) * 256 + bytes.last() as nat
    }
}

/// The index of the first entry that equals one, or the length when none does.
pub open spec fn first_one(pool: Seq<u8>) -> nat
    decreases pool.len(),
{
    if pool.len() == 0 {
        0
    } else if pool[0] == 1 {
        0
    } else {
        1 + first_one(pool.drop_first())
    }
}

pub proof fn lemma_first_one(pool: Seq<u8>)
    ensures
        first_one(pool) <= pool.len(),
        forall|j: int| 0 <= j < first_one(pool) ==> pool[j] != 1,
        first_one(pool) < pool.len() ==> pool[first_one(pool) as int] == 1,
    decreases pool.len(),
{
    if pool.len() > 0 && pool[0] != 1 {
        lemma_first_one(pool.drop_first());
        assert forall|j: int| 0 <= j < first_one(pool) implies pool[j] != 1 by {
            if j > 0 {
                assert(pool[j] == pool.drop_first()[j - 1]);
            }
        }
    }
}

/// Two to the power zero is one.
pub proof fn lemma_pow2_zero()
    ensures
        pow2(0) == 1,
{
    vstd::arithmetic::power::lemma_pow0(2);
}

/// Powers of two grow with the exponent.
pub proof fn lemma_pow2_le(a: nat, b: nat)
    requires
        a <= b,
    ensures
        pow2(a) <= pow2(b),
{
    if a < b {
        lemma_pow2_strictly_increases(a, b);
    }
}

/// Appending digits shifts what stood before them.
pub proof fn lemma_bits_value_concat(a: Seq<u8>, b: Seq<u8>)
    ensures
        bits_value(a + b) == bits_value(a) * pow2(b.len()) + bits_value(b),
    decreases b.len(),
{
    if b.len() == 0 {
        assert(a + b =~= a);
        lemma_pow2_zero();
        let x = bits_value(a);
        assert(x * 1 == x);
    } else {
        let b0 = b.drop_last();
        assert((a + b).drop_last() =~= a + b0);
        assert((a + b).last() == b.last());
        lemma_bits_value_concat(a, b0);
        lemma_pow2_unfold(b.len());
        let x = bits_value(a);
        let p = pow2(b0.len());
        let y = bits_value(b0);
        assert((x * p + y) * 2 == x * (2 * p) + y * 2) by (nonlinear_arith);
        assert(bits_value(a + b) == bits_value(a + b0) * 2 + b.last());
        assert(bits_value(b) == y * 2 + b.last());
        assert(pow2(b.len()) == 2 * p);
    }
}

/// A prefix is worth no more than the whole.
pub proof fn lemma_bits_value_prefix(a: Seq<u8>, b: Seq<u8>)
    ensures
        bits_value(a) <= bits_value(a + b),
{
    lemma_bits_value_concat(a, b);
    lemma_pow2_pos(b.len());
    let x = bits_value(a);
    let p = pow2(b.len());
    assert(x <= x * p) by (nonlinear_arith)
        requires
            p >= 1,
    ;
}

pub proof fn lemma_zero_bits_value(k: nat)
    ensures
        bits_value(zero_bits(k)) == 0,
    decreases k,
{
    if k > 0 {
        assert(zero_bits(k).drop_last() =~= zero_bits((k - 1) as nat));
        lemma_zero_bits_value((k - 1) as nat);
    }
}

/// `bits_of` keeps the low digits of a number.
pub proof fn lemma_bits_of(n: nat, k: nat)
    ensures
        bits_of(n, k).len() == k,
        bits_value(bits_of(n, k)) == n % pow2(k),
        forall|i: int| 0 <= i < k ==> #[trigger] bits_of(n, k)[i] <= 1,
    decreases k,
{
    if k == 0 {
        lemma_pow2_zero();
    } else {
        let k1 = (k - 1) as nat;
        lemma_bits_of(n / 2, k1);
        assert(bits_of(n, k).drop_last() =~= bits_of(n / 2, k1));
        lemma_pow2_unfold(k);
        lemma_pow2_pos(k1);
        let p = pow2(k1);
        assert(((n / 2) % p) * 2 + n % 2 == n % (2 * p)) by (nonlinear_arith)
            requires
                p > 0,
        {
            assert(n == (n / 2) * 2 + n % 2);
            assert(n / 2 == ((n / 2) / p) * p + (n / 2) % p);
            assert(n == ((n / 2) / p) * (2 * p) + (((n / 2) % p) * 2 + n % 2));
            assert(((n / 2) % p) * 2 + n % 2 < 2 * p);
            vstd::arithmetic::div_mod::lemma_fundamental_div_mod_converse(
                n as int,
                (2 * p) as int,
                ((n / 2) / p) as int,
                (((n / 2) % p) * 2 + n % 2) as int,
            );
        }
        assert forall|i: int| 0 <= i < k implies #[trigger] bits_of(n, k)[i] <= 1 by {
            if i < k1 {
                assert(bits_of(n, k)[i] == bits_of(n / 2, k1)[i]);
            }
        }
    }
}

/// Leading zeros change nothing of the digits below them.
pub proof fn lemma_zero_prefix(n: nat, l: nat, k: nat)
    requires
        n < pow2(l),
    ensures
        zero_bits(k) + bits_of(n, l) =~= bits_of(n, k + l),
    decreases l,
{
    if l == 0 {
        lemma_pow2_zero();
        lemma_zero_bits_of(k);
    } else {
        let l1 = (l - 1) as nat;
        lemma_pow2_unfold(l);
        assert(n / 2 < pow2(l1));
        lemma_zero_prefix(n / 2, l1, k);
        assert(bits_of(n, k + l) == bits_of(n / 2, (k + l1) as nat).push((n % 2) as u8));
    }
}

pub proof fn lemma_zero_bits_of(k: nat)
    ensures
        bits_of(0, k) =~= zero_bits(k),
    decreases k,
{
    if k > 0 {
        lemma_zero_bits_of((k - 1) as nat);
    }
}

/// The binary rendering of a number spells its digits.
pub proof fn lemma_binary_repr(n: nat)
    ensures
        binary_repr(n).len() == bit_length(n),
        is_digit_text(binary_repr(n)),
        digit_values(binary_repr(n)) =~= bits_of(n, bit_length(n)),
        n < pow2(bit_length(n)),
        bit_length(n) >= 1,
    decreases n,
{
    lemma_pow2_unfold(1);
    lemma_pow2_zero();
    if n >= 2 {
        lemma_binary_repr(n / 2);
        lemma_pow2_unfold(bit_length(n));
        let r = binary_repr(n);
        assert forall|i: int| 0 <= i < r.len() implies '0' <= #[trigger] r[i] <= '9' by {
            if i < r.len() - 1 {
                assert(r[i] == binary_repr(n / 2)[i]);
            }
        }
        assert(digit_values(r) =~= digit_values(binary_repr(n / 2)).push((n % 2) as u8));
    } else {
        assert(digit_values(binary_repr(n)) =~= seq![(n % 2) as u8]);
        assert(bits_of(n, 1) =~= bits_of(n / 2, 0).push((n % 2) as u8));
    }
}

/// A number below `2^k` has at most `k` binary digits.
pub proof fn lemma_bit_length_bound(n: nat, k: nat)
    requires
        n < pow2(k),
        k >= 1,
    ensures
        bit_length(n) <= k,
    decreases n,
{
    if n >= 2 {
        lemma_pow2_unfold(k);
        if k == 1 {
            lemma_pow2_zero();
        }
        lemma_bit_length_bound(n / 2, (k - 1) as nat);
    }
}

/// The eight digits of a byte, as `fill_bits` makes them from its binary rendering.
pub proof fn lemma_byte_digits(b: u8)
    ensures
        binary_repr(b as nat).len() <= 8,
        is_digit_text(binary_repr(b as nat)),
        zero_bits((8 - binary_repr(b as nat).len()) as nat) + digit_values(binary_repr(b as nat))
            =~= bits_of(b as nat, 8),
{
    lemma_binary_repr(b as nat);
    lemma2_to64();
    lemma_bit_length_bound(b as nat, 8);
    let l = bit_length(b as nat);
    lemma_zero_prefix(b as nat, l, (8 - l) as nat);
}

/// The digits of a number split at any position.
pub proof fn lemma_bits_of_split(n: nat, k: nat, l: nat)
    ensures
        bits_of(n, k + l) =~= bits_of(n / pow2(l), k) + bits_of(n, l),
    decreases l,
{
    if l == 0 {
        lemma_pow2_zero();
        assert(n / 1 == n);
    } else {
        let l1 = (l - 1) as nat;
        lemma_bits_of_split(n / 2, k, l1);
        lemma_pow2_unfold(l);
        lemma_pow2_pos(l1);
        vstd::arithmetic::div_mod::lemma_div_denominator(n as int, 2, pow2(l1) as int);
        assert(bits_of(n, k + l) == bits_of(n / 2, (k + l1) as nat).push((n % 2) as u8));
        assert(bits_of(n, l) == bits_of(n / 2, l1).push((n % 2) as u8));
    }
}

/// Binary digits of length `k` denote less than `2^k`.
pub proof fn lemma_bits_value_bound(s: Seq<u8>)
    requires
        forall|i: int| 0 <= i < s.len() ==> #[trigger] s[i] <= 1,
    ensures
        bits_value(s) < pow2(s.len()),
    decreases s.len(),
{
    if s.len() == 0 {
        lemma_pow2_zero();
    } else {
        let s0 = s.drop_last();
        assert forall|i: int| 0 <= i < s0.len() implies #[trigger] s0[i] <= 1 by {
            assert(s0[i] == s[i]);
        }
        lemma_bits_value_bound(s0);
        lemma_pow2_unfold(s.len());
        assert(s.last() == s[s.len() - 1]);
    }
}

/// Appending bytes shifts what stood before them by eight bits each.
pub proof fn lemma_be_value_concat(a: Seq<u8>, b: Seq<u8>)
    ensures
        be_value(a + b) == be_value(a) * pow2(8 * b.len()) + be_value(b),
    decreases b.len(),
{
    if b.len() == 0 {
        assert(a + b =~= a);
        lemma_pow2_zero();
        let x = be_value(a);
        assert(x * 1 == x);
    } else {
        let b0 = b.drop_last();
        assert((a + b).drop_last() =~= a + b0);
        assert((a + b).last() == b.last());
        lemma_be_value_concat(a, b0);
        lemma_pow2_adds(8 * b0.len(), 8);
        assert(pow2(8) == 256) by {
            lemma2_to64();
        }
        let x = be_value(a);
        let p = pow2(8 * b0.len());
        let y = be_value(b0);
        assert((x * p + y) * 256 == x * (p * 256) + y * 256) by (nonlinear_arith);
        assert(8 * b.len() == 8 * b0.len() + 8);
    }
}

/// A sequence of bytes of length `k` denotes less than `2^(8k)`.
pub proof fn lemma_be_value_bound(s: Seq<u8>)
    ensures
        be_value(s) < pow2(8 * s.len()),
    decreases s.len(),
{
    if s.len() == 0 {
        lemma_pow2_zero();
    } else {
        let s0 = s.drop_last();
        lemma_be_value_bound(s0);
        lemma_pow2_adds(8 * s0.len(), 8);
        assert(pow2(8) == 256) by {
            lemma2_to64();
        }
        assert(8 * s.len() == 8 * s0.len() + 8);
        let p = pow2(8 * s0.len());
        let y = be_value(s0);
        assert(y * 256 + 255 < p * 256) by (nonlinear_arith)
            requires
                y < p,
        ;
    }
}

/// A number of `L` binary digits lies between `2^(L-1)` and `2^L`.
pub proof fn lemma_bit_length_range(n: nat)
    requires
        n >= 1,
    ensures
        pow2((bit_length(n) - 1) as nat) <= n < pow2(bit_length(n)),
        binary_repr(n)[0] == '1',
    decreases n,
{
    lemma_binary_repr(n);
    if n >= 2 {
        lemma_bit_length_range(n / 2);
        lemma_pow2_unfold(bit_length(n));
        lemma_pow2_unfold((bit_length(n) - 1) as nat);
        assert(binary_repr(n)[0] == binary_repr(n / 2)[0]);
    } else {
        lemma_pow2_zero();
        lemma_pow2_unfold(1);
    }
}

/// Digits that start with a one denote at least `2^(len-1)`.
pub proof fn lemma_leading_one(s: Seq<u8>)
    requires
        s.len() >= 1,
        s[0] == 1,
    ensures
        bits_value(s) >= pow2((s.len() - 1) as nat),
{
    let head = seq![1u8];
    let rest = s.drop_first();
    assert(s =~= head + rest);
    lemma_bits_value_concat(head, rest);
    assert(head.drop_last() =~= Seq::<u8>::empty());
    assert(bits_value(Seq::<u8>::empty()) == 0);
    assert(bits_value(head) == 1);
}

/// A number between `2^(b-1)` and `2^b` has exactly `b` binary digits.
pub proof fn lemma_bit_length_unique(n: nat, b: nat)
    requires
        b >= 1,
        pow2((b - 1) as nat) <= n < pow2(b),
    ensures
        bit_length(n) == b,
{
    lemma_pow2_pos((b - 1) as nat);
    lemma_bit_length_range(n);
    let l = bit_length(n);
    lemma_binary_repr(n);
    if l < b {
        if l < (b - 1) as nat {
            lemma_pow2_strictly_increases(l, (b - 1) as nat);
        }
    } else if l > b {
        if b < (l - 1) as nat {
            lemma_pow2_strictly_increases(b, (l - 1) as nat);
        }
    }
}

/// A one framed by zeros, followed by digits: the one lands at the position
/// just above the trailing zeros and digits.
pub proof fn lemma_marker_bits(a: nat, p: nat, c: Seq<u8>)
    ensures
        bits_value(zero_bits(a) + seq![1u8] + zero_bits(p) + c) == pow2(p + c.len()) + bits_value(c),
{
    let one = seq![1u8];
    lemma_zero_bits_value(a);
    lemma_zero_bits_value(p);
    lemma_bits_value_concat(zero_bits(a), one);
    assert(one.drop_last() =~= Seq::<u8>::empty());
    assert(bits_value(Seq::<u8>::empty()) == 0);
    assert(bits_value(one) == 1);
    lemma_pow2_unfold(1);
    lemma_pow2_zero();
    let h = zero_bits(a) + one;
    assert(bits_value(h) == 1);
    lemma_bits_value_concat(h, zero_bits(p));
    let h2 = h + zero_bits(p);
    assert(bits_value(h2) == pow2(p));
    lemma_bits_value_concat(h2, c);
    lemma_pow2_adds(p, c.len());
}

/// `format!("{:b}", b)`: std renders a byte in binary, most significant digit
/// first, without leading zeros, and zero as `"0"`.
#[verifier::external_body]
pub(crate) fn binary_text(b: u8) -> (s: String)
    ensures
        s@ == binary_repr(b as nat),
{
    format!("{:b}", b)
}

/// Left-pads a text of at most eight decimal digits with zeros to eight
/// digits, and returns the value of each digit.
pub fn fill_bits(s: String) -> (bits: Vec<u8>)
    requires
        s@.len() <= 8,
        is_digit_text(s@),
    ensures
        bits@ =~= zero_bits((8 - s@.len()) as nat) + digit_values(s@),
{
    let text: &str = s.as_str();
    proof {
        assert(vstd::string::is_ascii(text)) by {
            assert forall|i: int| 0 <= i < text@.len() implies '\0' <= #[trigger] text@[i]
                <= '\u{7f}' by {
                assert('0' <= s@[i] <= '9');
            }
        }
        vstd::string::is_ascii_spec_bytes(text);
    }
    let bytes: &[u8] = text.as_bytes();
    let len: usize = bytes.len();
    let left: usize = 8 - len;
    let mut collect: Vec<u8> = Vec::new();
    let mut k: usize = 0;
    while k < left
        invariant
            k <= left,
            collect@ =~= zero_bits(k as nat),
        decreases left - k,
    {
        collect.push(0);
        k = k + 1;
    }
    let mut i: usize = 0;
    while i < len
        invariant
            len == bytes@.len(),
            len == s@.len(),
            left == 8 - len,
            i <= len,
            is_digit_text(s@),
            forall|j: int| 0 <= j < len ==> #[trigger] bytes@[j] == s@[j] as u8,
            collect@ =~= zero_bits(left as nat) + digit_values(s@).take(i as int),
        decreases len - i,
    {
        assert('0' <= s@[i as int] <= '9');
        let d: u8 = bytes[i] - 48;
        collect.push(d);
        i = i + 1;
    }
    collect
}

/// Counts the entries before the first one, and returns that count with the
/// entries that follow the first one (none when there is no one).
pub fn find_width(pool: &Vec<u8>) -> (res: (u8, Vec<u8>))
    requires
        pool@.len() <= 255 || exists|j: int| 0 <= j <= 255 && pool@[j] == 1,
    ensures
        res.0 == first_one(pool@),
        res.1@ =~= if res.0 < pool@.len() { pool@.skip(res.0 + 1) } else { Seq::empty() },
{
    proof {
        lemma_first_one(pool@);
    }
    let mut count: u8 = 0;
    let mut idx: usize = 0;
    while idx < pool.len()
        invariant
            idx <= first_one(pool@),
            first_one(pool@) <= pool@.len(),
            count == idx,
            forall|j: int| 0 <= j < idx ==> pool@[j] != 1,
            pool@.len() <= 255 || exists|j: int| 0 <= j <= 255 && pool@[j] == 1,
        ensures
            idx == first_one(pool@),
            count == idx,
        decreases pool@.len() - idx,
    {
        proof {
            lemma_first_one(pool@);
        }
        if pool[idx] == 1 {
            break;
        }
        count = count + 1;
        idx = idx + 1;
    }
    let mut collect: Vec<u8> = Vec::new();
    let mut i: usize = idx + 1;
    while i < pool.len()
        invariant
            idx < pool@.len() ==> idx + 1 <= i <= pool@.len(),
            idx < pool@.len() ==> collect@ =~= pool@.subrange(idx + 1, i as int),
            idx >= pool@.len() ==> collect@.len() == 0,
            idx <= pool@.len(),
            idx + 1 <= i,
        decreases pool@.len() - i,
    {
        collect.push(pool[i]);
        i = i + 1;
    }
    (count, collect)
}

/// The number that a sequence of binary digits denotes, most significant first.
pub fn make_number_from_bits(pool: Vec<u8>) -> (num: u64)
    requires
        1 <= pool@.len() <= 64,
        bits_value(pool@) <= u64::MAX,
    ensures
        num == bits_value(pool@),
{
    let mut num: u64 = 0;
    let mut i: usize = 0;
    while i < pool.len()
        invariant
            i <= pool@.len(),
            bits_value(pool@) <= u64::MAX,
            num == bits_value(pool@.take(i as int)),
        decreases pool@.len() - i,
    {
        proof {
            let t = pool@.take(i as int + 1);
            assert(t.drop_last() =~= pool@.take(i as int));
            assert(pool@ =~= t + pool@.skip(i as int + 1));
            lemma_bits_value_prefix(t, pool@.skip(i as int + 1));
        }
        num = num * 2 + pool[i] as u64;
        i = i + 1;
    }
    assert(pool@.take(pool@.len() as int) =~= pool@);
    num
}

} // verus!
