//! Variable-length quantities: big-endian base-128 numbers whose last byte
//! has bit 7 clear.
use vstd::prelude::*;
use vstd::arithmetic::power::pow;
use vstd::arithmetic::div_mod::{lemma_fundamental_div_mod, lemma_fundamental_div_mod_converse, lemma_mul_mod_noop_left};
use crate::stream::{pop_order, byte_at};

verus! {

/// The position just past the variable-length quantity that starts at `p`:
/// it ends with the first byte whose bit 7 is clear. `None` if no byte ends it.
pub open spec fn vlq_end(s: Seq<u8>, p: int) -> Option<int>
    decreases s.len() - p,
{
    if p < 0 || p >= s.len() {
        None
    } else if s[p] < 0x80 {
        Some(p + 1)
    } else {
        vlq_end(s, p + 1)
    }
}

/// The base-128 number whose digits are the low seven bits of `s[p..q]`,
/// most significant first.
pub open spec fn base128(s: Seq<u8>, p: int, q: int) -> int
    decreases q - p,
{
    if q <= p {
        0
    } else {
        base128(s, p, q - 1) * 128 + s[q - 1] % 128
    }
}

/// The value of the quantity at `p` as a 32-bit number: the base-128 number
/// reduced modulo 2^32.
pub open spec fn vlq_value(s: Seq<u8>, p: int, q: int) -> u32 {
    (base128(s, p, q) % 0x1_0000_0000) as u32
}

/// A quantity ends after its start and within the bytes.
pub proof fn lemma_vlq_end_bounds(s: Seq<u8>, p: int)
    ensures
        vlq_end(s, p) matches Some(q) ==> p < q <= s.len() && s[q - 1] < 0x80,
    decreases s.len() - p,
{
    if 0 <= p < s.len() && s[p] >= 0x80 {
        lemma_vlq_end_bounds(s, p + 1);
    }
}

proof fn lemma_base128_nonneg(s: Seq<u8>, p: int, q: int)
    ensures
        base128(s, p, q) >= 0,
    decreases q - p,
{
    if q > p {
        lemma_base128_nonneg(s, p, q - 1);
    }
}

/// One step of the accumulation: shifting a reduced value by seven bits
/// leaves room for seven more bits below.
proof fn lemma_vlq_step(x: int, low: int)
    requires
        x >= 0,
        0 <= low < 128,
    ensures
        (x * 128) % 0x1_0000_0000 + low < 0x1_0000_0000,
        (x * 128) % 0x1_0000_0000 + low == (x * 128 + low) % 0x1_0000_0000,
{
    let m: int = 0x1_0000_0000;
    let q = (x * 128) / m;
    let r = (x * 128) % m;
    lemma_fundamental_div_mod(x * 128, m);
    assert(x * 128 == m * q + r);
    assert(0 <= r < m);
    assert(r == 128 * (x - q * 0x200_0000)) by (nonlinear_arith)
        requires x * 128 == m * q + r, m == 0x1_0000_0000;
    let k = x - q * 0x200_0000;
    assert(k < 0x200_0000) by (nonlinear_arith)
        requires r == 128 * k, r < 0x1_0000_0000;
    assert(r + low < m);
    assert(x * 128 + low == q * m + (r + low)) by (nonlinear_arith)
        requires x * 128 == m * q + r;
    lemma_fundamental_div_mod_converse(x * 128 + low, m, q, r + low);
}

/// Reads the variable-length quantity at position `p` of a reversed buffer:
/// its value and the position just past it.
pub fn read_vlq(data: &Vec<u8>, p: usize) -> (res: Option<(u32, usize)>)
    ensures
        match vlq_end(pop_order(data@), p as int) {
            None => res is None,
            Some(q) => res == Some((vlq_value(pop_order(data@), p as int, q), q as usize)),
        },
{
    let ghost s = pop_order(data@);
    let ghost m: int = 0x1_0000_0000;
    let len = data.len();
    let mut dt: u32 = 0;
    let mut i: usize = p;
    proof {
        lemma_vlq_end_bounds(s, p as int);
    }
    if i >= len {
        return None;
    }
    while i < len
        invariant
            s == pop_order(data@),
            len == data@.len(),
            m == 0x1_0000_0000,
            p <= i <= len,
            vlq_end(s, p as int) == vlq_end(s, i as int),
            dt as int == (base128(s, p as int, i as int) * 128) % m,
        decreases len - i,
    {
        let b = byte_at(data, i);
        let low = b & 0x7f;
        assert(low == b % 128) by (bit_vector) requires low == b & 0x7f;
        proof {
            lemma_base128_nonneg(s, p as int, i as int);
            lemma_vlq_step(base128(s, p as int, i as int), low as int);
            assert(base128(s, p as int, i + 1) == base128(s, p as int, i as int) * 128 + low);
        }
        let sum: u32 = dt + low as u32;
        assert(sum as int == base128(s, p as int, i + 1) % m);
        if b & 0x80 == 0x80 {
            assert(b >= 0x80) by (bit_vector) requires b & 0x80 == 0x80;
            let shifted: u32 = sum << 7;
            assert(shifted as int == (sum as int * 128) % 0x1_0000_0000) by (bit_vector)
                requires shifted == sum << 7;
            proof {
                lemma_mul_mod_noop_left(base128(s, p as int, i + 1), 128, m);
            }
            dt = shifted;
            i = i + 1;
        } else {
            assert(b < 0x80) by (bit_vector) requires !(b & 0x80 == 0x80);
            return Some((sum, i + 1));
        }
    }
    None
}

/// A variable-length quantity is its bytes up to and including the first
/// one with bit 7 clear: all bytes before its last have bit 7 set, and it
/// has no end where every byte from `p` on has bit 7 set.
pub proof fn law_vlq_end(s: Seq<u8>, p: int)
    requires
        0 <= p,
    ensures
        vlq_end(s, p) matches Some(q) ==> p < q <= s.len() && s[q - 1] < 0x80
            && forall|j: int| p <= j < q - 1 ==> s[j] >= 0x80,
        vlq_end(s, p) is None <==> forall|j: int| p <= j < s.len() ==> s[j] >= 0x80,
    decreases s.len() - p,
{
    if p < s.len() {
        law_vlq_end(s, p + 1);
        if s[p] >= 0x80 {
            if vlq_end(s, p) is None {
                assert forall|j: int| p <= j < s.len() implies s[j] >= 0x80 by {
                    if j > p {
                        assert(p + 1 <= j < s.len());
                    }
                }
            }
        }
    }
}

/// A base-128 number is its leading digits shifted up by seven bits per
/// trailing digit, plus its trailing digits; each digit is the low seven
/// bits of its byte, so the number is below 128 to the power of its length.
pub proof fn law_base128_digits(s: Seq<u8>, p: int, m: int, q: int)
    requires
        p <= m <= q,
    ensures
        base128(s, p, q) == base128(s, p, m) * pow(128, (q - m) as nat) + base128(s, m, q),
        q == p + 1 ==> base128(s, p, q) == s[p] % 128,
        0 <= base128(s, p, q) < pow(128, (q - p) as nat),
    decreases q - p,
{
    reveal(pow);
    if q > m {
        law_base128_digits(s, p, m, q - 1);
        let a = base128(s, p, m);
        let b = base128(s, m, q - 1);
        let d = s[q - 1] % 128;
        let e = pow(128, (q - 1 - m) as nat);
        assert(pow(128, (q - m) as nat) == 128 * e);
        assert(base128(s, m, q) == b * 128 + d);
        assert((a * e + b) * 128 + d == a * (128 * e) + (b * 128 + d)) by (nonlinear_arith);
        assert(base128(s, p, q) == base128(s, p, q - 1) * 128 + d);
    } else {
        assert(pow(128, 0) == 1);
        assert(base128(s, m, q) == 0);
        assert(base128(s, p, m) * 1 == base128(s, p, m));
    }
    if q > p {
        law_base128_digits(s, p, p, q - 1);
        let b = base128(s, p, q - 1);
        let e = pow(128, (q - 1 - p) as nat);
        assert(pow(128, (q - p) as nat) == 128 * e);
        assert(0 <= b * 128 + s[q - 1] % 128 < 128 * e) by (nonlinear_arith)
            requires 0 <= b < e, 0 <= s[q - 1] % 128 < 128;
        if q == p + 1 {
            assert(base128(s, p, p) == 0);
        }
    }
}

} // verus!
