//! Bit primitives on single 64-bit words and on bit-vectors made of them.
//!
//! A bit-vector is a `Vec<u64>`; bit `b` of word `w` stands for record
//! position `64 * w + b`, least significant bit first.
use vstd::prelude::*;

verus! {

/// True when bit `i` of `x` is set (bit 0 is the least significant).
pub open spec fn bit64(x: u64, i: u64) -> bool {
    (x >> i) & 1u64 == 1u64
}

/// True when bit-vector `bm` has the bit of record position `p` set.
/// Positions at or beyond `64 * bm.len()` read as clear.
pub open spec fn bm_bit(bm: Seq<u64>, p: int) -> bool {
    0 <= p < 64 * bm.len() && bit64(bm[p / 64], (p % 64) as u64)
}

/// Division by 64 sends everything below `64 * i` below `i`.
pub proof fn lemma_div64_lt(p: int, i: int)
    by (nonlinear_arith)
    requires
        0 <= p < 64 * i,
    ensures
        0 <= p / 64 < i,
{
}

/// A position inside the `i`-th block of 64 has word index `i`.
pub proof fn lemma_div64_in(p: int, i: int)
    by (nonlinear_arith)
    requires
        64 * i <= p < 64 * (i + 1),
        0 <= i,
    ensures
        p / 64 == i,
        p % 64 == p - 64 * i,
        0 <= p % 64 < 64,
{
}

/// A position inside the `i`-th block of `d` has block index `i`.
pub proof fn lemma_div_in(p: int, i: int, d: int)
    by (nonlinear_arith)
    requires
        0 < d,
        0 <= i,
        d * i <= p < d * (i + 1),
    ensures
        p / d == i,
        p % d == p - d * i,
        0 <= p % d < d,
{
}

/// Where division by `d` sends `p`: between `d * (p / d)` and the next block.
pub proof fn lemma_div_bounds(p: int, d: int)
    by (nonlinear_arith)
    requires
        0 <= p,
        0 < d,
    ensures
        d * (p / d) <= p < d * (p / d + 1),
{
}

/// Bitwise facts about a word whose lowest set bit is `t`, stated for the
/// three single-word primitives below.
proof fn lemma_low_bit_forms(x: u64, t: u64)
    by (bit_vector)
    requires
        x != 0,
        t < 64,
        (x >> t) & 1u64 == 1u64,
        x << ((64u64 - t) as u64) == 0u64,
    ensures
        x & ((x - 1u64) as u64) == x & !(1u64 << t),
        x & ((!x + 1u64) as u64) == 1u64 << t,
        x ^ ((x - 1u64) as u64) == (1u64 << t) | (((1u64 << t) - 1u64) as u64),
        x & ((x - 1u64) as u64) < x,
        !x != 0xffff_ffff_ffff_ffffu64,
{
}

/// Bit `i` of `1 << t` is set exactly when `i == t`.
pub proof fn lemma_bit64_single(t: u64, i: u64)
    by (bit_vector)
    requires
        t < 64,
        i < 64,
    ensures
        bit64(1u64 << t, i) <==> i == t,
{
}

/// Bits of the pointwise operators, one position at a time.
pub proof fn lemma_bit64_ops(x: u64, y: u64, i: u64)
    by (bit_vector)
    requires
        i < 64,
    ensures
        bit64(x & y, i) <==> bit64(x, i) && bit64(y, i),
        bit64(x | y, i) <==> bit64(x, i) || bit64(y, i),
        bit64(x ^ y, i) <==> (bit64(x, i) != bit64(y, i)),
        bit64(!x, i) <==> !bit64(x, i),
        !bit64(0u64, i),
        bit64(0xffff_ffff_ffff_ffffu64, i),
{
}

/// A word with no set bit below 64 is zero.
proof fn lemma_bit64_all_clear(x: u64)
    requires
        forall|i: u64| i < 64 ==> !#[trigger] bit64(x, i),
    ensures
        x == 0,
{
    broadcast use vstd::std_specs::bits::group_bits_axioms;

    if x != 0 {
        let t = u64_tz(x);
        assert(bit64(x, t));
    }
}

/// Two words with the same bits are equal.
pub proof fn lemma_bit64_ext(x: u64, y: u64)
    requires
        forall|i: u64| i < 64 ==> (#[trigger] bit64(x, i) <==> bit64(y, i)),
    ensures
        x == y,
{
    assert forall|i: u64| i < 64 implies !#[trigger] bit64(x ^ y, i) by {
        lemma_bit64_ops(x, y, i);
    }
    lemma_bit64_all_clear(x ^ y);
    assert(x ^ y == 0 ==> x == y) by (bit_vector);
}

/// The position of the lowest set bit, as a `u64` word index.
pub open spec fn u64_tz(x: u64) -> u64 {
    vstd::std_specs::bits::u64_trailing_zeros(x) as u64
}

/// The lowest set bit of a nonzero word: it is set, everything below is clear.
pub proof fn lemma_tz(x: u64)
    requires
        x != 0,
    ensures
        u64_tz(x) < 64,
        bit64(x, u64_tz(x)),
        forall|j: u64| j < u64_tz(x) ==> !#[trigger] bit64(x, j),
        x << ((64u64 - u64_tz(x)) as u64) == 0u64,
{
    broadcast use vstd::std_specs::bits::group_bits_axioms;

    assert(bit64(x, u64_tz(x)));
    assert forall|j: u64| j < u64_tz(x) implies !#[trigger] bit64(x, j) by {
        assert((x >> j) & 1u64 == 0u64);
    }
}

/// Clears the lowest set bit of `x`.
pub fn r(x: u64) -> (res: u64)
    ensures
        x == 0 ==> res == 0,
        x != 0 ==> res < x,
        forall|i: u64| i < 64 ==> (#[trigger] bit64(res, i) <==> bit64(x, i) && i != u64_tz(x)),
{
    if x == 0 {
        proof {
            assert(forall|i: u64| i < 64 ==> !#[trigger] bit64(0u64, i)) by (bit_vector);
        }
        0
    } else {
        proof {
            let t = u64_tz(x);
            lemma_tz(x);
            lemma_low_bit_forms(x, t);
            assert forall|i: u64| i < 64 implies (#[trigger] bit64(x & !(1u64 << t), i) <==> bit64(
                x,
                i,
            ) && i != t) by {
                lemma_bit64_ops(x, !(1u64 << t), i);
                lemma_bit64_ops(1u64 << t, x, i);
                lemma_bit64_single(t, i);
            }
        }
        x & (x - 1)
    }
}

/// Isolates the lowest set bit of `x`.
pub fn e(x: u64) -> (res: u64)
    ensures
        x == 0 ==> res == 0,
        x != 0 ==> res == 1u64 << u64_tz(x),
        x != 0 ==> res != 0,
        forall|i: u64| i < 64 ==> (#[trigger] bit64(res, i) <==> x != 0 && i == u64_tz(x)),
{
    if x == 0 {
        proof {
            assert(forall|i: u64| i < 64 ==> !#[trigger] bit64(0u64, i)) by (bit_vector);
        }
        0
    } else {
        proof {
            let t = u64_tz(x);
            lemma_tz(x);
            lemma_low_bit_forms(x, t);
            assert forall|i: u64| i < 64 implies (#[trigger] bit64(1u64 << t, i) <==> i == t) by {
                lemma_bit64_single(t, i);
            }
            assert(t < 64 ==> 1u64 << t != 0) by (bit_vector);
        }
        x & (!x).wrapping_add(1)
    }
}

/// Smears the lowest set bit of `x` downward: the result covers the lowest
/// set bit and every bit below it; on zero it is zero.
pub fn s(x: u64) -> (res: u64)
    ensures
        x == 0 ==> res == 0,
        forall|i: u64| i < 64 ==> (#[trigger] bit64(res, i) <==> x != 0 && i <= u64_tz(x)),
{
    if x == 0 {
        proof {
            assert(forall|i: u64| i < 64 ==> !#[trigger] bit64(0u64, i)) by (bit_vector);
        }
        0
    } else {
        proof {
            let t = u64_tz(x);
            lemma_tz(x);
            lemma_low_bit_forms(x, t);
            assert forall|i: u64| i < 64 implies (#[trigger] bit64(
                (1u64 << t) | (((1u64 << t) - 1u64) as u64),
                i,
            ) <==> i <= t) by {
                assert(bit64((1u64 << t) | (((1u64 << t) - 1u64) as u64), i) <==> i <= t)
                    by (bit_vector)
                    requires
                        t < 64,
                        i < 64,
                ;
            }
        }
        x ^ (x - 1)
    }
}

/// Pointwise AND of `a` into `b`.
pub fn and(a: &Vec<u64>, b: &mut Vec<u64>)
    requires
        a.len() >= old(b).len(),
    ensures
        final(b).len() == old(b).len(),
        forall|w: int|
            0 <= w < old(b).len() ==> final(b)[w] == (#[trigger] old(b)[w] & a[w as int]),
{
    let n = b.len();
    let mut i: usize = 0;
    while i < n
        invariant
            n == b.len() == old(b).len(),
            a.len() >= n,
            i <= n,
            forall|w: int| i <= w < n ==> b[w] == old(b)[w],
            forall|w: int| 0 <= w < i ==> b[w] == (#[trigger] old(b)[w] & a[w as int]),
        decreases n - i,
    {
        let v = b[i] & a[i];
        b.set(i, v);
        i += 1;
    }
}

/// How one word of a right-shifted bit-vector reads: bit `k` comes from bit
/// `k + 1` of the same word, bit 63 from bit 0 of the next word `y`.
proof fn lemma_shift_right_word(x: u64, y: u64, k: u64)
    by (bit_vector)
    requires
        k < 64,
    ensures
        k < 63 ==> (bit64((x >> 1u64) | (y << 63u64), k) <==> bit64(x, ((k + 1u64) as u64))),
        k == 63 ==> (bit64((x >> 1u64) | (y << 63u64), k) <==> bit64(y, 0u64)),
{
}

/// Shifts the whole bit-vector one position down: position `p` takes what
/// position `p + 1` held; the topmost position becomes clear.
pub fn shift_right_by_one(b: &mut Vec<u64>)
    ensures
        final(b).len() == old(b).len(),
        forall|p: int|
            0 <= p < 64 * old(b).len() ==> (#[trigger] bm_bit(final(b)@, p) <==> bm_bit(
                old(b)@,
                p + 1,
            )),
{
    let n = b.len();
    let mut i: usize = 0;
    while i < n
        invariant
            n == b.len() == old(b).len(),
            i <= n,
            forall|w: int| i <= w < n ==> b[w] == old(b)[w],
            forall|p: int|
                0 <= p < 64 * i ==> (#[trigger] bm_bit(b@, p) <==> bm_bit(old(b)@, p + 1)),
        decreases n - i,
    {
        let ghost pre = b@;
        let hi: u64 = if i + 1 < n {
            b[i + 1]
        } else {
            0u64
        };
        let v = (b[i] >> 1u64) | (hi << 63u64);
        b.set(i, v);
        proof {
            assert forall|p: int| 0 <= p < 64 * (i + 1) implies (#[trigger] bm_bit(b@, p)
                <==> bm_bit(old(b)@, p + 1)) by {
                if p < 64 * i {
                    lemma_div64_lt(p, i as int);
                    assert(b@[p / 64] == pre[p / 64]);
                    assert(bm_bit(b@, p) <==> bm_bit(pre, p));
                } else {
                    lemma_div64_in(p, i as int);
                    let k = (p % 64) as u64;
                    lemma_shift_right_word(old(b)[i as int], hi, k);
                    if k < 63 {
                        lemma_div64_in(p + 1, i as int);
                    } else {
                        lemma_div64_in(p + 1, i as int + 1);
                        if i + 1 < n {
                            assert(hi == old(b)[i as int + 1]);
                        } else {
                            assert(!bit64(0u64, 0u64)) by (bit_vector);
                            assert(p + 1 >= 64 * old(b).len());
                            assert(!bm_bit(old(b)@, p + 1));
                        }
                    }
                }
            }
        }
        i += 1;
    }
}

/// How one word of a left-shifted bit-vector reads: bit `k` comes from bit
/// `k - 1` of the same word, bit 0 from bit 63 of the previous word `y`.
proof fn lemma_shift_left_word(x: u64, y: u64, k: u64)
    by (bit_vector)
    requires
        k < 64,
    ensures
        k > 0 ==> (bit64((x << 1u64) | (y >> 63u64), k) <==> bit64(x, ((k - 1u64) as u64))),
        k == 0 ==> (bit64((x << 1u64) | (y >> 63u64), k) <==> bit64(y, 63u64)),
{
}

/// Shifts the whole bit-vector one position up: position `p` takes what
/// position `p - 1` held; position 0 becomes clear.
pub fn shift_left_by_one(b: &mut Vec<u64>)
    ensures
        final(b).len() == old(b).len(),
        forall|p: int|
            0 <= p < 64 * old(b).len() ==> (#[trigger] bm_bit(final(b)@, p) <==> bm_bit(
                old(b)@,
                p - 1,
            )),
{
    let n = b.len();
    let mut i: usize = n;
    while i > 0
        invariant
            n == b.len() == old(b).len(),
            i <= n,
            forall|w: int| 0 <= w < i ==> b[w] == old(b)[w],
            forall|p: int|
                64 * i <= p < 64 * n ==> (#[trigger] bm_bit(b@, p) <==> bm_bit(old(b)@, p - 1)),
        decreases i,
    {
        i -= 1;
        let ghost pre = b@;
        let lo: u64 = if i > 0 {
            b[i - 1]
        } else {
            0u64
        };
        let v = (b[i] << 1u64) | (lo >> 63u64);
        b.set(i, v);
        proof {
            assert forall|p: int| 64 * i <= p < 64 * n implies (#[trigger] bm_bit(b@, p)
                <==> bm_bit(old(b)@, p - 1)) by {
                if p >= 64 * (i + 1) {
                    lemma_div64_in(p, p / 64);
                    assert(p / 64 > i as int) by {
                        lemma_div64_lt(64 * (i as int + 1) - 1, i as int + 1);
                        if p / 64 <= i as int {
                            lemma_div64_in(p, p / 64);
                            assert(p < 64 * (i + 1));
                        }
                    }
                    assert(b@[p / 64] == pre[p / 64]);
                    assert(bm_bit(b@, p) <==> bm_bit(pre, p));
                    assert(bm_bit(pre, p) <==> bm_bit(old(b)@, p - 1));
                } else {
                    lemma_div64_in(p, i as int);
                    let k = (p % 64) as u64;
                    lemma_shift_left_word(old(b)[i as int], lo, k);
                    if k > 0 {
                        lemma_div64_in(p - 1, i as int);
                    } else {
                        if i > 0 {
                            lemma_div64_in(p - 1, i as int - 1);
                            assert(lo == old(b)[i as int - 1]);
                        } else {
                            assert(!bit64(0u64, 63u64)) by (bit_vector);
                            assert(p == 0);
                            assert(!bm_bit(old(b)@, p - 1));
                        }
                    }
                }
            }
        }
    }
}

} // verus!
