//! Builds the per-record structural bitmaps: character positions, escape
//! corrected quotes, the string mask, and the leveled colon bitmap.
use vstd::prelude::*;

use crate::bit;
use crate::error::Error;
use crate::error::ErrorKind;
use crate::bit::bit64;
use crate::bit::bm_bit;
use crate::emulated::block_byte;
use crate::emulated::m256i;
use crate::emulated::mm256_cmpeq_epi8;
use crate::emulated::mm256_movemask_epi8;
use crate::emulated::stream_byte;

verus! {

/// How the two 32-bit masks of neighbouring blocks sit in one word.
proof fn lemma_pair_words(a: u64, b: u64, k: u64)
    by (bit_vector)
    requires
        a < 0x1_0000_0000,
        b < 0x1_0000_0000,
        k < 64,
    ensures
        bit64(a | (b << 32u64), k) <==> (if k < 32 {
            bit64(a, k)
        } else {
            bit64(b, (k - 32) as u64)
        }),
        k >= 32 ==> !bit64(a, k),
{
}

/// Builds the bitmap of the positions whose byte equals the byte splat
/// `m`: bit `q` of the result is set exactly when record byte `q` equals it.
/// Two 32-byte blocks fill each 64-bit word.
pub fn build_structural_character_bitmap(s: &Vec<m256i>, d: &mut Vec<u64>, m: m256i)
    requires
        old(d).len() == 0,
        32 * s.len() <= usize::MAX,
        forall|c: int| 0 <= c < 32 ==> #[trigger] block_byte(m, c) == block_byte(m, 0),
    ensures
        final(d).len() == (s.len() + 1) / 2,
        forall|q: int|
            0 <= q < 64 * final(d).len() ==> (#[trigger] bm_bit(final(d)@, q) <==> (q < 32 * s.len()
                && stream_byte(s@, q) == block_byte(m, 0))),
{
    let n = s.len();
    let mut i: usize = 0;
    while i + 1 < n
        invariant
            n == s.len(),
            32 * n <= usize::MAX,
            forall|c: int| 0 <= c < 32 ==> #[trigger] block_byte(m, c) == block_byte(m, 0),
            i % 2 == 0,
            i <= n + 1,
            n % 2 == 1 ==> i + 1 <= n,
            2 * d.len() == i,
            forall|q: int|
                0 <= q < 64 * d.len() ==> (#[trigger] bm_bit(d@, q) <==> (q < 32 * n && stream_byte(
                    s@,
                    q,
                ) == block_byte(m, 0))),
        decreases n - i,
    {
        let c1 = mm256_cmpeq_epi8(s[i], m);
        let c2 = mm256_cmpeq_epi8(s[i + 1], m);
        proof {
            assert(forall|wd: int| 0 <= wd < 4 ==> (#[trigger] c1[wd]) & 0xfefe_fefe_fefe_fefeu64 == 0);
            assert(forall|wd: int| 0 <= wd < 4 ==> (#[trigger] c2[wd]) & 0xfefe_fefe_fefe_fefeu64 == 0);
        }
        let i1 = mm256_movemask_epi8(c1);
        let i2 = mm256_movemask_epi8(c2);
        let w: u64 = (i1 as u64) | ((i2 as u64) << 32u64);
        let ghost pre = d@;
        d.push(w);
        proof {
            lemma_push_pair(d@, s@, m, i as int, c1, c2, i1, i2);
            assert forall|q: int|
                0 <= q < 64 * d.len() implies (#[trigger] bm_bit(d@, q) <==> (q < 32 * n
                && stream_byte(s@, q) == block_byte(m, 0))) by {
                if q < 64 * pre.len() {
                    bit::lemma_div64_lt(q, pre.len() as int);
                    assert(d@[q / 64] == pre[q / 64]);
                    assert(bm_bit(d@, q) <==> bm_bit(pre, q));
                }
            }
        }
        i += 2;
    }
    if n % 2 == 1 {
        let c1 = mm256_cmpeq_epi8(s[i], m);
        proof {
            assert(forall|wd: int| 0 <= wd < 4 ==> (#[trigger] c1[wd]) & 0xfefe_fefe_fefe_fefeu64 == 0);
        }
        let i1 = mm256_movemask_epi8(c1);
        let w: u64 = i1 as u64;
        let ghost pre = d@;
        d.push(w);
        proof {
            lemma_push_tail(d@, s@, m, i as int, c1, i1);
            assert forall|q: int|
                0 <= q < 64 * d.len() implies (#[trigger] bm_bit(d@, q) <==> (q < 32 * n
                && stream_byte(s@, q) == block_byte(m, 0))) by {
                if q < 64 * pre.len() {
                    bit::lemma_div64_lt(q, pre.len() as int);
                    assert(d@[q / 64] == pre[q / 64]);
                    assert(bm_bit(d@, q) <==> bm_bit(pre, q));
                }
            }
        }
    }
}

/// What one pushed pair word contributes to the bitmap.
proof fn lemma_push_pair(
    d: Seq<u64>,
    s: Seq<m256i>,
    m: m256i,
    i: int,
    c1: m256i,
    c2: m256i,
    i1: u32,
    i2: u32,
)
    requires
        0 <= i,
        i + 1 < s.len(),
        i % 2 == 0,
        2 * (d.len() - 1) == i,
        d[d.len() - 1] == (i1 as u64) | ((i2 as u64) << 32u64),
        forall|c: int|
            0 <= c < 32 ==> #[trigger] block_byte(c1, c) == (if block_byte(s[i], c) == block_byte(
                m,
                c,
            ) {
                1u64
            } else {
                0u64
            }),
        forall|c: int|
            0 <= c < 32 ==> #[trigger] block_byte(c2, c) == (if block_byte(s[i + 1], c)
                == block_byte(m, c) {
                1u64
            } else {
                0u64
            }),
        forall|k: u64| k < 32 ==> (#[trigger] bit64(i1 as u64, k) <==> block_byte(c1, k as int) == 1),
        forall|k: u64| k < 32 ==> (#[trigger] bit64(i2 as u64, k) <==> block_byte(c2, k as int) == 1),
        forall|c: int| 0 <= c < 32 ==> #[trigger] block_byte(m, c) == block_byte(m, 0),
    ensures
        forall|q: int|
            64 * (d.len() - 1) <= q < 64 * d.len() ==> (#[trigger] bm_bit(d, q) <==> (q < 32
                * s.len() && stream_byte(s, q) == block_byte(m, 0))),
{
    let l = d.len() - 1;
    assert forall|q: int| 64 * l <= q < 64 * d.len() implies (#[trigger] bm_bit(d, q) <==> (q < 32
        * s.len() && stream_byte(s, q) == block_byte(m, 0))) by {
        bit::lemma_div_in(q, l, 64);
        let k = (q % 64) as u64;
        lemma_pair_words(i1 as u64, i2 as u64, k);
        if k < 32 {
            bit::lemma_div_in(q, i, 32);
            assert(stream_byte(s, q) == block_byte(s[i], k as int));
            assert(q < 32 * s.len());
        } else {
            bit::lemma_div_in(q, i + 1, 32);
            assert(stream_byte(s, q) == block_byte(s[i + 1], q - 32 * (i + 1)));
            assert(q - 32 * (i + 1) == k - 32);
            assert(q < 32 * s.len());
            assert(bit64(d[l], k) <==> bit64(i2 as u64, (k - 32) as u64));
        }
    }
}

/// What the final odd word contributes to the bitmap.
proof fn lemma_push_tail(d: Seq<u64>, s: Seq<m256i>, m: m256i, i: int, c1: m256i, i1: u32)
    requires
        0 <= i,
        i + 1 == s.len(),
        i % 2 == 0,
        2 * (d.len() - 1) == i,
        d[d.len() - 1] == i1 as u64,
        forall|c: int|
            0 <= c < 32 ==> #[trigger] block_byte(c1, c) == (if block_byte(s[i], c) == block_byte(
                m,
                c,
            ) {
                1u64
            } else {
                0u64
            }),
        forall|k: u64| k < 32 ==> (#[trigger] bit64(i1 as u64, k) <==> block_byte(c1, k as int) == 1),
        forall|c: int| 0 <= c < 32 ==> #[trigger] block_byte(m, c) == block_byte(m, 0),
    ensures
        forall|q: int|
            64 * (d.len() - 1) <= q < 64 * d.len() ==> (#[trigger] bm_bit(d, q) <==> (q < 32
                * s.len() && stream_byte(s, q) == block_byte(m, 0))),
{
    let l = d.len() - 1;
    assert forall|q: int| 64 * l <= q < 64 * d.len() implies (#[trigger] bm_bit(d, q) <==> (q < 32
        * s.len() && stream_byte(s, q) == block_byte(m, 0))) by {
        bit::lemma_div_in(q, l, 64);
        let k = (q % 64) as u64;
        lemma_pair_words(i1 as u64, 0u64, k);
        if k < 32 {
            bit::lemma_div_in(q, i, 32);
            assert(stream_byte(s, q) == block_byte(s[i], k as int));
            assert(q < 32 * s.len());
        } else {
            assert(!bit64(i1 as u64, k));
            assert(q >= 32 * s.len());
        }
    }
}


/// Length of the run of consecutive set bits of `bs` ending just below
/// position `p`.
pub open spec fn run_below(bs: Seq<u64>, p: int) -> nat
    decreases (if p >= 0 { p } else { 0 }),
{
    if p <= 0 || !bm_bit(bs, p - 1) {
        0
    } else {
        run_below(bs, p - 1) + 1
    }
}

/// A run is pinned down by its bits: `r` consecutive set bits ending at `p`
/// with a clear bit (or the start of the record) just below them.
proof fn lemma_run_from_bits(bs: Seq<u64>, p: int, r: nat)
    requires
        0 <= p,
        forall|m: int| 0 <= m < r ==> #[trigger] bm_bit(bs, p - m),
        !bm_bit(bs, p - r),
    ensures
        run_below(bs, p + 1) == r,
    decreases r,
{
    if r == 0 {
        assert(!bm_bit(bs, p - 0));
    } else {
        assert(r <= p + 1) by {
            if r > p + 1 {
                assert(bm_bit(bs, p - (p + 1)));
            }
        }
        assert(bm_bit(bs, p - 0));
        if p == 0 {
            assert(r == 1) by {
                if r > 1 {
                    assert(bm_bit(bs, p - 1));
                }
            }
            assert(run_below(bs, 0) == 0);
            assert(run_below(bs, 1) == 1);
        } else {
            assert forall|m: int| 0 <= m < r - 1 implies #[trigger] bm_bit(bs, p - 1 - m) by {
                assert(bm_bit(bs, p - (m + 1)));
            }
            assert(!bm_bit(bs, p - 1 - (r - 1)));
            lemma_run_from_bits(bs, p - 1, (r - 1) as nat);
        }
    }
}

/// Bits of the word window used to count a run: the low `t + 1` bits of `w`,
/// shifted so that bit `t` lands topmost.
proof fn lemma_run_window(w: u64, t: u64, m: u64)
    by (bit_vector)
    requires
        t < 64,
        m < 64,
    ensures
        m <= t ==> (bit64(
            (w & ((1u64 << t) | (((1u64 << t) - 1u64) as u64))) << ((63u64 - t) as u64),
            ((63u64 - m) as u64),
        ) <==> bit64(w, ((t - m) as u64))),
        m > t ==> !bit64(
            (w & ((1u64 << t) | (((1u64 << t) - 1u64) as u64))) << ((63u64 - t) as u64),
            ((63u64 - m) as u64),
        ),
{
}

/// The facts `leading_ones` gives about single bits.
proof fn lemma_leading_ones_bits(v: u64)
    ensures
        v.leading_ones() <= 64,
        forall|m: u64| m < v.leading_ones() ==> #[trigger] bit64(v, ((63u64 - m) as u64)),
        v.leading_ones() < 64 ==> !bit64(v, ((63u64 - v.leading_ones()) as u64)),
{
    broadcast use vstd::std_specs::bits::group_bits_axioms;

    let l = vstd::std_specs::bits::u64_leading_ones(v);
    assert forall|m: u64| m < l implies #[trigger] bit64(v, ((63u64 - m) as u64)) by {
        assert((v >> ((63u64 - m) as u64)) & 1u64 == 1u64);
    }
    if l < 64 {
        assert((v >> ((63u64 - l) as u64)) & 1u64 == 0u64);
    }
}

/// Counts the run of consecutive set bits of `bs` that ends at position
/// `64 * i + t`, walking backward across words.
fn backslash_run_len(bs: &Vec<u64>, i: usize, t: u64) -> (run: u64)
    requires
        i < bs.len(),
        t < 64,
        64 * bs.len() <= u64::MAX,
        bm_bit(bs@, 64 * i + t),
    ensures
        run == run_below(bs@, 64 * i + t + 1),
        run >= 1,
{
    let ghost p = 64 * (i as int) + t;
    proof {
        assert(t < 64 ==> 1u64 << t >= 1) by (bit_vector);
    }
    let mask: u64 = (1u64 << t) | ((1u64 << t) - 1u64);
    let v: u64 = (bs[i] & mask) << ((63u64 - t) as u64);
    let lead: u32 = v.leading_ones();
    proof {
        lemma_leading_ones_bits(v);
        assert forall|m: int| 0 <= m < lead && m <= t implies #[trigger] bm_bit(bs@, p - m) by {
            lemma_run_window(bs[i as int], t, m as u64);
            bit::lemma_div_in(p - m, i as int, 64);
        }
        if (lead as u64) <= t {
            lemma_run_window(bs[i as int], t, lead as u64);
            bit::lemma_div_in(p - lead, i as int, 64);
            assert(!bm_bit(bs@, p - lead));
        }
        if (lead as u64) > t + 1 {
            lemma_run_window(bs[i as int], t, (t + 1) as u64);
            assert(bit64(v, ((63u64 - (t + 1)) as u64)));
            assert(false);
        }
        bit::lemma_div_in(p, i as int, 64);
        assert(bit64(bs[i as int], t));
        lemma_run_window(bs[i as int], t, 0);
        assert(bit64(v, 63u64));
        assert(lead >= 1);
    }
    let mut run: u64 = lead as u64;
    if run <= t {
        proof {
            lemma_run_from_bits(bs@, p, run as nat);
        }
        return run;
    }
    // the whole window down to the word boundary is set; walk earlier words
    let mut j: usize = i;
    while j > 0
        invariant
            j <= i < bs.len(),
            64 * bs.len() <= u64::MAX,
            p == 64 * (i as int) + t,
            0 <= p < 64 * bs.len(),
            run == p + 1 - 64 * j,
            forall|m: int| 0 <= m < run ==> #[trigger] bm_bit(bs@, p - m),
        decreases j,
    {
        j -= 1;
        let lead2: u32 = bs[j].leading_ones();
        proof {
            lemma_leading_ones_bits(bs[j as int]);
            assert forall|m: int| 0 <= m < run + lead2 implies #[trigger] bm_bit(bs@, p - m) by {
                if m >= run {
                    let k = (p - m) - 64 * (j as int);
                    assert(k == 63 - (m - run));
                    assert(bit64(bs[j as int], ((63u64 - ((m - run) as u64)) as u64)));
                    bit::lemma_div_in(p - m, j as int, 64);
                }
            }
        }
        run = run + lead2 as u64;
        if lead2 != 64 {
            proof {
                let k = (p - run) - 64 * (j as int);
                assert(k == 63 - lead2);
                bit::lemma_div_in(p - run, j as int, 64);
                assert(!bm_bit(bs@, p - run));
                lemma_run_from_bits(bs@, p, run as nat);
            }
            return run;
        }
    }
    proof {
        assert(run == p + 1);
        assert(!bm_bit(bs@, p - run));
        lemma_run_from_bits(bs@, p, run as nat);
    }
    run
}

/// Copies a word vector.
fn clone_words(src: &Vec<u64>) -> (res: Vec<u64>)
    ensures
        res@ == src@,
{
    let mut res: Vec<u64> = Vec::new();
    let mut i: usize = 0;
    while i < src.len()
        invariant
            i <= src.len(),
            res@ == src@.subrange(0, i as int),
        decreases src.len() - i,
    {
        res.push(src[i]);
        i += 1;
    }
    proof {
        assert(res@ =~= src@);
    }
    res
}

/// Corrects the raw quote bitmap for escapes: a quote stays exactly when an
/// even number of consecutive backslashes precedes it.
pub fn build_structural_quote_bitmap(b_backslash: &Vec<u64>, b_quote: &mut Vec<u64>)
    requires
        b_backslash.len() == old(b_quote).len(),
        64 * b_backslash.len() <= u64::MAX,
    ensures
        final(b_quote).len() == old(b_quote).len(),
        forall|p: int|
            0 <= p < 64 * old(b_quote).len() ==> (#[trigger] bm_bit(final(b_quote)@, p) <==> (
            bm_bit(old(b_quote)@, p) && run_below(b_backslash@, p) % 2 == 0)),
{
    let len = b_quote.len();
    let mut b_unstructural: Vec<u64> = Vec::new();
    let mut b_backslash_quote = clone_words(b_quote);
    bit::shift_right_by_one(&mut b_backslash_quote);
    let ghost shifted = b_backslash_quote@;
    bit::and(b_backslash, &mut b_backslash_quote);
    proof {
        assert forall|p: int| 0 <= p < 64 * len implies (#[trigger] bm_bit(b_backslash_quote@, p)
            <==> (bm_bit(b_backslash@, p) && bm_bit(old(b_quote)@, p + 1))) by {
            let w = p / 64;
            bit::lemma_div_in(p, w, 64);
            bit::lemma_bit64_ops(shifted[w], b_backslash@[w], (p % 64) as u64);
            assert(b_backslash_quote@[w] == shifted[w] & b_backslash@[w]);
            assert(bm_bit(shifted, p) <==> bm_bit(old(b_quote)@, p + 1));
        }
    }
    let mut i: usize = 0;
    while i < len
        invariant
            len == b_quote.len() == b_backslash.len() == b_backslash_quote.len(),
            64 * len <= u64::MAX,
            b_quote@ == old(b_quote)@,
            b_unstructural.len() == i,
            i <= len,
            forall|p: int|
                0 <= p < 64 * len ==> (#[trigger] bm_bit(b_backslash_quote@, p) <==> (bm_bit(
                    b_backslash@,
                    p,
                ) && bm_bit(old(b_quote)@, p + 1))),
            forall|p: int|
                0 <= p < 64 * i ==> (#[trigger] bm_bit(b_unstructural@, p) <==> !(bm_bit(
                    b_backslash_quote@,
                    p,
                ) && run_below(b_backslash@, p + 1) % 2 == 1)),
        decreases len - i,
    {
        let ghost w0 = b_backslash_quote@[i as int];
        let mut unstructural_quote: u64 = 0;
        let mut backslash_quote: u64 = b_backslash_quote[i];
        let ghost mut cur: u64 = 0;
        proof {
            assert(forall|k: u64| k < 64 ==> !#[trigger] bit64(0u64, k)) by (bit_vector);
            bit::lemma_div_in(64 * (i as int), i as int, 64);
            assert forall|k: u64| k < 64 implies (#[trigger] bit64(w0, k) <==> bm_bit(
                b_backslash_quote@,
                64 * i + k,
            )) by {
                bit::lemma_div_in(64 * (i as int) + k, i as int, 64);
            }
        }
        while backslash_quote != 0
            invariant
                i < len == b_backslash.len() == b_backslash_quote.len(),
                64 * len <= u64::MAX,
                w0 == b_backslash_quote@[i as int],
                cur <= 64,
                forall|p: int|
                    0 <= p < 64 * len ==> (#[trigger] bm_bit(b_backslash_quote@, p) <==> (bm_bit(
                        b_backslash@,
                        p,
                    ) && bm_bit(old(b_quote)@, p + 1))),
                forall|k: u64|
                    k < 64 ==> (#[trigger] bit64(backslash_quote, k) <==> (bit64(w0, k) && k
                        >= cur)),
                forall|k: u64|
                    k < 64 ==> (#[trigger] bit64(unstructural_quote, k) <==> (k < cur && bit64(
                        w0,
                        k,
                    ) && run_below(b_backslash@, 64 * i + k + 1) % 2 == 1)),
            decreases backslash_quote,
        {
            let t: u32 = backslash_quote.trailing_zeros();
            proof {
                bit::lemma_tz(backslash_quote);
                assert(bit64(w0, t as u64) && t as u64 >= cur);
                bit::lemma_div_in(64 * (i as int) + t, i as int, 64);
                assert(bm_bit(b_backslash_quote@, 64 * i + t));
                assert(bm_bit(b_backslash@, 64 * i + t));
            }
            let run = backslash_run_len(b_backslash, i, t as u64);
            let lowest = bit::e(backslash_quote);
            proof {
                assert(bit64(backslash_quote, t as u64));
                assert(t as u64 >= cur);
                assert(run == run_below(b_backslash@, 64 * i + (t as u64) + 1));
            }
            if run % 2 == 1 {
                let ghost before = unstructural_quote;
                unstructural_quote = unstructural_quote | lowest;
                proof {
                    assert forall|k: u64|
                        k < 64 implies (#[trigger] bit64(unstructural_quote, k) <==> (k < t + 1
                        && bit64(w0, k) && run_below(b_backslash@, 64 * i + k + 1) % 2 == 1)) by {
                        bit::lemma_bit64_ops(before, lowest, k);
                        assert(bit64(unstructural_quote, k) <==> (bit64(before, k) || bit64(
                            lowest,
                            k,
                        )));
                        assert(bit64(lowest, k) <==> k == t as u64);
                        if k < t as u64 && k >= cur {
                            assert(!bit64(backslash_quote, k));
                            assert(!bit64(w0, k));
                        }
                        if k == t as u64 {
                            assert(run_below(b_backslash@, 64 * i + k + 1) % 2 == 1);
                            assert(bit64(w0, k));
                        }
                    }
                }
            } else {
                proof {
                    assert forall|k: u64|
                        k < 64 implies (#[trigger] bit64(unstructural_quote, k) <==> (k < t + 1
                        && bit64(w0, k) && run_below(b_backslash@, 64 * i + k + 1) % 2 == 1)) by {
                        assert(bit64(unstructural_quote, k) <==> (k < cur && bit64(w0, k)
                            && run_below(b_backslash@, 64 * i + k + 1) % 2 == 1));
                        if k < t as u64 && k >= cur {
                            assert(!bit64(backslash_quote, k));
                            assert(!bit64(w0, k));
                        }
                        if k == t as u64 {
                            assert(run_below(b_backslash@, 64 * i + k + 1) % 2 == 0);
                        }
                    }
                }
            }
            backslash_quote = bit::r(backslash_quote);
            proof {
                cur = (t + 1) as u64;
            }
        }
        proof {
            assert forall|k: u64|
                k < 64 implies (#[trigger] bit64(unstructural_quote, k) <==> (bit64(w0, k)
                && run_below(b_backslash@, 64 * i + k + 1) % 2 == 1)) by {
                if k >= cur {
                    assert(!bit64(0u64, k)) by (bit_vector);
                    assert(!bit64(w0, k));
                }
            }
        }
        let ghost pre = b_unstructural@;
        b_unstructural.push(!unstructural_quote);
        proof {
            assert forall|p: int|
                0 <= p < 64 * (i + 1) implies (#[trigger] bm_bit(b_unstructural@, p) <==> !(bm_bit(
                b_backslash_quote@,
                p,
            ) && run_below(b_backslash@, p + 1) % 2 == 1)) by {
                if p < 64 * i {
                    bit::lemma_div64_lt(p, i as int);
                    assert(b_unstructural@[p / 64] == pre[p / 64]);
                    assert(bm_bit(b_unstructural@, p) <==> bm_bit(pre, p));
                } else {
                    bit::lemma_div_in(p, i as int, 64);
                    let k = (p % 64) as u64;
                    bit::lemma_bit64_ops(unstructural_quote, 0, k);
                    assert(bit64(!unstructural_quote, k) <==> !bit64(unstructural_quote, k));
                    assert(bm_bit(b_backslash_quote@, p) <==> bit64(w0, k));
                }
            }
        }
        i += 1;
    }
    let ghost unshifted = b_unstructural@;
    bit::shift_left_by_one(&mut b_unstructural);
    let ghost shifted_unstr = b_unstructural@;
    if len > 0 {
        let w0 = b_unstructural[0];
        b_unstructural.set(0, w0 | 1u64);
        proof {
            assert forall|p: int| 0 <= p < 64 * len implies (#[trigger] bm_bit(b_unstructural@, p)
                <==> (p == 0 || bm_bit(shifted_unstr, p))) by {
                if p < 64 {
                    bit::lemma_div_in(p, 0, 64);
                    bit::lemma_bit64_ops(w0, 1u64, (p % 64) as u64);
                    bit::lemma_bit64_single(0, (p % 64) as u64);
                    assert(1u64 == 1u64 << 0u64) by (bit_vector);
                    if p > 0 {
                        assert(bit64(w0 | 1u64, (p % 64) as u64) <==> bit64(w0, (p % 64) as u64));
                    }
                } else {
                    assert(p / 64 >= 1) by {
                        bit::lemma_div_in(p, p / 64, 64);
                        if p / 64 < 1 {
                            assert(p < 64);
                        }
                    }
                    assert(b_unstructural@[p / 64] == shifted_unstr[p / 64]);
                }
            }
        }
    }
    let ghost unstr_final = b_unstructural@;
    bit::and(&b_unstructural, b_quote);
    proof {
        assert forall|p: int| 0 <= p < 64 * len implies (#[trigger] bm_bit(b_quote@, p) <==> (
        bm_bit(old(b_quote)@, p) && run_below(b_backslash@, p) % 2 == 0)) by {
            let w = p / 64;
            bit::lemma_div_in(p, w, 64);
            bit::lemma_bit64_ops(old(b_quote)@[w], unstr_final[w], (p % 64) as u64);
            assert(b_quote@[w] == old(b_quote)@[w] & unstr_final[w]);
            assert(bm_bit(b_quote@, p) <==> (bm_bit(old(b_quote)@, p) && bm_bit(unstr_final, p)));
            if p == 0 {
                assert(bm_bit(unstr_final, 0));
                assert(run_below(b_backslash@, 0) == 0);
            } else {
                assert(bm_bit(unstr_final, p) <==> bm_bit(shifted_unstr, p));
                assert(bm_bit(shifted_unstr, p) <==> bm_bit(unshifted, p - 1));
                assert(bm_bit(unshifted, p - 1) <==> !(bm_bit(b_backslash_quote@, p - 1)
                    && run_below(b_backslash@, p) % 2 == 1));
                assert(bm_bit(b_backslash_quote@, p - 1) <==> (bm_bit(b_backslash@, p - 1)
                    && bm_bit(old(b_quote)@, p)));
                if bm_bit(old(b_quote)@, p) {
                    if !bm_bit(b_backslash@, p - 1) {
                        assert(run_below(b_backslash@, p) == 0);
                    }
                }
            }
        }
    }
}


/// How many set bits of `bm` lie strictly below position `p`.
pub open spec fn count_below(bm: Seq<u64>, p: int) -> nat
    decreases (if p >= 0 { p } else { 0 }),
{
    if p <= 0 {
        0
    } else {
        count_below(bm, p - 1) + (if bm_bit(bm, p - 1) {
            1nat
        } else {
            0
        })
    }
}

/// How many set bits of the word `w` lie in `lo <= k < hi`.
pub open spec fn word_count(w: u64, lo: int, hi: int) -> nat
    decreases (if hi >= lo { hi - lo } else { 0 }),
{
    if hi <= lo {
        0
    } else {
        word_count(w, lo, hi - 1) + (if 0 <= hi - 1 < 64 && bit64(w, (hi - 1) as u64) {
            1nat
        } else {
            0
        })
    }
}

/// Counting over adjacent ranges adds up.
proof fn lemma_word_count_split(w: u64, a: int, b: int, c: int)
    requires
        a <= b <= c,
    ensures
        word_count(w, a, c) == word_count(w, a, b) + word_count(w, b, c),
    decreases c - b,
{
    if c == b {
    } else {
        lemma_word_count_split(w, a, b, c - 1);
    }
}

/// A range without set bits counts zero.
proof fn lemma_word_count_clear(w: u64, a: int, b: int)
    requires
        a <= b,
        forall|j: u64| a <= j < b ==> !#[trigger] bit64(w, j),
        0 <= a,
    ensures
        word_count(w, a, b) == 0,
    decreases b - a,
{
    if b > a {
        lemma_word_count_clear(w, a, b - 1);
        if b - 1 < 64 {
            assert(!bit64(w, (b - 1) as u64));
        }
    }
}

/// The global count at a position inside word `i` splits into the count up
/// to the word and the count within it.
proof fn lemma_count_below_word(bm: Seq<u64>, i: int, k: int)
    requires
        0 <= i < bm.len(),
        0 <= k <= 64,
    ensures
        count_below(bm, 64 * i + k) == count_below(bm, 64 * i) + word_count(bm[i], 0, k),
    decreases k,
{
    if k > 0 {
        lemma_count_below_word(bm, i, k - 1);
        bit::lemma_div_in(64 * i + (k - 1), i, 64);
    }
}

/// Builds the string mask from the structural quote bitmap, in place: a
/// position reads 1 exactly when an even number of structural quotes lies
/// strictly before it, that is, outside string literals and on opening
/// quotes.
pub fn build_string_mask_bitmap(b_quote: &mut Vec<u64>)
    requires
        64 * old(b_quote).len() <= u64::MAX,
    ensures
        final(b_quote).len() == old(b_quote).len(),
        forall|p: int|
            0 <= p < 64 * old(b_quote).len() ==> (#[trigger] bm_bit(final(b_quote)@, p) <==>
            count_below(old(b_quote)@, p) % 2 == 0),
{
    let len = b_quote.len();
    let mut n: u64 = 0;
    let mut i: usize = 0;
    while i < len
        invariant
            len == b_quote.len() == old(b_quote).len(),
            64 * len <= u64::MAX,
            i <= len,
            forall|j: int| i <= j < len ==> b_quote@[j] == old(b_quote)@[j],
            n == count_below(old(b_quote)@, 64 * i),
            forall|p: int|
                0 <= p < 64 * i ==> (#[trigger] bm_bit(b_quote@, p) <==> count_below(
                    old(b_quote)@,
                    p,
                ) % 2 == 0),
        decreases len - i,
    {
        let ghost w0 = b_quote@[i as int];
        let ghost n_word = n;
        let mut m_quote: u64 = b_quote[i];
        let mut m_string: u64 = 0;
        let ghost mut cur: u64 = 0;
        proof {
            assert(forall|k: u64| k < 64 ==> !#[trigger] bit64(0u64, k)) by (bit_vector);
            assert(count_below(old(b_quote)@, 64 * i + 0) == n);
            lemma_count_below_bound(old(b_quote)@, 64 * (i as int));
        }
        while m_quote != 0
            invariant
                i < len == b_quote.len(),
                64 * len <= u64::MAX,
                w0 == b_quote@[i as int],
                cur <= 64,
                n == n_word + word_count(w0, 0, cur as int),
                n_word == count_below(old(b_quote)@, 64 * i),
                n_word <= 64 * i,
                forall|k: u64| k < 64 ==> (#[trigger] bit64(m_quote, k) <==> (bit64(w0, k) && k >= cur)),
                forall|k: u64|
                    k < 64 ==> (#[trigger] bit64(m_string, k) <==> word_count(w0, k as int, cur as int) % 2
                        == 1),
            decreases m_quote,
        {
            let t: u32 = m_quote.trailing_zeros();
            proof {
                bit::lemma_tz(m_quote);
                assert(bit64(w0, t as u64) && t as u64 >= cur);
                assert forall|j: u64| cur <= j < t as u64 implies !#[trigger] bit64(w0, j) by {
                    assert(!bit64(m_quote, j));
                }
            }
            let m = bit::s(m_quote);
            let ghost before = m_string;
            m_string = m_string ^ m;
            m_quote = bit::r(m_quote);
            proof {
                let tt = t as int;
                assert forall|k: u64|
                    k < 64 implies (#[trigger] bit64(m_string, k) <==> word_count(
                    w0,
                    k as int,
                    tt + 1,
                ) % 2 == 1) by {
                    bit::lemma_bit64_ops(before, m, k);
                    lemma_word_count_clear(w0, cur as int, tt);
                    assert(word_count(w0, tt, tt) == 0);
                    assert(word_count(w0, tt, tt + 1) == 1);
                    if k as int <= cur as int {
                        lemma_word_count_split(w0, k as int, cur as int, tt);
                        lemma_word_count_split(w0, k as int, tt, tt + 1);
                    } else if k as int <= tt {
                        lemma_word_count_clear(w0, k as int, tt);
                        lemma_word_count_split(w0, k as int, tt, tt + 1);
                        assert(word_count(w0, k as int, cur as int) == 0);
                    } else {
                        assert(word_count(w0, k as int, tt + 1) == 0) by {
                            lemma_word_count_clear(w0, k as int, k as int);
                            assert(word_count(w0, k as int, tt + 1) == 0);
                        }
                        assert(word_count(w0, k as int, cur as int) == 0);
                    }
                }
                lemma_word_count_split(w0, 0, cur as int, tt + 1);
                lemma_word_count_clear(w0, cur as int, tt);
                lemma_word_count_split(w0, cur as int, tt, tt + 1);
                assert(word_count(w0, 0, tt + 1) == word_count(w0, 0, cur as int) + 1);
                assert(word_count(w0, 0, cur as int) <= 64) by {
                    lemma_word_count_bound(w0, 0, cur as int);
                }
                cur = (t + 1) as u64;
            }
            n = n + 1;
        }
        proof {
            assert forall|j: u64| cur <= j < 64 implies !#[trigger] bit64(w0, j) by {
                assert(!bit64(m_quote, j));
            }
            lemma_word_count_clear(w0, cur as int, 64);
            lemma_word_count_split(w0, 0, cur as int, 64);
            assert(n == n_word + word_count(w0, 0, 64));
            assert forall|k: u64| k < 64 implies (#[trigger] bit64(m_string, k) <==> word_count(
                w0,
                k as int,
                64,
            ) % 2 == 1) by {
                if k as int <= cur as int {
                    lemma_word_count_split(w0, k as int, cur as int, 64);
                } else {
                    lemma_word_count_clear(w0, k as int, 64);
                    assert(word_count(w0, k as int, cur as int) == 0);
                }
            }
        }
        if n % 2 == 0 {
            let ghost before = m_string;
            m_string = !m_string;
            proof {
                assert forall|k: u64| k < 64 implies (#[trigger] bit64(m_string, k) <==> word_count(
                    w0,
                    k as int,
                    64,
                ) % 2 == 0) by {
                    bit::lemma_bit64_ops(before, 0, k);
                }
            }
        }
        let ghost pre = b_quote@;
        let v = m_string;
        b_quote.set(i, v);
        proof {
            lemma_count_below_word(old(b_quote)@, i as int, 64);
            assert(n == count_below(old(b_quote)@, 64 * (i + 1)));
            assert(n <= 64 * (i + 1)) by {
                lemma_count_below_bound(old(b_quote)@, 64 * (i as int + 1));
            }
            assert forall|p: int|
                0 <= p < 64 * (i + 1) implies (#[trigger] bm_bit(b_quote@, p) <==> count_below(
                old(b_quote)@,
                p,
            ) % 2 == 0) by {
                if p < 64 * i {
                    bit::lemma_div64_lt(p, i as int);
                    assert(b_quote@[p / 64] == pre[p / 64]);
                    assert(bm_bit(b_quote@, p) <==> bm_bit(pre, p));
                } else {
                    bit::lemma_div_in(p, i as int, 64);
                    let k = (p % 64) as u64;
                    lemma_count_below_word(old(b_quote)@, i as int, k as int);
                    lemma_word_count_split(w0, 0, k as int, 64);
                    let a = word_count(w0, k as int, 64);
                    let c = count_below(old(b_quote)@, p);
                    assert(c + a == n);
                    assert(c % 2 == 0 <==> (if n % 2 == 0 {
                        a % 2 == 0
                    } else {
                        a % 2 == 1
                    })) by (nonlinear_arith)
                        requires
                            c + a == n,
                            c >= 0,
                            a >= 0,
                    ;
                }
            }
        }
        i += 1;
    }
}

/// A word range of width `w` holds at most `w` set bits.
proof fn lemma_word_count_bound(w: u64, a: int, b: int)
    requires
        a <= b,
    ensures
        word_count(w, a, b) <= b - a,
    decreases b - a,
{
    if b > a {
        lemma_word_count_bound(w, a, b - 1);
    }
}

/// At most one set bit per position lies below `p`.
proof fn lemma_count_below_bound(bm: Seq<u64>, p: int)
    requires
        0 <= p,
    ensures
        count_below(bm, p) <= p,
    decreases p,
{
    if p > 0 {
        lemma_count_below_bound(bm, p - 1);
    }
}


/// The stack of unmatched open-brace positions after scanning the first `p`
/// positions, or `None` once a close brace found the stack empty.
pub open spec fn brace_stack(bl: Seq<u64>, br: Seq<u64>, p: int) -> Option<Seq<int>>
    decreases (if p >= 0 { p } else { 0 }),
{
    if p <= 0 {
        Some(Seq::empty())
    } else {
        match brace_stack(bl, br, p - 1) {
            Option::None => Option::None,
            Option::Some(st) => {
                if bm_bit(bl, p - 1) {
                    Some(st.push(p - 1))
                } else if bm_bit(br, p - 1) {
                    if st.len() == 0 {
                        Option::None
                    } else {
                        Some(st.drop_last())
                    }
                } else {
                    Some(st)
                }
            },
        }
    }
}

/// The close brace at `q` ends an object whose colons belong above level
/// `d`: when it pops, `d + 1` opens stay on the stack, and the pair covers
/// `p`.
pub open spec fn close_clears(bl: Seq<u64>, br: Seq<u64>, q: int, d: int, p: int) -> bool {
    bm_bit(br, q) && match brace_stack(bl, br, q) {
        Option::None => false,
        Option::Some(st) => st.len() >= 2 && st.len() - 2 == d && st.last() <= p < q,
    }
}

/// Position `p` is cleared from level `d` by some close brace before `c`.
pub open spec fn colon_cleared_upto(bl: Seq<u64>, br: Seq<u64>, d: int, p: int, c: int) -> bool {
    exists|q: int| 0 <= q < c && #[trigger] close_clears(bl, br, q, d, p)
}

/// Scanning a stretch without braces leaves the stack unchanged.
proof fn lemma_stack_skip(bl: Seq<u64>, br: Seq<u64>, a: int, b: int)
    requires
        a <= b,
        forall|q: int| a <= q < b ==> !#[trigger] bm_bit(bl, q),
        forall|q: int| a <= q < b ==> !#[trigger] bm_bit(br, q),
    ensures
        brace_stack(bl, br, b) == brace_stack(bl, br, a),
    decreases b - a,
{
    if b > a {
        lemma_stack_skip(bl, br, a, b - 1);
        assert(!bm_bit(bl, b - 1) && !bm_bit(br, b - 1));
    }
}

/// Once the stack has underflowed it stays underflowed.
proof fn lemma_stack_none_persists(bl: Seq<u64>, br: Seq<u64>, a: int, b: int)
    requires
        a <= b,
        brace_stack(bl, br, a) is None,
    ensures
        brace_stack(bl, br, b) is None,
    decreases b - a,
{
    if b > a {
        lemma_stack_none_persists(bl, br, a, b - 1);
    }
}

/// No close brace in a stretch means no new clearing.
proof fn lemma_cleared_skip(bl: Seq<u64>, br: Seq<u64>, d: int, p: int, a: int, b: int)
    requires
        a <= b,
        forall|q: int| a <= q < b ==> !#[trigger] bm_bit(br, q),
    ensures
        colon_cleared_upto(bl, br, d, p, b) == colon_cleared_upto(bl, br, d, p, a),
{
    if colon_cleared_upto(bl, br, d, p, b) {
        let q = choose|q: int| 0 <= q < b && #[trigger] close_clears(bl, br, q, d, p);
        assert(q < a);
        assert(colon_cleared_upto(bl, br, d, p, a));
    }
    if colon_cleared_upto(bl, br, d, p, a) {
        let q = choose|q: int| 0 <= q < a && #[trigger] close_clears(bl, br, q, d, p);
        assert(colon_cleared_upto(bl, br, d, p, b));
    }
}

/// Bits of the masks the clearing step applies to the colon words.
proof fn lemma_clear_masks(ka: u64, kb: u64, k: u64)
    by (bit_vector)
    requires
        ka < 64,
        kb < 64,
        k < 64,
    ensures
        ka < kb ==> (bit64(!(((1u64 << kb) - (1u64 << ka)) as u64), k) <==> !(ka <= k < kb)),
        bit64(((1u64 << ka) - 1u64) as u64, k) <==> k < ka,
        bit64(!(((1u64 << kb) - 1u64) as u64), k) <==> k >= kb,
        !bit64(0u64, k),
        1u64 << ka >= 1,
        ka < kb ==> (1u64 << ka) < (1u64 << kb),
        (1u64 << ka) < (1u64 << kb) ==> ka < kb,
{
}

/// Masks one word of one level in place.
fn and_at(rows: &mut Vec<Vec<u64>>, d: usize, w: usize, m: u64)
    requires
        d < old(rows).len(),
        w < old(rows)@[d as int].len(),
    ensures
        final(rows)@.len() == old(rows)@.len(),
        forall|dd: int|
            0 <= dd < old(rows)@.len() && dd != d ==> final(rows)@[dd] == old(rows)@[dd],
        final(rows)@[d as int]@ == old(rows)@[d as int]@.update(
            w as int,
            old(rows)@[d as int]@[w as int] & m,
        ),
{
    let v = rows[d][w] & m;
    let row = &mut rows[d];
    row.set(w, v);
}

/// Builds the leveled colon bitmap: level `d` keeps exactly the colons that
/// no matched brace pair with `d + 2` or more opens on the stack encloses.
/// Fails when a close brace has no matching open.
pub fn build_leveled_colon_bitmap(
    b_colon: &Vec<u64>,
    b_left: &Vec<u64>,
    b_right: &Vec<u64>,
    l: usize,
    b: &mut Vec<Vec<u64>>,
) -> (res: Result<(), Error>)
    requires
        old(b).len() == 0,
        b_left.len() == b_colon.len(),
        b_right.len() == b_colon.len(),
        64 * b_colon.len() <= usize::MAX,
        forall|p: int|
            0 <= p < 64 * b_colon.len() ==> (#[trigger] bm_bit(b_right@, p) ==> !bm_bit(
                b_left@,
                p,
            )),
    ensures
        final(b).len() == l,
        forall|d: int| 0 <= d < l ==> (#[trigger] final(b)@[d]).len() == b_colon.len(),
        res is Ok <==> !(brace_stack(b_left@, b_right@, 64 * b_colon.len()) is None),
        res is Err ==> res->Err_0.spec_kind() == ErrorKind::InvalidRecord,
        res is Ok ==> forall|d: int, p: int|
            0 <= d < l && 0 <= p < 64 * b_colon.len() ==> (#[trigger] bm_bit(final(b)@[d]@, p)
                <==> (bm_bit(b_colon@, p) && !colon_cleared_upto(
                b_left@,
                b_right@,
                d,
                p,
                64 * b_colon.len(),
            ))),
{
    let ghost bl = b_left@;
    let ghost br = b_right@;
    let len = b_colon.len();
    let mut d: usize = 0;
    while d < l
        invariant
            b.len() == d,
            d <= l,
            forall|dd: int| 0 <= dd < d ==> #[trigger] b@[dd]@ == b_colon@,
        decreases l - d,
    {
        b.push(clone_words(b_colon));
        d += 1;
    }
    let mut stack: Vec<(usize, u64)> = Vec::new();
    let ghost mut model: Seq<int> = Seq::empty();
    let ghost mut cur: int = 0;
    proof {
        assert(forall|k: u64| k < 64 ==> !#[trigger] bit64(0u64, k)) by (bit_vector);
        assert forall|dd: int, p: int|
            0 <= dd < l && 0 <= p < 64 * len implies (#[trigger] bm_bit(b@[dd]@, p) <==> (bm_bit(
            b_colon@,
            p,
        ) && !colon_cleared_upto(bl, br, dd, p, 0))) by {
            assert(!colon_cleared_upto(bl, br, dd, p, 0));
        }
    }
    let mut i: usize = 0;
    while i < len
        invariant
            len == b_colon.len() == b_left.len() == b_right.len(),
            bl == b_left@,
            br == b_right@,
            64 * len <= usize::MAX,
            forall|p: int| 0 <= p < 64 * len ==> (#[trigger] bm_bit(br, p) ==> !bm_bit(bl, p)),
            i <= len,
            cur == 64 * i,
            b.len() == l,
            forall|dd: int| 0 <= dd < l ==> (#[trigger] b@[dd]).len() == len,
            brace_stack(bl, br, cur) == Some(model),
            stack.len() == model.len(),
            forall|ix: int|
                0 <= ix < model.len() ==> {
                    let (wj, wlb) = #[trigger] stack@[ix];
                    &&& wlb != 0
                    &&& wj < len
                    &&& wlb == 1u64 << crate::bit::u64_tz(wlb)
                    &&& model[ix] == 64 * wj + crate::bit::u64_tz(wlb)
                    &&& 0 <= model[ix] < cur
                },
            forall|dd: int, p: int|
                0 <= dd < l && 0 <= p < 64 * len ==> (#[trigger] bm_bit(b@[dd]@, p) <==> (bm_bit(
                    b_colon@,
                    p,
                ) && !colon_cleared_upto(bl, br, dd, p, cur))),
        decreases len - i,
    {
        let ghost wl0 = b_left@[i as int];
        let ghost wr0 = b_right@[i as int];
        let mut m_left: u64 = b_left[i];
        let mut m_right: u64 = b_right[i];
        proof {
            assert forall|k: u64| k < 64 implies ((#[trigger] bit64(wl0, k) <==> bm_bit(
                bl,
                64 * i + k,
            )) && (bit64(wr0, k) <==> bm_bit(br, 64 * i + k))) by {
                bit::lemma_div_in(64 * (i as int) + k, i as int, 64);
            }
        }
        while m_right != 0
            invariant
                len == b_colon.len() == b_left.len() == b_right.len(),
                bl == b_left@,
                br == b_right@,
                64 * len <= usize::MAX,
                forall|p: int|
                    0 <= p < 64 * len ==> (#[trigger] bm_bit(br, p) ==> !bm_bit(bl, p)),
                i < len,
                wl0 == b_left@[i as int],
                wr0 == b_right@[i as int],
                64 * i <= cur <= 64 * (i + 1),
                forall|k: u64|
                    k < 64 ==> (#[trigger] bit64(m_left, k) <==> (bit64(wl0, k) && 64 * i + k
                        >= cur)),
                forall|k: u64|
                    k < 64 ==> (#[trigger] bit64(m_right, k) <==> (bit64(wr0, k) && 64 * i + k
                        >= cur)),
                b.len() == l,
                forall|dd: int| 0 <= dd < l ==> (#[trigger] b@[dd]).len() == len,
                brace_stack(bl, br, cur) == Some(model),
                stack.len() == model.len(),
                forall|ix: int|
                    0 <= ix < model.len() ==> {
                        let (wj, wlb) = #[trigger] stack@[ix];
                        &&& wlb != 0
                        &&& wj < len
                        &&& wlb == 1u64 << crate::bit::u64_tz(wlb)
                        &&& model[ix] == 64 * wj + crate::bit::u64_tz(wlb)
                        &&& 0 <= model[ix] < cur
                    },
                forall|dd: int, p: int|
                    0 <= dd < l && 0 <= p < 64 * len ==> (#[trigger] bm_bit(b@[dd]@, p) <==> (
                    bm_bit(b_colon@, p) && !colon_cleared_upto(bl, br, dd, p, cur))),
            decreases m_right,
        {
            let m_rightbit = bit::e(m_right);
            let ghost tr = crate::bit::u64_tz(m_right);
            let ghost pr = 64 * (i as int) + tr;
            proof {
                bit::lemma_tz(m_right);
                assert(bit64(wr0, tr) && 64 * i + tr >= cur);
                assert(bm_bit(br, pr));
            }
            // push every open that comes before this close
            let mut m_leftbit = bit::e(m_left);
            while m_leftbit != 0 && m_leftbit < m_rightbit
                invariant
                    len == b_colon.len() == b_left.len() == b_right.len(),
                    bl == b_left@,
                    br == b_right@,
                    64 * len <= usize::MAX,
                    forall|p: int|
                        0 <= p < 64 * len ==> (#[trigger] bm_bit(br, p) ==> !bm_bit(bl, p)),
                    i < len,
                    wl0 == b_left@[i as int],
                    wr0 == b_right@[i as int],
                    64 * i <= cur <= 64 * (i + 1),
                    m_rightbit == 1u64 << tr,
                    tr < 64,
                    pr == 64 * i + tr,
                    pr >= cur,
                    bit64(wr0, tr),
                    forall|k: u64|
                        k < 64 ==> (#[trigger] bit64(m_right, k) <==> (bit64(wr0, k) && 64 * i + k
                            >= cur)),
                    crate::bit::u64_tz(m_right) == tr,
                    m_right != 0,
                    forall|k: u64|
                        k < 64 ==> (#[trigger] bit64(m_left, k) <==> (bit64(wl0, k) && 64 * i + k
                            >= cur)),
                    m_leftbit == 0 <==> m_left == 0,
                    m_left != 0 ==> m_leftbit == 1u64 << crate::bit::u64_tz(m_left),
                    b.len() == l,
                    forall|dd: int| 0 <= dd < l ==> (#[trigger] b@[dd]).len() == len,
                    brace_stack(bl, br, cur) == Some(model),
                    stack.len() == model.len(),
                    forall|ix: int|
                        0 <= ix < model.len() ==> {
                            let (wj, wlb) = #[trigger] stack@[ix];
                            &&& wlb != 0
                            &&& wj < len
                            &&& wlb == 1u64 << crate::bit::u64_tz(wlb)
                            &&& model[ix] == 64 * wj + crate::bit::u64_tz(wlb)
                            &&& 0 <= model[ix] < cur
                        },
                    forall|dd: int, p: int|
                        0 <= dd < l && 0 <= p < 64 * len ==> (#[trigger] bm_bit(b@[dd]@, p) <==> (
                        bm_bit(b_colon@, p) && !colon_cleared_upto(bl, br, dd, p, cur))),
                decreases m_left,
            {
                let ghost tl = crate::bit::u64_tz(m_left);
                let ghost pl = 64 * (i as int) + tl;
                proof {
                    bit::lemma_tz(m_left);
                    assert(bit64(wl0, tl) && pl >= cur);
                    assert(bm_bit(bl, pl));
                    assert(tl < tr) by {
                        lemma_clear_masks(tl, tr, 0);
                        if tl >= tr {
                            if tl == tr {
                                assert(m_leftbit == m_rightbit);
                            } else {
                                lemma_clear_masks(tr, tl, 0);
                            }
                        }
                    }
                    // nothing sits between the cursor and this open
                    assert forall|q: int| cur <= q < pl implies !#[trigger] bm_bit(bl, q) by {
                        bit::lemma_div_in(q, i as int, 64);
                        let k = (q % 64) as u64;
                        assert(!bit64(m_left, k));
                    }
                    assert forall|q: int| cur <= q < pl implies !#[trigger] bm_bit(br, q) by {
                        bit::lemma_div_in(q, i as int, 64);
                        let k = (q % 64) as u64;
                        assert(!bit64(m_right, k));
                        assert(64 * i + k >= cur);
                    }
                    lemma_stack_skip(bl, br, cur, pl);
                    assert(brace_stack(bl, br, pl + 1) == Some(model.push(pl)));
                    assert forall|dd: int, p: int|
                        0 <= dd < l && 0 <= p < 64 * len implies (colon_cleared_upto(
                        bl,
                        br,
                        dd,
                        p,
                        pl + 1,
                    ) == colon_cleared_upto(bl, br, dd, p, cur)) by {
                        assert forall|q: int| cur <= q < pl + 1 implies !#[trigger] bm_bit(br, q)
                            by {
                            if q == pl {
                                assert(bm_bit(bl, pl));
                            }
                        }
                        lemma_cleared_skip(bl, br, dd, p, cur, pl + 1);
                    }
                }
                let ghost stack_pre = stack@;
                let ghost model_pre2 = model;
                stack.push((i, m_leftbit));
                proof {
                    bit::lemma_bit64_single(tl, tl);
                    bit::lemma_tz(m_leftbit);
                    bit::lemma_bit64_single(tl, crate::bit::u64_tz(m_leftbit));
                    model = model.push(pl);
                    cur = pl + 1;
                    assert forall|ix: int| 0 <= ix < model.len() implies {
                        let (wj, wlb) = #[trigger] stack@[ix];
                        &&& wlb != 0
                        &&& wj < len
                        &&& wlb == 1u64 << crate::bit::u64_tz(wlb)
                        &&& model[ix] == 64 * wj + crate::bit::u64_tz(wlb)
                        &&& 0 <= model[ix] < cur
                    } by {
                        if ix < model.len() - 1 {
                            assert(stack@[ix] == stack_pre[ix]);
                            assert(model[ix] == model_pre2[ix]);
                        } else {
                            assert(stack@[ix] == (i, m_leftbit));
                            assert(model[ix] == pl);
                        }
                    }
                }
                m_left = bit::r(m_left);
                m_leftbit = bit::e(m_left);
                proof {
                    if m_left != 0 {
                        bit::lemma_tz(m_left);
                    }
                }
            }
            // no open is left before the close; advance to it and pop
            let ghost cur2 = cur;
            proof {
                assert forall|q: int| cur2 <= q < pr implies !#[trigger] bm_bit(br, q) by {
                    bit::lemma_div_in(q, i as int, 64);
                    let k = (q % 64) as u64;
                    assert(!bit64(m_right, k));
                }
                assert forall|q: int| cur2 <= q < pr implies !#[trigger] bm_bit(bl, q) by {
                    bit::lemma_div_in(q, i as int, 64);
                    let k = (q % 64) as u64;
                    if bit64(m_left, k) {
                        assert(forall|kk: u64| kk < 64 ==> !#[trigger] bit64(0u64, kk)) by (bit_vector);
                        assert(m_left != 0);
                        bit::lemma_tz(m_left);
                        assert(m_leftbit != 0);
                        let tlk = crate::bit::u64_tz(m_left);
                        assert(tlk <= k) by {
                            if tlk > k {
                                assert(!bit64(m_left, k));
                            }
                        }
                        assert(bit64(wl0, tlk));
                        assert(64 * i + tlk >= cur);
                        assert(tlk < tr) by {
                            if tlk == tr {
                                assert(bit64(m_right, tr));
                                assert(bm_bit(br, pr));
                                bit::lemma_div_in(pr, i as int, 64);
                                assert(bm_bit(bl, 64 * i + tlk));
                                assert(false);
                            } else if tlk > tr {
                                lemma_clear_masks(tr, tlk, 0);
                                assert(!(m_leftbit < m_rightbit));
                                assert(false);
                            }
                        }
                        assert(k < tr);
                        assert(bm_bit(bl, q) ==> bit64(wl0, k));
                        assert(64 * i + k < pr);
                        assert(q < pr);
                        assert(bit64(m_left, k) && bit64(m_leftbit, k) == false ==> true);
                        assert(tlk < tr && m_leftbit == 1u64 << tlk && m_rightbit == 1u64 << tr
                            ==> m_leftbit < m_rightbit) by {
                            lemma_clear_masks(tlk, tr, 0);
                        }
                        assert(false);
                    }
                }
                lemma_stack_skip(bl, br, cur2, pr);
                assert(brace_stack(bl, br, pr) == Some(model));
                assert forall|dd: int, p: int|
                    0 <= dd < l && 0 <= p < 64 * len implies (colon_cleared_upto(bl, br, dd, p, pr)
                    == colon_cleared_upto(bl, br, dd, p, cur2)) by {
                    lemma_cleared_skip(bl, br, dd, p, cur2, pr);
                }
            }
            if stack.len() == 0 {
                proof {
                    assert(model.len() == 0);
                    assert(brace_stack(bl, br, pr + 1) is None);
                    lemma_stack_none_persists(bl, br, pr + 1, 64 * len);
                }
                return Err(Error::of(ErrorKind::InvalidRecord));
            }
            let top = stack.pop().unwrap();
            let (j, m_leftbit_popped) = top;
            let ghost ta = crate::bit::u64_tz(m_leftbit_popped);
            let ghost a = model.last();
            proof {
                assert(stack@.len() == model.len() - 1);
                assert(a == 64 * j + ta);
                assert(!bm_bit(bl, pr));
                assert(brace_stack(bl, br, pr + 1) == Some(model.drop_last()));
                bit::lemma_tz(m_leftbit_popped);
                assert(ta < 64);
                assert(crate::bit::u64_tz(1u64 << ta) == ta) by {
                    bit::lemma_bit64_single(ta, ta);
                    bit::lemma_tz(1u64 << ta);
                    bit::lemma_bit64_single(ta, crate::bit::u64_tz(1u64 << ta));
                };
            }
            let ghost model_pre = model;
            proof {
                model = model.drop_last();
            }
            let ghost rows_pre = b@;
            if stack.len() > 0 {
                let upper_l = stack.len() - 1;
                if upper_l < l {
                    // clear the colons between the pair from level `upper_l`
                    let ghost row_pre = b@[upper_l as int]@;
                    if i == j {
                        proof {
                            assert(ta < tr) by {
                                bit::lemma_div_in(a, j as int, 64);
                                bit::lemma_div_in(pr, i as int, 64);
                            }
                            lemma_clear_masks(ta, tr, 0);
                        }
                        and_at(b, upper_l, i, !(m_rightbit - m_leftbit_popped));
                        proof {
                            assert forall|p: int|
                                0 <= p < 64 * len implies (#[trigger] bm_bit(b@[upper_l as int]@, p)
                                <==> (bm_bit(row_pre, p) && !(a <= p < pr))) by {
                                let w = p / 64;
                                bit::lemma_div_in(p, w, 64);
                                let k = (p % 64) as u64;
                                if w == i {
                                    bit::lemma_bit64_ops(
                                        row_pre[w],
                                        !((m_rightbit - m_leftbit_popped) as u64),
                                        k,
                                    );
                                    lemma_clear_masks(ta, tr, k);
                                    assert(a <= p < pr <==> ta <= k < tr);
                                } else {
                                    assert(b@[upper_l as int]@[w] == row_pre[w]);
                                    assert(!(a <= p < pr)) by {
                                        if a <= p < pr {
                                            bit::lemma_div_in(a, i as int, 64);
                                            bit::lemma_div_in(pr, i as int, 64);
                                            assert(64 * i <= p < 64 * (i + 1));
                                            bit::lemma_div_in(p, i as int, 64);
                                        }
                                    }
                                }
                            }
                        }
                    } else {
                        proof {
                            assert(j < i) by {
                                bit::lemma_div_in(a, j as int, 64);
                                bit::lemma_div_in(pr, i as int, 64);
                                if j as int > i as int {
                                    assert(a >= 64 * (i + 1));
                                }
                            }
                            lemma_clear_masks(ta, tr, 0);
                        }
                        and_at(b, upper_l, j, m_leftbit_popped - 1);
                        let mut k = j + 1;
                        while k < i
                            invariant
                                j < k <= i < len,
                                b.len() == l,
                                (upper_l as int) < l <= b.len(),
                                forall|dd: int| 0 <= dd < l ==> (#[trigger] b@[dd]).len() == len,
                                forall|dd: int|
                                    0 <= dd < l && dd != upper_l ==> #[trigger] b@[dd]
                                        == rows_pre[dd],
                                row_pre.len() == len,
                                b@[upper_l as int]@.len() == len,
                                ta < 64,
                                m_leftbit_popped == 1u64 << ta,
                                forall|w: int|
                                    0 <= w < len ==> b@[upper_l as int]@[w] == (if w == j {
                                        row_pre[w] & (((1u64 << ta) - 1u64) as u64)
                                    } else if j < w < k {
                                        0u64
                                    } else {
                                        row_pre[w]
                                    }),
                            decreases i - k,
                        {
                            proof {
                                bit::lemma_bit64_ops(b@[upper_l as int]@[k as int], 0u64, 0);
                                assert(b@[upper_l as int]@[k as int] & 0u64 == 0u64) by (bit_vector);
                            }
                            and_at(b, upper_l, k, 0u64);
                            k += 1;
                        }
                        and_at(b, upper_l, i, !(m_rightbit - 1));
                        proof {
                            assert forall|p: int|
                                0 <= p < 64 * len implies (#[trigger] bm_bit(b@[upper_l as int]@, p)
                                <==> (bm_bit(row_pre, p) && !(a <= p < pr))) by {
                                let w = p / 64;
                                bit::lemma_div_in(p, w, 64);
                                let kk = (p % 64) as u64;
                                bit::lemma_div_in(a, j as int, 64);
                                bit::lemma_div_in(pr, i as int, 64);
                                if w == j {
                                    bit::lemma_bit64_ops(
                                        row_pre[w],
                                        ((m_leftbit_popped - 1) as u64),
                                        kk,
                                    );
                                    lemma_clear_masks(ta, tr, kk);
                                    assert(a <= p < pr <==> kk >= ta);
                                } else if j < w && w < i {
                                    assert(b@[upper_l as int]@[w] == 0u64);
                                    assert(!bit64(0u64, kk)) by (bit_vector);
                                    assert(a <= p < pr);
                                } else if w == i {
                                    bit::lemma_bit64_ops(row_pre[w], !((m_rightbit - 1) as u64), kk);
                                    lemma_clear_masks(ta, tr, kk);
                                    assert(a <= p < pr <==> kk < tr);
                                } else {
                                    assert(b@[upper_l as int]@[w] == row_pre[w]);
                                    assert(!(a <= p < pr));
                                }
                            }
                        }
                    }
                    proof {
                        assert forall|dd: int, p: int|
                            0 <= dd < l && 0 <= p < 64 * len implies (#[trigger] bm_bit(
                            b@[dd]@,
                            p,
                        ) <==> (bm_bit(b_colon@, p) && !(colon_cleared_upto(bl, br, dd, p, pr)
                            || close_clears(bl, br, pr, dd, p)))) by {
                            if dd == upper_l {
                                assert(close_clears(bl, br, pr, dd, p) <==> a <= p < pr);
                                assert(bm_bit(b@[dd]@, p) <==> (bm_bit(rows_pre[dd]@, p) && !(a <= p
                                    < pr)));
                            } else {
                                assert(b@[dd] == rows_pre[dd]);
                                assert(!close_clears(bl, br, pr, dd, p));
                            }
                        }
                    }
                } else {
                    proof {
                        assert forall|dd: int, p: int|
                            0 <= dd < l && 0 <= p < 64 * len implies (#[trigger] bm_bit(
                            b@[dd]@,
                            p,
                        ) <==> (bm_bit(b_colon@, p) && !(colon_cleared_upto(bl, br, dd, p, pr)
                            || close_clears(bl, br, pr, dd, p)))) by {
                            assert(!close_clears(bl, br, pr, dd, p));
                        }
                    }
                }
            } else {
                proof {
                    assert(model_pre.len() == 1);
                    assert forall|dd: int, p: int|
                        0 <= dd < l && 0 <= p < 64 * len implies (#[trigger] bm_bit(b@[dd]@, p)
                        <==> (bm_bit(b_colon@, p) && !(colon_cleared_upto(bl, br, dd, p, pr)
                        || close_clears(bl, br, pr, dd, p)))) by {
                        assert(!close_clears(bl, br, pr, dd, p));
                    }
                }
            }
            proof {
                assert forall|dd: int, p: int|
                    0 <= dd < l && 0 <= p < 64 * len implies (#[trigger] colon_cleared_upto(
                    bl,
                    br,
                    dd,
                    p,
                    pr + 1,
                ) == (colon_cleared_upto(bl, br, dd, p, pr) || close_clears(bl, br, pr, dd, p))) by {
                    if colon_cleared_upto(bl, br, dd, p, pr + 1) {
                        let q = choose|q: int|
                            0 <= q < pr + 1 && #[trigger] close_clears(bl, br, q, dd, p);
                        if q < pr {
                            assert(colon_cleared_upto(bl, br, dd, p, pr));
                        }
                    }
                    if colon_cleared_upto(bl, br, dd, p, pr) {
                        let q = choose|q: int| 0 <= q < pr && #[trigger] close_clears(bl, br, q, dd, p);
                        assert(colon_cleared_upto(bl, br, dd, p, pr + 1));
                    }
                    if close_clears(bl, br, pr, dd, p) {
                        assert(colon_cleared_upto(bl, br, dd, p, pr + 1));
                    }
                }
                cur = pr + 1;
            }
            let ghost mr_old = m_right;
            m_right = bit::r(m_right);
            proof {
                assert forall|k: u64|
                    k < 64 implies (#[trigger] bit64(m_right, k) <==> (bit64(wr0, k) && 64 * i + k
                    >= cur)) by {
                    assert(bit64(m_right, k) <==> (bit64(mr_old, k) && k != tr));
                    assert(bit64(mr_old, k) <==> (bit64(wr0, k) && 64 * i + k >= cur2));
                    if bit64(wr0, k) && 64 * i + k >= cur {
                        assert(k > tr);
                        assert(64 * i + k >= cur2);
                    }
                    if bit64(mr_old, k) && k != tr {
                        assert(k > tr) by {
                            if k < tr {
                                assert(!bit64(mr_old, k));
                            }
                        }
                    }
                }
                assert forall|k: u64|
                    k < 64 implies (#[trigger] bit64(m_left, k) <==> (bit64(wl0, k) && 64 * i + k
                    >= cur)) by {
                    if bit64(m_left, k) {
                        assert(bit64(wl0, k) && 64 * i + k >= cur2);
                        assert(64 * i + k >= cur) by {
                            let q = 64 * (i as int) + k;
                            if q < pr {
                                assert(!bm_bit(bl, q));
                                bit::lemma_div_in(q, i as int, 64);
                                assert(false);
                            } else if q == pr {
                                assert(bm_bit(br, pr));
                                assert(!bm_bit(bl, pr));
                                bit::lemma_div_in(pr, i as int, 64);
                                assert(false);
                            }
                        }
                    }
                }
            }
        }
        // only opens remain in this word: push them all
        proof {
            assert forall|k: u64| k < 64 implies !(bit64(wr0, k) && 64 * i + k >= cur) by {
                assert(!bit64(0u64, k)) by (bit_vector);
                assert(!bit64(m_right, k));
            }
        }
        while m_left != 0
            invariant
                len == b_colon.len() == b_left.len() == b_right.len(),
                bl == b_left@,
                br == b_right@,
                64 * len <= usize::MAX,
                forall|p: int|
                    0 <= p < 64 * len ==> (#[trigger] bm_bit(br, p) ==> !bm_bit(bl, p)),
                i < len,
                wl0 == b_left@[i as int],
                wr0 == b_right@[i as int],
                64 * i <= cur <= 64 * (i + 1),
                forall|k: u64|
                    k < 64 ==> (#[trigger] bit64(m_left, k) <==> (bit64(wl0, k) && 64 * i + k
                        >= cur)),
                forall|k: u64| k < 64 ==> !(bit64(wr0, k) && 64 * i + k >= cur),
                b.len() == l,
                forall|dd: int| 0 <= dd < l ==> (#[trigger] b@[dd]).len() == len,
                brace_stack(bl, br, cur) == Some(model),
                stack.len() == model.len(),
                forall|ix: int|
                    0 <= ix < model.len() ==> {
                        let (wj, wlb) = #[trigger] stack@[ix];
                        &&& wlb != 0
                        &&& wj < len
                        &&& wlb == 1u64 << crate::bit::u64_tz(wlb)
                        &&& model[ix] == 64 * wj + crate::bit::u64_tz(wlb)
                        &&& 0 <= model[ix] < cur
                    },
                forall|dd: int, p: int|
                    0 <= dd < l && 0 <= p < 64 * len ==> (#[trigger] bm_bit(b@[dd]@, p) <==> (
                    bm_bit(b_colon@, p) && !colon_cleared_upto(bl, br, dd, p, cur))),
            decreases m_left,
        {
            let m_leftbit = bit::e(m_left);
            let ghost tl = crate::bit::u64_tz(m_left);
            let ghost pl = 64 * (i as int) + tl;
            proof {
                bit::lemma_tz(m_left);
                assert(bit64(wl0, tl) && pl >= cur);
                assert(bm_bit(bl, pl));
                assert forall|q: int| cur <= q < pl implies !#[trigger] bm_bit(bl, q) by {
                    bit::lemma_div_in(q, i as int, 64);
                    let k = (q % 64) as u64;
                    assert(!bit64(m_left, k));
                }
                assert forall|q: int| cur <= q < pl implies !#[trigger] bm_bit(br, q) by {
                    bit::lemma_div_in(q, i as int, 64);
                    let k = (q % 64) as u64;
                    assert(!(bit64(wr0, k) && 64 * i + k >= cur));
                }
                lemma_stack_skip(bl, br, cur, pl);
                assert(brace_stack(bl, br, pl + 1) == Some(model.push(pl)));
                assert forall|dd: int, p: int|
                    0 <= dd < l && 0 <= p < 64 * len implies (colon_cleared_upto(
                    bl,
                    br,
                    dd,
                    p,
                    pl + 1,
                ) == colon_cleared_upto(bl, br, dd, p, cur)) by {
                    assert forall|q: int| cur <= q < pl + 1 implies !#[trigger] bm_bit(br, q) by {
                        if q == pl {
                            assert(bm_bit(bl, pl));
                        }
                    }
                    lemma_cleared_skip(bl, br, dd, p, cur, pl + 1);
                }
            }
            let ghost stack_pre = stack@;
            let ghost model_pre2 = model;
            stack.push((i, m_leftbit));
            proof {
                bit::lemma_bit64_single(tl, tl);
                bit::lemma_tz(m_leftbit);
                bit::lemma_bit64_single(tl, crate::bit::u64_tz(m_leftbit));
                model = model.push(pl);
                cur = pl + 1;
                assert forall|ix: int| 0 <= ix < model.len() implies {
                    let (wj, wlb) = #[trigger] stack@[ix];
                    &&& wlb != 0
                    &&& wj < len
                    &&& wlb == 1u64 << crate::bit::u64_tz(wlb)
                    &&& model[ix] == 64 * wj + crate::bit::u64_tz(wlb)
                    &&& 0 <= model[ix] < cur
                } by {
                    if ix < model.len() - 1 {
                        assert(stack@[ix] == stack_pre[ix]);
                        assert(model[ix] == model_pre2[ix]);
                    } else {
                        assert(stack@[ix] == (i, m_leftbit));
                        assert(model[ix] == pl);
                    }
                }
            }
            m_left = bit::r(m_left);
        }
        // the rest of the word holds no brace
        proof {
            assert forall|q: int| cur <= q < 64 * (i + 1) implies !#[trigger] bm_bit(bl, q) by {
                bit::lemma_div_in(q, i as int, 64);
                let k = (q % 64) as u64;
                assert(!bit64(m_left, k));
            }
            assert forall|q: int| cur <= q < 64 * (i + 1) implies !#[trigger] bm_bit(br, q) by {
                bit::lemma_div_in(q, i as int, 64);
                let k = (q % 64) as u64;
                assert(!(bit64(wr0, k) && 64 * i + k >= cur));
            }
            lemma_stack_skip(bl, br, cur, 64 * (i as int + 1));
            assert forall|dd: int, p: int|
                0 <= dd < l && 0 <= p < 64 * len implies (colon_cleared_upto(
                bl,
                br,
                dd,
                p,
                64 * (i + 1),
            ) == colon_cleared_upto(bl, br, dd, p, cur)) by {
                lemma_cleared_skip(bl, br, dd, p, cur, 64 * (i as int + 1));
            }
            cur = 64 * (i as int + 1);
        }
        i += 1;
    }
    Ok(())
}


/// The byte at `p` is `c`.
pub open spec fn is_ch(rec: Seq<u8>, p: int, c: u8) -> bool {
    0 <= p < rec.len() && rec[p] == c
}

/// The maximal run of backslashes ending just below position `p`.
pub open spec fn bs_run(rec: Seq<u8>, p: int) -> nat
    decreases (if p >= 0 { p } else { 0 }),
{
    if p <= 0 || !is_ch(rec, p - 1, crate::utf8::BACKSLASH) {
        0
    } else {
        bs_run(rec, p - 1) + 1
    }
}

/// A structural quote: a `"` preceded by an even number of consecutive
/// backslashes.
pub open spec fn structural_quote(rec: Seq<u8>, p: int) -> bool {
    is_ch(rec, p, crate::utf8::QUOTE) && bs_run(rec, p) % 2 == 0
}

/// How many structural quotes lie strictly before position `p`.
pub open spec fn quotes_before(rec: Seq<u8>, p: int) -> nat
    decreases (if p >= 0 { p } else { 0 }),
{
    if p <= 0 {
        0
    } else {
        quotes_before(rec, p - 1) + (if structural_quote(rec, p - 1) {
            1nat
        } else {
            0
        })
    }
}

/// A structural occurrence of byte `c`: one that no string literal encloses.
pub open spec fn structural_char(rec: Seq<u8>, p: int, c: u8) -> bool {
    is_ch(rec, p, c) && quotes_before(rec, p) % 2 == 0
}

/// How many 64-bit words the bitmaps of an `n`-byte record hold.
pub open spec fn bitmap_words(n: int) -> int {
    ((n + 31) / 32 + 1) / 2
}

/// A bitmap that marks backslashes yields the same runs as the record.
proof fn lemma_run_transfer(bs: Seq<u64>, rec: Seq<u8>, p: int)
    requires
        forall|q: int|
            0 <= q < 64 * bs.len() ==> (#[trigger] bm_bit(bs, q) <==> is_ch(
                rec,
                q,
                crate::utf8::BACKSLASH,
            )),
        rec.len() <= 64 * bs.len(),
        p <= 64 * bs.len(),
    ensures
        run_below(bs, p) == bs_run(rec, p),
    decreases (if p >= 0 { p } else { 0 }),
{
    if p > 0 {
        lemma_run_transfer(bs, rec, p - 1);
        assert(bm_bit(bs, p - 1) <==> is_ch(rec, p - 1, crate::utf8::BACKSLASH));
    }
}

/// A bitmap that marks structural quotes counts them like the record.
proof fn lemma_count_transfer(bm: Seq<u64>, rec: Seq<u8>, p: int)
    requires
        forall|q: int|
            0 <= q < 64 * bm.len() ==> (#[trigger] bm_bit(bm, q) <==> structural_quote(rec, q)),
        rec.len() <= 64 * bm.len(),
        p <= 64 * bm.len(),
    ensures
        count_below(bm, p) == quotes_before(rec, p),
    decreases (if p >= 0 { p } else { 0 }),
{
    if p > 0 {
        lemma_count_transfer(bm, rec, p - 1);
        assert(bm_bit(bm, p - 1) <==> structural_quote(rec, p - 1));
        if p - 1 >= rec.len() {
            assert(!structural_quote(rec, p - 1));
        }
    }
}


/// The brace stack read straight off the record: unmatched structural open
/// braces after the first `p` bytes, or `None` once a structural close brace
/// found the stack empty.
pub open spec fn rec_brace_stack(rec: Seq<u8>, p: int) -> Option<Seq<int>>
    decreases (if p >= 0 { p } else { 0 }),
{
    if p <= 0 {
        Some(Seq::empty())
    } else {
        match rec_brace_stack(rec, p - 1) {
            Option::None => Option::None,
            Option::Some(st) => {
                if structural_char(rec, p - 1, crate::utf8::LEFT_BRACE) {
                    Some(st.push(p - 1))
                } else if structural_char(rec, p - 1, crate::utf8::RIGHT_BRACE) {
                    if st.len() == 0 {
                        Option::None
                    } else {
                        Some(st.drop_last())
                    }
                } else {
                    Some(st)
                }
            },
        }
    }
}

/// Brace bitmaps that mark the structural braces walk the same stack as the
/// record itself.
proof fn lemma_brace_transfer(bl: Seq<u64>, br: Seq<u64>, rec: Seq<u8>, p: int)
    requires
        rec.len() <= 64 * bl.len(),
        forall|q: int|
            0 <= q < 64 * bl.len() ==> (#[trigger] bm_bit(bl, q) <==> structural_char(
                rec,
                q,
                crate::utf8::LEFT_BRACE,
            )),
        forall|q: int|
            0 <= q < 64 * br.len() ==> (#[trigger] bm_bit(br, q) <==> structural_char(
                rec,
                q,
                crate::utf8::RIGHT_BRACE,
            )),
        p <= 64 * bl.len(),
        p <= 64 * br.len(),
    ensures
        brace_stack(bl, br, p) == rec_brace_stack(rec, p),
    decreases (if p >= 0 { p } else { 0 }),
{
    if p > 0 {
        lemma_brace_transfer(bl, br, rec, p - 1);
        assert(bm_bit(bl, p - 1) <==> structural_char(rec, p - 1, crate::utf8::LEFT_BRACE));
        assert(bm_bit(br, p - 1) <==> structural_char(rec, p - 1, crate::utf8::RIGHT_BRACE));
    }
}

/// Past the end of the record the stack no longer moves.
pub proof fn lemma_rec_brace_tail(rec: Seq<u8>, p: int)
    requires
        p >= rec.len(),
    ensures
        rec_brace_stack(rec, p) == rec_brace_stack(rec, rec.len() as int),
    decreases (if p >= rec.len() { p - rec.len() } else { 0 }),
{
    if p > rec.len() {
        lemma_rec_brace_tail(rec, p - 1);
        assert(!structural_char(rec, p - 1, crate::utf8::LEFT_BRACE));
        assert(!structural_char(rec, p - 1, crate::utf8::RIGHT_BRACE));
    }
}

/// Bit-vectors with the same bits are the same words.
proof fn lemma_bits_eq_seq(x: Seq<u64>, y: Seq<u64>)
    requires
        x.len() == y.len(),
        forall|p: int| 0 <= p < 64 * x.len() ==> (#[trigger] bm_bit(x, p) <==> bm_bit(y, p)),
    ensures
        x == y,
{
    assert forall|ww: int| 0 <= ww < x.len() implies x[ww] == y[ww] by {
        assert forall|k: u64|
            k < 64 implies (#[trigger] bit64(x[ww], k) <==> bit64(y[ww], k)) by {
            let q = 64 * ww + k;
            bit::lemma_div_in(q, ww, 64);
            assert(bm_bit(x, q) <==> bit64(x[ww], k));
            assert(bm_bit(y, q) <==> bit64(y[ww], k));
        }
        bit::lemma_bit64_ext(x[ww], y[ww]);
    }
    assert(x =~= y);
}

/// The bitmaps a build leaves behind are functions of the record alone: two
/// builders that both satisfy the characterization hold the same words.
pub proof fn lemma_wf_for_unique(a: IndexBuilder, b: IndexBuilder, rec: Seq<u8>)
    requires
        a.wf_for(rec),
        b.wf_for(rec),
        a.max_depth == b.max_depth,
    ensures
        a.b_quote@ == b.b_quote@,
        a.b_left@ == b.b_left@,
        a.b_right@ == b.b_right@,
        a.index@.len() == b.index@.len(),
        forall|d: int| 0 <= d < a.index@.len() ==> #[trigger] a.index@[d]@ == b.index@[d]@,
{
    lemma_bits_eq_seq(a.b_quote@, b.b_quote@);
    lemma_bits_eq_seq(a.b_left@, b.b_left@);
    lemma_bits_eq_seq(a.b_right@, b.b_right@);
    assert forall|d: int| 0 <= d < a.index@.len() implies #[trigger] a.index@[d]@ == b.index@[d]@
        by {
        lemma_bits_eq_seq(a.index@[d]@, b.index@[d]@);
    }
}

/// Owns the per-record bitmaps; they are rebuilt by each call of
/// `build_structural_indices` and read by the extractor.
pub struct IndexBuilder {
    /// How many levels the leveled colon bitmap holds.
    pub max_depth: usize,
    /// The record packed into 32-byte blocks.
    pub words: Vec<m256i>,
    /// Backslash positions.
    pub b_backslash: Vec<u64>,
    /// Structural quote positions.
    pub b_quote: Vec<u64>,
    /// Structural colon positions.
    pub b_colon: Vec<u64>,
    /// Structural left-brace positions.
    pub b_left: Vec<u64>,
    /// Structural right-brace positions.
    pub b_right: Vec<u64>,
    /// The string mask: 1 outside string literals.
    pub b_string: Vec<u64>,
    /// The leveled colon bitmap.
    pub index: Vec<Vec<u64>>,
}

impl IndexBuilder {
    /// What `build_structural_indices` guarantees about the quote bitmap and
    /// the leveled colon bitmap for record `rec`.
    /// What every call of `build_structural_indices` establishes, success or
    /// failure: the character bitmaps are functions of the record alone.
    pub open spec fn chars_ok(self, rec: Seq<u8>) -> bool {
        let w = bitmap_words(rec.len() as int);
        &&& rec.len() <= 64 * w
        &&& self.b_quote.len() == w
        &&& self.b_left.len() == w
        &&& self.b_right.len() == w
        &&& self.b_string.len() == w
        &&& self.b_colon.len() == w
        &&& (forall|p: int|
            0 <= p < 64 * w ==> (#[trigger] bm_bit(self.b_quote@, p) <==> structural_quote(
                rec,
                p,
            )))
        &&& (forall|p: int|
            0 <= p < 64 * w ==> (#[trigger] bm_bit(self.b_string@, p) <==> quotes_before(rec, p)
                % 2 == 0))
        &&& (forall|p: int|
            0 <= p < 64 * w ==> (#[trigger] bm_bit(self.b_colon@, p) <==> structural_char(
                rec,
                p,
                crate::utf8::COLON,
            )))
        &&& (forall|p: int|
            0 <= p < 64 * w ==> (#[trigger] bm_bit(self.b_left@, p) <==> structural_char(
                rec,
                p,
                crate::utf8::LEFT_BRACE,
            )))
        &&& (forall|p: int|
            0 <= p < 64 * w ==> (#[trigger] bm_bit(self.b_right@, p) <==> structural_char(
                rec,
                p,
                crate::utf8::RIGHT_BRACE,
            )))
    }

    /// What a successful build establishes on top: the leveled colon bitmap.
    pub open spec fn wf_for(self, rec: Seq<u8>) -> bool {
        let w = bitmap_words(rec.len() as int);
        &&& self.chars_ok(rec)
        &&& self.index.len() == self.max_depth
        &&& (forall|d: int| 0 <= d < self.max_depth ==> (#[trigger] self.index@[d]).len() == w)
        &&& (forall|d: int, p: int|
            0 <= d < self.max_depth && 0 <= p < 64 * w ==> (#[trigger] bm_bit(self.index@[d]@, p)
                <==> (structural_char(rec, p, crate::utf8::COLON) && !colon_cleared_upto(
                self.b_left@,
                self.b_right@,
                d,
                p,
                64 * w,
            ))))
    }

    /// A fresh builder for query trees `max_depth` levels deep.
    pub fn new(max_depth: usize) -> (res: IndexBuilder)
        ensures
            res.max_depth == max_depth,
    {
        IndexBuilder {
            max_depth,
            words: Vec::new(),
            b_backslash: Vec::new(),
            b_quote: Vec::new(),
            b_colon: Vec::new(),
            b_left: Vec::new(),
            b_right: Vec::new(),
            b_string: Vec::new(),
            index: Vec::new(),
        }
    }

    /// Builds every structural bitmap for `rec`: character bitmaps, the
    /// escape-corrected quote bitmap, the string mask, the masked structural
    /// colon and brace bitmaps, and the leveled colon bitmap. Fails exactly
    /// when a structural close brace has no matching open.
    pub fn build_structural_indices(&mut self, rec: &[u8]) -> (res: Result<(), Error>)
        requires
            rec@.len() <= usize::MAX - 63,
        ensures
            final(self).max_depth == old(self).max_depth,
            final(self).chars_ok(rec@),
            res is Ok <==> !(rec_brace_stack(rec@, rec@.len() as int) is None),
            res is Err ==> res->Err_0.spec_kind() == ErrorKind::InvalidRecord,
            res is Ok ==> final(self).wf_for(rec@),
    {
        let n = rec.len();
        let ghost recv = rec@;
        // pack the record into 32-byte blocks
        self.words.clear();
        let mut i: usize = 0;
        while i + 32 <= n
            invariant
                n == rec@.len() <= usize::MAX - 63,
                self.max_depth == old(self).max_depth,
                i == 32 * self.words.len(),
                i <= n,
                forall|q: int|
                    0 <= q < 32 * self.words.len() ==> #[trigger] stream_byte(self.words@, q) == (
                    rec@[q] as u64),
            decreases n - i,
        {
            let blk = crate::emulated::u8_to_m256i(rec, i);
            let ghost pre = self.words@;
            self.words.push(blk);
            proof {
                assert forall|q: int|
                    0 <= q < 32 * self.words.len() implies #[trigger] stream_byte(self.words@, q)
                    == (rec@[q] as u64) by {
                    if q < 32 * pre.len() {
                        bit::lemma_div_in(q, q / 32, 32);
                        assert(q / 32 < pre.len()) by {
                            if q / 32 >= pre.len() {
                                assert(q >= 32 * pre.len());
                            }
                        }
                        assert(self.words@[q / 32] == pre[q / 32]);
                        assert(stream_byte(self.words@, q) == stream_byte(pre, q));
                    } else {
                        bit::lemma_div_in(q, pre.len() as int, 32);
                        assert(self.words@[q / 32] == blk);
                        assert(block_byte(blk, q - 32 * pre.len()) == rec@[i + (q - 32
                            * pre.len())] as u64);
                    }
                }
            }
            i += 32;
        }
        if i < n {
            let blk = crate::emulated::u8_to_m256i_rest(rec, i);
            let ghost pre = self.words@;
            self.words.push(blk);
            proof {
                assert forall|q: int|
                    0 <= q < 32 * self.words.len() implies #[trigger] stream_byte(self.words@, q)
                    == (if q < n {
                    rec@[q] as u64
                } else {
                    0
                }) by {
                    if q < 32 * pre.len() {
                        bit::lemma_div_in(q, q / 32, 32);
                        assert(q / 32 < pre.len()) by {
                            if q / 32 >= pre.len() {
                                assert(q >= 32 * pre.len());
                            }
                        }
                        assert(self.words@[q / 32] == pre[q / 32]);
                        assert(stream_byte(self.words@, q) == stream_byte(pre, q));
                    } else {
                        bit::lemma_div_in(q, pre.len() as int, 32);
                        assert(self.words@[q / 32] == blk);
                    }
                }
            }
        }
        let ghost blocks = self.words@.len() as int;
        proof {
            assert(blocks == (n + 31) / 32) by {
                if 32 * blocks == i {
                    if i == n {
                        bit::lemma_div_in(n + 31, blocks, 32);
                    } else {
                        assert(false);
                    }
                } else {
                    assert(i < n && n < i + 32);
                    bit::lemma_div_in(n + 31, blocks - 1 + 1, 32);
                }
            }
            assert(n <= 32 * blocks);
            assert forall|q: int|
                0 <= q < 32 * blocks implies #[trigger] stream_byte(self.words@, q) == (if q < n {
                recv[q] as u64
            } else {
                0
            }) by {}
        }
        // the five character bitmaps
        self.b_backslash.clear();
        build_structural_character_bitmap(
            &self.words,
            &mut self.b_backslash,
            crate::emulated::mm256i(crate::utf8::BACKSLASH as i8),
        );
        self.b_quote.clear();
        build_structural_character_bitmap(
            &self.words,
            &mut self.b_quote,
            crate::emulated::mm256i(crate::utf8::QUOTE as i8),
        );
        self.b_colon.clear();
        build_structural_character_bitmap(
            &self.words,
            &mut self.b_colon,
            crate::emulated::mm256i(crate::utf8::COLON as i8),
        );
        self.b_left.clear();
        build_structural_character_bitmap(
            &self.words,
            &mut self.b_left,
            crate::emulated::mm256i(crate::utf8::LEFT_BRACE as i8),
        );
        self.b_right.clear();
        build_structural_character_bitmap(
            &self.words,
            &mut self.b_right,
            crate::emulated::mm256i(crate::utf8::RIGHT_BRACE as i8),
        );
        let ghost w = bitmap_words(n as int);
        proof {
            assert(self.b_quote@.len() == (blocks + 1) / 2 == w);
            assert(32 * blocks <= 64 * w && 64 * w <= 32 * blocks + 32) by {
                if blocks % 2 == 0 {
                    bit::lemma_div_in(blocks + 1, blocks / 2, 2);
                    bit::lemma_div_in(blocks, blocks / 2, 2);
                } else {
                    bit::lemma_div_in(blocks + 1, (blocks + 1) / 2, 2);
                }
            }
            assert(n <= 64 * w);
            lemma_char_bits(self.b_backslash@, self.words@, recv, crate::utf8::BACKSLASH);
            lemma_char_bits(self.b_quote@, self.words@, recv, crate::utf8::QUOTE);
            lemma_char_bits(self.b_colon@, self.words@, recv, crate::utf8::COLON);
            lemma_char_bits(self.b_left@, self.words@, recv, crate::utf8::LEFT_BRACE);
            lemma_char_bits(self.b_right@, self.words@, recv, crate::utf8::RIGHT_BRACE);
        }
        // escape correction, string mask, masking
        build_structural_quote_bitmap(&self.b_backslash, &mut self.b_quote);
        proof {
            assert forall|p: int| 0 <= p < 64 * w implies (#[trigger] bm_bit(self.b_quote@, p)
                <==> structural_quote(recv, p)) by {
                lemma_run_transfer(self.b_backslash@, recv, p);
            }
        }
        let mut mask = clone_words(&self.b_quote);
        build_string_mask_bitmap(&mut mask);
        self.b_string = mask;
        proof {
            assert forall|p: int| 0 <= p < 64 * w implies (#[trigger] bm_bit(self.b_string@, p)
                <==> quotes_before(recv, p) % 2 == 0) by {
                lemma_count_transfer(self.b_quote@, recv, p);
            }
        }
        let ghost pre_colon = self.b_colon@;
        let ghost pre_left = self.b_left@;
        let ghost pre_right = self.b_right@;
        bit::and(&self.b_string, &mut self.b_colon);
        bit::and(&self.b_string, &mut self.b_left);
        bit::and(&self.b_string, &mut self.b_right);
        proof {
            lemma_mask_bits(pre_colon, self.b_colon@, self.b_string@, recv, crate::utf8::COLON);
            lemma_mask_bits(pre_left, self.b_left@, self.b_string@, recv, crate::utf8::LEFT_BRACE);
            lemma_mask_bits(
                pre_right,
                self.b_right@,
                self.b_string@,
                recv,
                crate::utf8::RIGHT_BRACE,
            );
            assert forall|p: int|
                0 <= p < 64 * w implies (#[trigger] bm_bit(self.b_right@, p) ==> !bm_bit(
                self.b_left@,
                p,
            )) by {}
        }
        // the leveled colon bitmap
        self.index.clear();
        let res = build_leveled_colon_bitmap(
            &self.b_colon,
            &self.b_left,
            &self.b_right,
            self.max_depth,
            &mut self.index,
        );
        proof {
            lemma_brace_transfer(self.b_left@, self.b_right@, recv, 64 * w);
            lemma_rec_brace_tail(recv, 64 * w);
        }
        match res {
            Ok(()) => Ok(()),
            Err(e) => Err(e),
        }
    }
}

/// Glue: a character bitmap masked by the string mask marks the structural
/// occurrences.
proof fn lemma_mask_bits(pre: Seq<u64>, post: Seq<u64>, msk: Seq<u64>, rec: Seq<u8>, c: u8)
    requires
        post.len() == pre.len(),
        msk.len() >= pre.len(),
        forall|ww: int| 0 <= ww < pre.len() ==> #[trigger] post[ww] == (pre[ww] & msk[ww]),
        forall|q: int| 0 <= q < 64 * pre.len() ==> (#[trigger] bm_bit(pre, q) <==> is_ch(rec, q, c)),
        forall|q: int|
            0 <= q < 64 * msk.len() ==> (#[trigger] bm_bit(msk, q) <==> quotes_before(rec, q) % 2
                == 0),
    ensures
        forall|q: int|
            0 <= q < 64 * post.len() ==> (#[trigger] bm_bit(post, q) <==> structural_char(
                rec,
                q,
                c,
            )),
{
    assert forall|q: int|
        0 <= q < 64 * post.len() implies (#[trigger] bm_bit(post, q) <==> structural_char(
        rec,
        q,
        c,
    )) by {
        let ww = q / 64;
        bit::lemma_div_in(q, ww, 64);
        bit::lemma_bit64_ops(pre[ww], msk[ww], (q % 64) as u64);
        assert(post[ww] == (pre[ww] & msk[ww]));
        assert(bm_bit(post, q) <==> (bm_bit(pre, q) && bm_bit(msk, q)));
    }
}

/// Glue: a character bitmap over the packed blocks marks the positions of
/// byte `c` in the record.
proof fn lemma_char_bits(bm: Seq<u64>, words: Seq<m256i>, rec: Seq<u8>, c: u8)
    requires
        c != 0,
        rec.len() <= 32 * words.len(),
        forall|q: int|
            0 <= q < 32 * words.len() ==> #[trigger] stream_byte(words, q) == (if q < rec.len() {
                rec[q] as u64
            } else {
                0
            }),
        forall|q: int|
            0 <= q < 64 * bm.len() ==> (#[trigger] bm_bit(bm, q) <==> (q < 32 * words.len()
                && stream_byte(words, q) == (c as u64))),
    ensures
        forall|q: int| 0 <= q < 64 * bm.len() ==> (#[trigger] bm_bit(bm, q) <==> is_ch(rec, q, c)),
{
    assert forall|q: int|
        0 <= q < 64 * bm.len() implies (#[trigger] bm_bit(bm, q) <==> is_ch(rec, q, c)) by {
        if q < rec.len() {
            assert(stream_byte(words, q) == rec[q] as u64);
        } else if q < 32 * words.len() {
            assert(stream_byte(words, q) == 0);
        }
    }
}


/// A stretch without structural quotes keeps the count.
proof fn lemma_quotes_before_skip(rec: Seq<u8>, x: int, y: int)
    requires
        x <= y,
        forall|q: int| x <= q < y ==> !structural_quote(rec, q),
    ensures
        quotes_before(rec, y) == quotes_before(rec, x),
    decreases y - x,
{
    if y > x {
        lemma_quotes_before_skip(rec, x, y - 1);
    }
}

/// Positions strictly between an opening structural quote and its closing
/// partner read as in-string: the mask is clear there.
pub proof fn lemma_string_mask_between_quotes(
    ib: IndexBuilder,
    rec: Seq<u8>,
    a: int,
    b: int,
    p: int,
)
    requires
        ib.wf_for(rec),
        structural_quote(rec, a),
        structural_quote(rec, b),
        quotes_before(rec, a) % 2 == 0,
        forall|q: int| a < q < b ==> !structural_quote(rec, q),
        a < p < b,
    ensures
        !bm_bit(ib.b_string@, p),
{
    lemma_quotes_before_skip(rec, a + 1, p);
    assert(quotes_before(rec, a + 1) == quotes_before(rec, a) + 1);
    assert(p < rec.len());
}

/// Every quote of the record that the structural quote bitmap drops is one
/// preceded by an odd run of backslashes, and the other way round.
pub proof fn lemma_escape_parity(ib: IndexBuilder, rec: Seq<u8>, p: int)
    requires
        ib.wf_for(rec),
        0 <= p < 64 * bitmap_words(rec.len() as int),
    ensures
        (is_ch(rec, p, crate::utf8::QUOTE) && !bm_bit(ib.b_quote@, p)) <==> (is_ch(
            rec,
            p,
            crate::utf8::QUOTE,
        ) && bs_run(rec, p) % 2 == 1),
{
}

/// Any two byte-match backends that meet the backend contract emit the very
/// same bit-vector on the same input.
pub proof fn lemma_backend_agreement(d1: Seq<u64>, d2: Seq<u64>, s: Seq<m256i>, m: m256i)
    requires
        d1.len() == (s.len() + 1) / 2,
        d2.len() == (s.len() + 1) / 2,
        forall|q: int|
            0 <= q < 64 * d1.len() ==> (#[trigger] bm_bit(d1, q) <==> (q < 32 * s.len()
                && stream_byte(s, q) == block_byte(m, 0))),
        forall|q: int|
            0 <= q < 64 * d2.len() ==> (#[trigger] bm_bit(d2, q) <==> (q < 32 * s.len()
                && stream_byte(s, q) == block_byte(m, 0))),
    ensures
        d1 == d2,
{
    assert forall|ww: int| 0 <= ww < d1.len() implies d1[ww] == d2[ww] by {
        assert forall|k: u64|
            k < 64 implies (#[trigger] bit64(d1[ww], k) <==> bit64(d2[ww], k)) by {
            let q = 64 * ww + k;
            bit::lemma_div_in(q, ww, 64);
            assert(bm_bit(d1, q) <==> bit64(d1[ww], k));
            assert(bm_bit(d2, q) <==> bit64(d2[ww], k));
        }
        bit::lemma_bit64_ext(d1[ww], d2[ww]);
    }
    assert(d1 =~= d2);
}


/// Every entry of the brace stack is an open brace seen earlier.
proof fn lemma_stack_entry_bounds(bl: Seq<u64>, br: Seq<u64>, q: int)
    ensures
        brace_stack(bl, br, q) matches Some(s) ==> forall|i: int|
            0 <= i < s.len() ==> 0 <= #[trigger] s[i] < q && bm_bit(bl, s[i]),
    decreases (if q >= 0 { q } else { 0 }),
{
    if q > 0 {
        lemma_stack_entry_bounds(bl, br, q - 1);
    }
}

/// Between an open brace and the close that pops it, the stack never drops
/// below that brace: its first `m` entries stay put.
proof fn lemma_stack_hold(bl: Seq<u64>, br: Seq<u64>, a: int, q: int, b: int, m: int)
    requires
        a < q <= b,
        m >= 1,
        brace_stack(bl, br, b) matches Some(st) && st.len() == m && st[m - 1] == a,
    ensures
        brace_stack(bl, br, q) matches Some(sq) && sq.len() >= m && sq[m - 1] == a,
    decreases b - q,
{
    if q == b {
    } else {
        lemma_stack_hold(bl, br, a, q + 1, b, m);
        let sq1 = brace_stack(bl, br, q + 1).unwrap();
        let sq = brace_stack(bl, br, q).unwrap();
        if bm_bit(bl, q) {
            assert(sq1 == sq.push(q));
            assert(sq1.len() >= m + 1) by {
                if sq1.len() == m {
                    assert(sq1[m - 1] == q);
                }
            }
            assert(sq[m - 1] == sq1[m - 1]);
        } else if bm_bit(br, q) {
            assert(sq1 == sq.drop_last());
            assert(sq[m - 1] == sq1[m - 1]);
        } else {
            assert(sq1 == sq);
        }
    }
}

/// A structural colon that at most `d + 1` open braces enclose is cleared
/// from level `d` by no pair: the clearing pairs of that level sit one
/// brace deeper.
pub proof fn lemma_shallow_colon_uncleared(bl: Seq<u64>, br: Seq<u64>, d: int, p: int, c: int)
    requires
        0 <= p,
        brace_stack(bl, br, p) is Some,
        brace_stack(bl, br, p).unwrap().len() <= d + 1,
        !bm_bit(bl, p),
    ensures
        !colon_cleared_upto(bl, br, d, p, c),
{
    if colon_cleared_upto(bl, br, d, p, c) {
        let q = choose|q: int| 0 <= q < c && #[trigger] close_clears(bl, br, q, d, p);
        let st = brace_stack(bl, br, q).unwrap();
        let a = st.last();
        let m = st.len() as int;
        if p == a {
            lemma_stack_entry_bounds(bl, br, q);
            assert(bm_bit(bl, st[m - 1]));
            assert(false);
        } else {
            lemma_stack_hold(bl, br, a, p, q, m);
            assert(brace_stack(bl, br, p).unwrap().len() >= m);
            assert(false);
        }
    }
}

/// Level `d` of the leveled colon bitmap reads, at every position that at
/// most `d + 1` open braces enclose, exactly "a structural colon stands
/// here": the object at that depth keeps all its own colons.
pub proof fn lemma_leveled_colon_at_depth(ib: IndexBuilder, rec: Seq<u8>, d: int, p: int)
    requires
        ib.wf_for(rec),
        0 <= d < ib.max_depth,
        0 <= p < 64 * bitmap_words(rec.len() as int),
        brace_stack(ib.b_left@, ib.b_right@, p) is Some,
        brace_stack(ib.b_left@, ib.b_right@, p).unwrap().len() <= d + 1,
    ensures
        bm_bit(ib.index@[d]@, p) <==> structural_char(rec, p, crate::utf8::COLON),
{
    if structural_char(rec, p, crate::utf8::COLON) {
        assert(!bm_bit(ib.b_left@, p)) by {
            assert(rec[p] != crate::utf8::LEFT_BRACE);
        }
        lemma_shallow_colon_uncleared(
            ib.b_left@,
            ib.b_right@,
            d,
            p,
            64 * bitmap_words(rec.len() as int),
        );
    }
}

} // verus!
