//! The extractor: walks colon positions level by level, matches field names
//! against the query tree, and records the byte range of each queried value.
use vstd::prelude::*;

use crate::bit;
use crate::bit::bit64;
use crate::bit::bm_bit;
use crate::error::Error;
use crate::error::ErrorKind;
use crate::index_builder::IndexBuilder;
use crate::query::depth_ok;
use crate::query::node_wf;
use crate::query::seq_find;
use crate::query::lemma_find_depth;
use crate::query::lemma_find_wf;
use crate::query::find_idx;
use crate::query::lemma_find_idx;
use crate::query::QueryNode;
use crate::query::QueryTree;
use crate::utf8::COMMA;
use crate::utf8::CR;
use crate::utf8::HT;
use crate::utf8::LF;
use crate::utf8::RIGHT_BRACE;
use crate::utf8::SPACE;

verus! {

/// The ascending list of set-bit positions of `bm` between `start` and
/// `end`, both ends included.
pub open spec fn cps(bm: Seq<u64>, start: int, end: int) -> Seq<int>
    decreases (if end + 1 >= start { end + 1 - start } else { 0 }),
{
    if start > end {
        Seq::empty()
    } else {
        (if bm_bit(bm, start) {
            seq![start]
        } else {
            Seq::empty()
        }) + cps(bm, start + 1, end)
    }
}

/// The list grows at its top end one position at a time.
proof fn lemma_cps_snoc(bm: Seq<u64>, start: int, end: int)
    requires
        start <= end,
    ensures
        cps(bm, start, end) == cps(bm, start, end - 1) + (if bm_bit(bm, end) {
            seq![end]
        } else {
            Seq::<int>::empty()
        }),
    decreases end - start,
{
    if start == end {
        assert(cps(bm, start, end - 1) =~= Seq::<int>::empty());
        assert(cps(bm, start + 1, end) =~= Seq::<int>::empty());
        if bm_bit(bm, end) {
            assert(cps(bm, start, end) =~= seq![end]);
        } else {
            assert(cps(bm, start, end) =~= Seq::<int>::empty());
        }
    } else {
        lemma_cps_snoc(bm, start + 1, end);
        assert(cps(bm, start, end) =~= (if bm_bit(bm, start) {
            seq![start]
        } else {
            Seq::<int>::empty()
        }) + cps(bm, start + 1, end));
        if bm_bit(bm, end) {
            assert(cps(bm, start, end) =~= cps(bm, start, end - 1) + seq![end]);
        } else {
            assert(cps(bm, start, end) =~= cps(bm, start, end - 1));
        }
    }
}

/// A stretch without set bits adds nothing to the list.
proof fn lemma_cps_skip(bm: Seq<u64>, start: int, a: int, b: int)
    requires
        a <= b,
        forall|q: int| a < q <= b ==> !#[trigger] bm_bit(bm, q),
    ensures
        cps(bm, start, b) == cps(bm, start, a),
    decreases b - a,
{
    if b > a {
        lemma_cps_skip(bm, start, a, b - 1);
        if start <= b {
            lemma_cps_snoc(bm, start, b);
            assert(cps(bm, start, b) =~= cps(bm, start, b - 1));
        }
    }
}

/// The list cannot outgrow its range.
pub proof fn lemma_cps_len(bm: Seq<u64>, start: int, end: int)
    ensures
        cps(bm, start, end).len() <= (if end + 1 >= start { end + 1 - start } else { 0 }),
    decreases (if end + 1 >= start { end + 1 - start } else { 0 }),
{
    if start <= end {
        lemma_cps_len(bm, start + 1, end);
    }
}

/// Every listed position is a set bit in range, in ascending order.
pub proof fn lemma_cps_props(bm: Seq<u64>, start: int, end: int)
    ensures
        forall|j: int|
            0 <= j < cps(bm, start, end).len() ==> start <= #[trigger] cps(bm, start, end)[j]
                <= end && bm_bit(bm, cps(bm, start, end)[j]),
        forall|j1: int, j2: int|
            0 <= j1 < j2 < cps(bm, start, end).len() ==> #[trigger] cps(bm, start, end)[j1]
                < #[trigger] cps(bm, start, end)[j2],
    decreases (if end + 1 >= start { end + 1 - start } else { 0 }),
{
    if start <= end {
        lemma_cps_props(bm, start + 1, end);
        let tail = cps(bm, start + 1, end);
        assert forall|j: int|
            0 <= j < cps(bm, start, end).len() implies start <= #[trigger] cps(bm, start, end)[j]
            <= end && bm_bit(bm, cps(bm, start, end)[j]) by {
            if bm_bit(bm, start) {
                if j > 0 {
                    assert(cps(bm, start, end)[j] == tail[j - 1]);
                }
            } else {
                assert(cps(bm, start, end)[j] == tail[j]);
            }
        }
        assert forall|j1: int, j2: int|
            0 <= j1 < j2 < cps(bm, start, end).len() implies #[trigger] cps(bm, start, end)[j1]
            < #[trigger] cps(bm, start, end)[j2] by {
            if bm_bit(bm, start) {
                if j1 > 0 {
                    assert(cps(bm, start, end)[j1] == tail[j1 - 1]);
                }
                assert(cps(bm, start, end)[j2] == tail[j2 - 1]);
            } else {
                assert(cps(bm, start, end)[j1] == tail[j1]);
                assert(cps(bm, start, end)[j2] == tail[j2]);
            }
        }
    }
}

/// Collects into `colon_positions[level]` the positions of the colons of
/// that level between `start` and `end`, ascending.
pub fn generate_colon_positions(
    index: &Vec<Vec<u64>>,
    start: usize,
    end: usize,
    level: usize,
    colon_positions: &mut Vec<Vec<usize>>,
)
    requires
        level < index@.len(),
        level < old(colon_positions)@.len(),
        end < 64 * index@[level as int]@.len(),
        end <= usize::MAX - 64,
    ensures
        final(colon_positions)@.len() == old(colon_positions)@.len(),
        forall|l: int|
            0 <= l < old(colon_positions)@.len() && l != level
                ==> #[trigger] final(colon_positions)@[l] == old(colon_positions)@[l],
        ({
            let cp = final(colon_positions)@[level as int]@;
            let m = cps(index@[level as int]@, start as int, end as int);
            cp.len() == m.len() && (forall|j: int|
                0 <= j < cp.len() ==> #[trigger] cp[j] as int == m[j])
        }),
{
    let ghost bm = index@[level as int]@;
    let row: &Vec<u64> = &index[level];
    let mut fresh: Vec<usize> = Vec::new();
    let mut i: usize = start / 64;
    let last_word = end / 64;
    let ghost mut scan: int = start as int - 1;
    proof {
        assert(cps(bm, start as int, start as int - 1) =~= Seq::<int>::empty());
        assert(64 * (start / 64) as int <= start as int) by {
            bit::lemma_div_in(start as int, (start / 64) as int, 64);
        }
    }
    while i <= last_word && i < row.len()
        invariant
            last_word == end as int / 64,
            end < 64 * bm.len(),
            bm == index@[level as int]@,
            row@ == bm,
            end <= usize::MAX - 64,
            start as int - 1 <= scan,
            scan <= 64 * (i as int) - 1 || scan == start as int - 1,
            64 * (i as int) - 1 <= scan || scan == start as int - 1,
            scan == start as int - 1 ==> 64 * (i as int) <= start as int,
            fresh@.len() == cps(bm, start as int, (if scan > end {
                end as int
            } else {
                scan
            })).len(),
            forall|j: int|
                0 <= j < fresh@.len() ==> #[trigger] fresh@[j] as int == cps(
                    bm,
                    start as int,
                    (if scan > end {
                        end as int
                    } else {
                        scan
                    }),
                )[j],
        decreases last_word + 1 - i,
    {
        proof {
            bit::lemma_div_in(end as int, last_word as int, 64);
            assert(i < bm.len());
        }
        let mut m_colon: u64 = row[i];
        let ghost w0 = bm[i as int];
        let ghost mut cur: u64 = 0;
        proof {
            assert(forall|k: u64| k < 64 ==> !#[trigger] bit64(0u64, k)) by (bit_vector);
        }
        while m_colon != 0
            invariant
                i < bm.len(),
                i <= last_word,
                last_word == end as int / 64,
                bm == index@[level as int]@,
                end < 64 * bm.len(),
                w0 == bm[i as int],
                cur <= 64,
                forall|k: u64|
                    k < 64 ==> (#[trigger] bit64(m_colon, k) <==> (bit64(w0, k) && k >= cur)),
                end <= usize::MAX - 64,
                start as int - 1 <= scan,
                scan <= 64 * (i as int) + cur - 1 || scan == start as int - 1,
                64 * (i as int) - 1 <= scan || scan == start as int - 1,
                scan == start as int - 1 ==> 64 * (i as int) <= start as int,
                forall|k: u64|
                    k < cur && k < 64 && #[trigger] bit64(w0, k) ==> 64 * (i as int) + k <= scan
                        || 64 * (i as int) + k < start as int,
                fresh@.len() == cps(bm, start as int, (if scan > end {
                    end as int
                } else {
                    scan
                })).len(),
                forall|j: int|
                    0 <= j < fresh@.len() ==> #[trigger] fresh@[j] as int == cps(
                        bm,
                        start as int,
                        (if scan > end {
                            end as int
                        } else {
                            scan
                        }),
                    )[j],
            decreases m_colon,
        {
            let t: u32 = m_colon.trailing_zeros();
            proof {
                bit::lemma_tz(m_colon);
            }
            proof {
                bit::lemma_div_bounds(end as int, 64);
                assert(64 * (last_word as int) <= end as int);
                assert(i as int <= last_word as int);
                assert(64 * (i as int) <= 64 * (last_word as int)) by (nonlinear_arith)
                    requires
                        i as int <= last_word as int,
                ;
            }
            let offset = i * 64 + t as usize;
            let ghost p = offset as int;
            proof {
                bit::lemma_div_in(p, i as int, 64);
                assert(bm_bit(bm, p));
                if p >= start {
                    // no set bit lies strictly between the scan point and here
                    assert forall|q: int| scan < q < p implies !#[trigger] bm_bit(bm, q) by {
                        if 64 * (i as int) <= q {
                            bit::lemma_div_in(q, i as int, 64);
                            let k = (q % 64) as u64;
                            if bit64(w0, k) {
                                assert(k < t as u64);
                                if k >= cur {
                                    assert(bit64(m_colon, k));
                                    bit::lemma_tz(m_colon);
                                    assert(false);
                                } else {
                                    assert(64 * (i as int) + k <= scan || 64 * (i as int) + k
                                        < start as int);
                                    assert(q == 64 * (i as int) + k);
                                    assert(q >= start as int);
                                    assert(false);
                                }
                            }
                        } else {
                            assert(q <= 64 * (i as int) - 1);
                            if scan == start as int - 1 {
                                assert(q < 64 * (i as int) <= start as int);
                                assert(q <= scan);
                            }
                            assert(false);
                        }
                    }
                }
            }
            if start <= offset && offset <= end {
                let ghost base = (if scan > end {
                    end as int
                } else {
                    scan
                });
                fresh.push(offset);
                proof {
                    lemma_cps_skip(bm, start as int, scan, p - 1);
                    lemma_cps_snoc(bm, start as int, p);
                    assert(cps(bm, start as int, p) =~= cps(bm, start as int, p - 1) + seq![p]);
                    scan = p;
                }
            } else {
                proof {
                    if p > end && p >= start {
                        if scan <= end {
                            lemma_cps_skip(bm, start as int, scan, end as int);
                        }
                        scan = p;
                    }
                    // below `start`: the scan point stays put
                }
            }
            m_colon = bit::r(m_colon);
            proof {
                cur = (t + 1) as u64;
                if p < start {
                    assert(64 * (i as int) + cur <= start as int);
                }
            }
        }
        proof {
            // the rest of this word holds no set bit
            let newscan = 64 * (i as int + 1) - 1;
            if scan < newscan {
                assert forall|q: int| scan < q <= newscan implies !#[trigger] bm_bit(bm, q) by {
                    if 64 * (i as int) <= q {
                        bit::lemma_div_in(q, i as int, 64);
                        let k = (q % 64) as u64;
                        if bit64(w0, k) {
                            if k >= cur {
                                assert(bit64(m_colon, k));
                                assert(false);
                            } else {
                                assert(64 * (i as int) + k <= scan || 64 * (i as int) + k
                                    < start as int);
                                assert(q == 64 * (i as int) + k);
                                assert(q >= start as int);
                                assert(false);
                            }
                        }
                    } else {
                        assert(q <= 64 * (i as int) - 1);
                        if scan == start as int - 1 {
                            assert(q < 64 * (i as int) <= start as int);
                            assert(q <= scan);
                        }
                        assert(false);
                    }
                }
                if scan <= end {
                    lemma_cps_skip(
                        bm,
                        start as int,
                        scan,
                        (if newscan > end {
                            end as int
                        } else {
                            newscan
                        }),
                    );
                    if newscan > end {
                        lemma_cps_skip(bm, start as int, end as int, end as int);
                    }
                }
                scan = newscan;
            }
        }
        i += 1;
    }
    proof {
        assert(i as int >= last_word + 1) by {
            if i as int <= last_word {
                assert(i >= row.len());
                bit::lemma_div_bounds(end as int, 64);
                assert(64 * (last_word as int) <= end < 64 * bm.len());
                assert(last_word < bm.len());
            }
        }
        if scan <= end {
            assert forall|q: int| scan < q <= end implies !#[trigger] bm_bit(bm, q) by {
                bit::lemma_div_bounds(end as int, 64);
                assert(end < 64 * (last_word + 1));
                assert(i as int >= last_word + 1);
                if scan == start as int - 1 {
                    assert(64 * (i as int) <= start as int);
                    assert(end < 64 * (last_word + 1) <= 64 * (i as int) <= start as int);
                    assert(q >= start as int);
                    assert(q > end);
                } else {
                    assert(scan >= 64 * (i as int) - 1);
                    assert(scan >= 64 * (last_word + 1) - 1 >= end);
                    assert(q > end);
                }
                assert(false);
            }
            lemma_cps_skip(bm, start as int, scan, end as int);
        }
    }
    let row_out = fresh;
    colon_positions.set(level, row_out);
}


/// The highest set bit of `bq` strictly between `start` and `end`, if any.
pub open spec fn last_quote(bq: Seq<u64>, start: int, end: int) -> Option<int>
    decreases (if end >= start { end - start } else { 0 }),
{
    if end <= start + 1 {
        Option::None
    } else if bm_bit(bq, end - 1) {
        Some(end - 1)
    } else {
        last_quote(bq, start, end - 1)
    }
}

/// A position that is set with nothing set above it is the last quote.
proof fn lemma_last_quote_some(bq: Seq<u64>, start: int, end: int, q: int)
    requires
        start < q < end,
        bm_bit(bq, q),
        forall|q2: int| q < q2 < end ==> !#[trigger] bm_bit(bq, q2),
    ensures
        last_quote(bq, start, end) == Some(q),
    decreases end - start,
{
    if q < end - 1 {
        lemma_last_quote_some(bq, start, end - 1, q);
    }
}

/// Without set bits in the range there is no last quote.
proof fn lemma_last_quote_none(bq: Seq<u64>, start: int, end: int)
    requires
        forall|q: int| start < q < end ==> !#[trigger] bm_bit(bq, q),
    ensures
        last_quote(bq, start, end) is None,
    decreases (if end >= start { end - start } else { 0 }),
{
    if end > start + 1 {
        lemma_last_quote_none(bq, start, end - 1);
    }
}

/// Where the last quote sits and what lies above it.
pub proof fn lemma_last_quote_props(bq: Seq<u64>, start: int, end: int)
    ensures
        last_quote(bq, start, end) matches Some(q) ==> start < q < end && bm_bit(bq, q) && (forall|
            q2: int,
        |
            q < q2 < end ==> !#[trigger] bm_bit(bq, q2)),
    decreases (if end >= start { end - start } else { 0 }),
{
    if end > start + 1 && !bm_bit(bq, end - 1) {
        lemma_last_quote_props(bq, start, end - 1);
    }
}

/// Bits of the low mask.
proof fn lemma_parser_low_mask(m: u64, k: u64)
    by (bit_vector)
    requires
        m < 64,
        k < 64,
    ensures
        bit64(((1u64 << m) - 1u64) as u64, k) <==> k < m,
        1u64 << m >= 1,
{
}

/// One bit at a time: `(x >> j) & 1` is zero or one.
proof fn lemma_bit_is_bool(x: u64, j: u64)
    by (bit_vector)
    ensures
        (x >> j) & 1u64 == 0 || (x >> j) & 1u64 == 1,
{
}

/// Finds the highest set bit of `b_quote` strictly between `start` and
/// `end`.
fn find_last_quote(b_quote: &[u64], start: usize, end: usize) -> (res: Option<usize>)
    requires
        end <= 64 * b_quote@.len(),
        end <= usize::MAX - 64,
    ensures
        match res {
            Some(q) => last_quote(b_quote@, start as int, end as int) == Some(q as int),
            None => last_quote(b_quote@, start as int, end as int) is None,
        },
{
    let ghost bq = b_quote@;
    if start >= end || end - start <= 1 {
        return None;
    }
    let mut w = (end - 1) / 64;
    let low_word = start / 64;
    proof {
        bit::lemma_div_bounds(end as int - 1, 64);
        bit::lemma_div_bounds(start as int, 64);
        assert(64 * (w as int) <= end - 1 < 64 * (w as int + 1));
        assert(w < b_quote@.len()) by {
            if w as int >= b_quote@.len() {
                assert(end - 1 >= 64 * b_quote@.len());
            }
        }
    }
    loop
        invariant
            end > start + 1,
            end <= 64 * bq.len(),
            end <= usize::MAX - 64,
            bq == b_quote@,
            low_word == start as int / 64,
            low_word <= w < bq.len(),
            64 * (w as int) <= end - 1,
            forall|q: int| start < q < end && q >= 64 * (w as int + 1) ==> !#[trigger] bm_bit(bq, q),
        decreases w,
    {
        let word_raw = b_quote[w];
        let m = end - w * 64;
        proof {
            if m < 64 {
                lemma_parser_low_mask(m as u64, 0);
            }
        }
        let word: u64 = if m >= 64 {
            word_raw
        } else {
            word_raw & ((1u64 << (m as u64)) - 1u64)
        };
        proof {
            assert forall|k: u64|
                k < 64 implies (#[trigger] bit64(word, k) <==> (bit64(bq[w as int], k) && 64 * (
                w as int) + k < end)) by {
                if m < 64 {
                    lemma_parser_low_mask(m as u64, k);
                    bit::lemma_bit64_ops(word_raw, ((1u64 << (m as u64)) - 1u64) as u64, k);
                } else {
                    assert(64 * (w as int) + k < end);
                }
            }
        }
        if word != 0 {
            let lz = word.leading_zeros();
            proof {
                broadcast use vstd::std_specs::bits::group_bits_axioms;

                assert(lz < 64);
            }
            let k = 63 - lz as usize;
            let q = w * 64 + k;
            proof {
                let lzi = vstd::std_specs::bits::u64_leading_zeros(word);
                assert((word >> ((63 - lzi) as u64)) & 1u64 != 0);
                lemma_bit_is_bool(word, (63 - lzi) as u64);
                assert(bit64(word, k as u64));
                assert(bit64(bq[w as int], k as u64));
                bit::lemma_div_in(q as int, w as int, 64);
                assert(bm_bit(bq, q as int));
                assert(q < end);
                assert forall|q2: int| q < q2 < end implies !#[trigger] bm_bit(bq, q2) by {
                    if q2 >= 64 * (w as int + 1) {
                    } else {
                        bit::lemma_div_in(q2, w as int, 64);
                        let k2 = (q2 % 64) as u64;
                        assert(k2 > k as u64);
                        assert(!bit64(word, k2)) by {
                            assert(forall|j: u64|
                                64 - lzi <= j < 64 ==> #[trigger] (word >> j) & 1u64 == 0u64);
                            assert((word >> k2) & 1u64 == 0u64);
                        }
                        assert(!(bit64(bq[w as int], k2) && 64 * (w as int) + k2 < end));
                    }
                }
            }
            if q > start {
                proof {
                    lemma_last_quote_some(bq, start as int, end as int, q as int);
                }
                return Some(q);
            } else {
                proof {
                    assert forall|q2: int| start < q2 < end implies !#[trigger] bm_bit(bq, q2) by {
                        if q2 <= q as int {
                            assert(q2 <= start);
                        }
                    }
                    lemma_last_quote_none(bq, start as int, end as int);
                }
                return None;
            }
        }
        proof {
            assert forall|q2: int|
                start < q2 < end && q2 >= 64 * (w as int) implies !#[trigger] bm_bit(bq, q2) by {
                if q2 < 64 * (w as int + 1) {
                    bit::lemma_div_in(q2, w as int, 64);
                    let k2 = (q2 % 64) as u64;
                    assert(!bit64(0u64, k2)) by (bit_vector);
                    assert(!bit64(word, k2));
                    assert(!(bit64(bq[w as int], k2) && 64 * (w as int) + k2 < end));
                }
            }
        }
        if w == low_word {
            proof {
                assert forall|q2: int| start < q2 < end implies !#[trigger] bm_bit(bq, q2) by {
                    if q2 < 64 * (w as int) {
                        bit::lemma_div_bounds(start as int, 64);
                        assert(q2 < 64 * (low_word as int) <= start);
                        assert(false);
                    }
                }
                lemma_last_quote_none(bq, start as int, end as int);
            }
            return None;
        }
        w = w - 1;
    }
}

/// The two structural quotes just before `end`: the field name sits between
/// them.
pub open spec fn pre_field_spec(bq: Seq<u64>, start: int, end: int) -> Option<(int, int)> {
    match last_quote(bq, start, end) {
        Option::None => Option::None,
        Some(ei) => match last_quote(bq, start, ei) {
            Option::None => Option::None,
            Some(si) => Some((si, ei)),
        },
    }
}

/// Bounds of a successful pre-field search.
pub proof fn lemma_pre_field_bounds(bq: Seq<u64>, start: int, end: int)
    ensures
        pre_field_spec(bq, start, end) matches Some(r) ==> start < r.0 < r.1 < end,
{
    lemma_last_quote_props(bq, start, end);
    let lq = last_quote(bq, start, end);
    if lq is Some {
        lemma_last_quote_props(bq, start, lq.unwrap());
    }
}

/// Locates the two structural quotes immediately preceding `end` and after
/// `start`: fails exactly when fewer than two are there.
pub fn search_pre_field_indices(b_quote: &[u64], start: usize, end: usize) -> (res: Result<
    (usize, usize),
    Error,
>)
    requires
        end <= 64 * b_quote@.len(),
        end <= usize::MAX - 64,
    ensures
        match res {
            Ok(r) => pre_field_spec(b_quote@, start as int, end as int) == Some(
                (r.0 as int, r.1 as int),
            ),
            Err(e) => pre_field_spec(b_quote@, start as int, end as int) is None
                && e.spec_kind() == ErrorKind::InvalidRecord,
        },
{
    match find_last_quote(b_quote, start, end) {
        None => Err(Error::of(ErrorKind::InvalidRecord)),
        Some(ei) => {
            proof {
                lemma_last_quote_props(b_quote@, start as int, end as int);
            }
            match find_last_quote(b_quote, start, ei) {
                None => Err(Error::of(ErrorKind::InvalidRecord)),
                Some(si) => Ok((si, ei)),
            }
        },
    }
}

/// An ASCII blank the trimming passes over.
pub open spec fn is_ws(c: u8) -> bool {
    c == SPACE || c == HT || c == LF || c == CR
}

/// The first position at or after `si` that holds no blank, or the record
/// length.
pub open spec fn skip_ws(rec: Seq<u8>, si: int) -> int
    decreases (if si < rec.len() && si >= 0 { rec.len() - si } else { 0 }),
{
    if 0 <= si < rec.len() && is_ws(rec[si]) {
        skip_ws(rec, si + 1)
    } else {
        si
    }
}

/// Walks `ei` down past blanks and one optional terminator byte `c`.
pub open spec fn trim_end(rec: Seq<u8>, si: int, ei: int, c: u8, ignored: bool) -> int
    decreases (if ei >= si { ei + 1 - si } else { 0 }),
{
    if ei < si || !(0 <= ei < rec.len()) {
        ei
    } else if is_ws(rec[ei]) {
        trim_end(rec, si, ei - 1, c, ignored)
    } else if rec[ei] == c && !ignored {
        trim_end(rec, si, ei - 1, c, true)
    } else {
        ei
    }
}

/// Where a value's bytes start and stop after trimming, or nothing when the
/// range empties.
pub open spec fn post_value_spec(rec: Seq<u8>, si: int, ei: int, c: u8) -> Option<(int, int)> {
    let s2 = skip_ws(rec, si);
    if s2 >= rec.len() {
        Option::None
    } else {
        let e2 = trim_end(rec, s2, ei, c, false);
        if e2 < s2 {
            Option::None
        } else {
            Some((s2, e2))
        }
    }
}

/// Bounds of a successful trim.
pub proof fn lemma_post_value_bounds(rec: Seq<u8>, si: int, ei: int, c: u8)
    requires
        0 <= si,
        ei < rec.len(),
    ensures
        post_value_spec(rec, si, ei, c) matches Some(r) ==> si <= r.0 <= r.1 <= ei && r.1
            < rec.len(),
{
    lemma_skip_ws_bounds(rec, si);
    let s2 = skip_ws(rec, si);
    if s2 < rec.len() {
        lemma_trim_end_bounds(rec, s2, ei, c, false);
    }
}

proof fn lemma_skip_ws_bounds(rec: Seq<u8>, si: int)
    requires
        0 <= si,
    ensures
        si <= skip_ws(rec, si) <= (if si <= rec.len() {
            rec.len() as int
        } else {
            si
        }),
    decreases (if si < rec.len() { rec.len() - si } else { 0 }),
{
    if 0 <= si < rec.len() && is_ws(rec[si]) {
        lemma_skip_ws_bounds(rec, si + 1);
    }
}

proof fn lemma_trim_end_bounds(rec: Seq<u8>, si: int, ei: int, c: u8, ignored: bool)
    ensures
        trim_end(rec, si, ei, c, ignored) <= ei,
    decreases (if ei >= si { ei + 1 - si } else { 0 }),
{
    if !(ei < si || !(0 <= ei < rec.len())) {
        if is_ws(rec[ei]) {
            lemma_trim_end_bounds(rec, si, ei - 1, c, ignored);
        } else if rec[ei] == c && !ignored {
            lemma_trim_end_bounds(rec, si, ei - 1, c, true);
        }
    }
}

/// Trims a candidate value range: skips leading blanks, drops trailing
/// blanks and one terminator byte; fails exactly when the range empties.
pub fn search_post_value_indices(rec: &[u8], si: usize, ei: usize, ignore_once_char: u8) -> (res:
    Result<(usize, usize), Error>)
    requires
        ei < rec@.len(),
    ensures
        match res {
            Ok(r) => post_value_spec(rec@, si as int, ei as int, ignore_once_char) == Some(
                (r.0 as int, r.1 as int),
            ),
            Err(e) => post_value_spec(rec@, si as int, ei as int, ignore_once_char) is None
                && e.spec_kind() == ErrorKind::InvalidRecord,
        },
{
    let n = rec.len();
    let mut s = si;
    while s < n && (rec[s] == SPACE || rec[s] == HT || rec[s] == LF || rec[s] == CR)
        invariant
            n == rec@.len(),
            si <= s,
            s <= n || s == si,
            skip_ws(rec@, si as int) == skip_ws(rec@, s as int),
        decreases n - s,
    {
        s += 1;
    }
    proof {
        assert(skip_ws(rec@, s as int) == s as int);
    }
    if s >= n {
        return Err(Error::of(ErrorKind::InvalidRecord));
    }
    let mut e = ei;
    let mut ignored = false;
    loop
        invariant
            n == rec@.len(),
            s < n,
            e <= ei < n,
            skip_ws(rec@, si as int) == s as int,
            trim_end(rec@, s as int, ei as int, ignore_once_char, false) == trim_end(
                rec@,
                s as int,
                e as int,
                ignore_once_char,
                ignored,
            ),
        decreases e,
    {
        if s > e {
            proof {
                assert(trim_end(rec@, s as int, e as int, ignore_once_char, ignored) == e as int);
            }
            return Err(Error::of(ErrorKind::InvalidRecord));
        }
        let b = rec[e];
        if b == SPACE || b == HT || b == LF || b == CR {
            if e == 0 {
                proof {
                    assert(s == 0);
                    assert(trim_end(rec@, 0, -1, ignore_once_char, ignored) == -1);
                    assert(trim_end(rec@, 0, 0, ignore_once_char, ignored) == -1);
                }
                return Err(Error::of(ErrorKind::InvalidRecord));
            }
            e -= 1;
        } else if b == ignore_once_char && !ignored {
            ignored = true;
            if e == 0 {
                proof {
                    assert(s == 0);
                    assert(trim_end(rec@, 0, -1, ignore_once_char, true) == -1);
                    assert(trim_end(rec@, 0, 0, ignore_once_char, false) == -1);
                }
                return Err(Error::of(ErrorKind::InvalidRecord));
            }
            e -= 1;
        } else {
            proof {
                assert(trim_end(rec@, s as int, e as int, ignore_once_char, ignored) == e as int);
            }
            return Ok((s, e));
        }
    }
    proof {
        assert(false);
    }
    Err(Error::of(ErrorKind::InvalidRecord))
}


/// The view the extractor's contracts take of one run: whether it failed,
/// the recorded value bytes per path, and the positional statistics.
pub ghost struct ExtractState {
    pub failed: bool,
    pub results: Seq<Option<Seq<u8>>>,
    pub stats: Seq<Seq<usize>>,
}

/// Records that the field of node `u` sat at colon index `i`, once.
pub open spec fn stats_insert(st: Seq<Seq<usize>>, u: int, i: usize) -> Seq<Seq<usize>> {
    if 0 <= u < st.len() && !st[u].contains(i) {
        st.update(u, st[u].push(i))
    } else {
        st
    }
}

/// The per-path byte strings a result vector holds.
pub open spec fn lift_results(rs: Seq<Option<&[u8]>>) -> Seq<Option<Seq<u8>>> {
    Seq::new(
        rs.len(),
        |r: int|
            match rs[r] {
                Some(v) => Some(v@),
                None => None,
            },
    )
}

/// The statistics as sequences.
pub open spec fn lift_stats(st: Seq<Vec<usize>>) -> Seq<Seq<usize>> {
    Seq::new(st.len(), |u: int| st[u]@)
}

/// The rows of the leveled colon bitmap.
pub open spec fn rows(ix: Seq<Vec<u64>>) -> Seq<Seq<u64>> {
    Seq::new(ix.len(), |l: int| ix[l]@)
}

/// What one basic parse of the object between `start` and `end` at `level`
/// does, processing the level's colons from the last to the first.
pub open spec fn basic_spec(
    rec: Seq<u8>,
    index: Seq<Seq<u64>>,
    bq: Seq<u64>,
    node: QueryNode,
    start: int,
    end: int,
    level: int,
    set_stats: bool,
    st: ExtractState,
) -> ExtractState
    decreases (if index.len() >= level { index.len() - level + 1 } else { 0 }), 0int,
{
    if !(0 <= level < index.len()) {
        ExtractState { failed: true, ..st }
    } else {
        let cp = cps(index[level], start, end);
        basic_iter_spec(
            rec,
            index,
            bq,
            node,
            cp,
            cp.len() - 1,
            start,
            end,
            0,
            level,
            set_stats,
            st,
        )
    }
}

/// One step of the basic parse per colon index `i`, counting down.
pub open spec fn basic_iter_spec(
    rec: Seq<u8>,
    index: Seq<Seq<u64>>,
    bq: Seq<u64>,
    node: QueryNode,
    cp: Seq<int>,
    i: int,
    start: int,
    vei: int,
    found: int,
    level: int,
    set_stats: bool,
    st: ExtractState,
) -> ExtractState
    decreases (if index.len() >= level { index.len() - level } else { 0 }), (if i >= 0 {
        i + 1
    } else {
        0
    }),
{
    if st.failed || i < 0 || !(0 <= level < index.len()) || i >= cp.len() {
        st
    } else {
        match pre_field_spec(bq, if i > 0 { cp[i - 1] } else { start }, cp[i]) {
            Option::None => ExtractState { failed: true, ..st },
            Some(fse) => {
                let fsi = fse.0;
                let fei = fse.1;
                let field = rec.subrange(fsi + 1, fei);
                let ci = find_idx(node.children@, field);
                if ci < 0 {
                    basic_iter_spec(
                        rec,
                        index,
                        bq,
                        node,
                        cp,
                        i - 1,
                        start,
                        fsi - 1,
                        found,
                        level,
                        set_stats,
                        st,
                    )
                } else {
                    let child = node.children@[ci].1;
                    match post_value_spec(
                        rec,
                        cp[i] + 1,
                        vei,
                        if i == cp.len() - 1 {
                            RIGHT_BRACE
                        } else {
                            COMMA
                        },
                    ) {
                        Option::None => ExtractState { failed: true, ..st },
                        Some(v) => {
                            let vsi = v.0;
                            let vei2 = v.1;
                            let st1 = if set_stats && child.node_id is Some {
                                ExtractState {
                                    stats: stats_insert(
                                        st.stats,
                                        child.node_id.unwrap() as int,
                                        i as usize,
                                    ),
                                    ..st
                                }
                            } else {
                                st
                            };
                            let st2 = if child.children@.len() > 0 {
                                basic_spec(
                                    rec,
                                    index,
                                    bq,
                                    child,
                                    vsi,
                                    vei2,
                                    level + 1,
                                    set_stats,
                                    st1,
                                )
                            } else {
                                st1
                            };
                            if st2.failed {
                                st2
                            } else {
                                let st3 = if child.path_id is Some && 0 <= child.path_id.unwrap()
                                    < st2.results.len() {
                                    ExtractState {
                                        results: st2.results.update(
                                            child.path_id.unwrap() as int,
                                            Some(rec.subrange(vsi, vei2 + 1)),
                                        ),
                                        ..st2
                                    }
                                } else {
                                    st2
                                };
                                if found + 1 == node.children@.len() {
                                    st3
                                } else {
                                    basic_iter_spec(
                                        rec,
                                        index,
                                        bq,
                                        node,
                                        cp,
                                        i - 1,
                                        start,
                                        fsi - 1,
                                        found + 1,
                                        level,
                                        set_stats,
                                        st3,
                                    )
                                }
                            }
                        },
                    }
                }
            },
        }
    }
}

/// Owns the statistics and the per-level scratch the extractor reuses.
pub struct Parser {
    /// The per-record structural bitmaps.
    pub index_builder: IndexBuilder,
    /// Per node id, the colon indices its field was found at.
    pub stats: Vec<Vec<usize>>,
    /// Per level, the colon positions of the object under scan.
    pub colon_positions: Vec<Vec<usize>>,
}

impl Parser {
    /// The structural conditions a parse at `level` over positions up to
    /// `end` relies on.
    pub open spec fn parse_inv(self, rec: Seq<u8>, end: int, level: int) -> bool {
        &&& 0 <= level < self.index_builder.index@.len()
        &&& self.colon_positions@.len() == self.index_builder.index@.len()
        &&& (forall|l: int|
            0 <= l < self.index_builder.index@.len() ==> end < 64 * (#[trigger] self.index_builder.index@[l])@.len())
        &&& end < 64 * self.index_builder.b_quote@.len()
        &&& end < rec.len()
        &&& rec.len() <= usize::MAX - 64
    }

    /// A fresh parser for the given query tree.
    pub fn new(queries: &QueryTree) -> (res: Parser)
        ensures
            res.index_builder.max_depth == queries.max_level,
            res.stats@.len() == queries.num_nodes,
            forall|u: int| 0 <= u < res.stats@.len() ==> (#[trigger] res.stats@[u])@.len() == 0,
            res.colon_positions@.len() == queries.max_level,
    {
        let index_builder = IndexBuilder::new(queries.max_level());
        let mut colon_positions: Vec<Vec<usize>> = Vec::new();
        let mut l: usize = 0;
        let max_level = queries.max_level();
        while l < max_level
            invariant
                colon_positions@.len() == l,
                l <= max_level,
            decreases max_level - l,
        {
            colon_positions.push(Vec::new());
            l += 1;
        }
        let mut stats: Vec<Vec<usize>> = Vec::new();
        let mut u: usize = 0;
        let num_nodes = queries.num_nodes();
        while u < num_nodes
            invariant
                stats@.len() == u,
                u <= num_nodes,
                forall|j: int| 0 <= j < u ==> (#[trigger] stats@[j])@.len() == 0,
            decreases num_nodes - u,
        {
            stats.push(Vec::new());
            u += 1;
        }
        Parser { index_builder, stats, colon_positions }
    }

    /// Scans every colon of the object between `start` and `end` at `level`,
    /// from the last to the first, matching field names against the node's
    /// children and recording the byte range of each queried value; with
    /// `set_stats` it also files each found colon index under the child's
    /// node id.
    pub fn basic_parse<'a>(
        &mut self,
        rec: &'a [u8],
        queries: &QueryNode,
        start: usize,
        end: usize,
        level: usize,
        set_stats: bool,
        results: &mut Vec<Option<&'a [u8]>>,
    ) -> (res: Result<(), Error>)
        requires
            old(self).parse_inv(rec@, end as int, level as int),
            node_wf(*queries, old(self).stats@.len() as int, old(results)@.len() as int),
            depth_ok(*queries, old(self).index_builder.index@.len() - level),
        ensures
            final(self).index_builder == old(self).index_builder,
            final(self).colon_positions@.len() == old(self).colon_positions@.len(),
            forall|l: int|
                0 <= l < level ==> #[trigger] final(self).colon_positions@[l] == old(
                    self,
                ).colon_positions@[l],
            final(self).stats@.len() == old(self).stats@.len(),
            forall|u: int|
                0 <= u < old(self).stats@.len() ==> (#[trigger] old(self).stats@[u])@.is_prefix_of(
                    final(self).stats@[u]@,
                ),
            final(results)@.len() == old(results)@.len(),
            ({
                let out = basic_spec(
                    rec@,
                    rows(old(self).index_builder.index@),
                    old(self).index_builder.b_quote@,
                    *queries,
                    start as int,
                    end as int,
                    level as int,
                    set_stats,
                    ExtractState {
                        failed: false,
                        results: lift_results(old(results)@),
                        stats: lift_stats(old(self).stats@),
                    },
                );
                &&& (res is Ok <==> !out.failed)
                &&& (res is Ok ==> lift_results(final(results)@) == out.results)
                &&& (res is Ok ==> lift_stats(final(self).stats@) == out.stats)
            }),
            res matches Err(e) ==> e.spec_kind() == ErrorKind::InvalidRecord,
        decreases old(self).index_builder.index@.len() - level + 1, 0int,
    {
        let ghost ix = rows(self.index_builder.index@);
        generate_colon_positions(
            &self.index_builder.index,
            start,
            end,
            level,
            &mut self.colon_positions,
        );
        let cp_len = self.colon_positions[level].len();
        proof {
            assert(ix[level as int] == self.index_builder.index@[level as int]@);
            lemma_cps_props(ix[level as int], start as int, end as int);
            lemma_cps_len(ix[level as int], start as int, end as int);
        }
        self.basic_parse_iter(
            rec,
            queries,
            cp_len,
            start,
            end,
            0,
            level,
            set_stats,
            results,
            Ghost(cps(ix[level as int], start as int, end as int)),
            Ghost(end as int),
        )
    }

    /// One step of the basic parse: handles colon index `ii - 1`, then the
    /// ones before it.
    #[verifier::rlimit(100)]
    fn basic_parse_iter<'a>(
        &mut self,
        rec: &'a [u8],
        queries: &QueryNode,
        ii: usize,
        start: usize,
        vei: usize,
        found_num: usize,
        level: usize,
        set_stats: bool,
        results: &mut Vec<Option<&'a [u8]>>,
        Ghost(cp): Ghost<Seq<int>>,
        Ghost(end0): Ghost<int>,
    ) -> (res: Result<(), Error>)
        requires
            old(self).parse_inv(rec@, end0, level as int),
            node_wf(*queries, old(self).stats@.len() as int, old(results)@.len() as int),
            depth_ok(*queries, old(self).index_builder.index@.len() - level),
            old(self).colon_positions@[level as int]@.len() == cp.len(),
            forall|j: int|
                0 <= j < cp.len() ==> #[trigger] old(self).colon_positions@[level as int]@[j] as int
                    == cp[j],
            forall|j: int| 0 <= j < cp.len() ==> start as int <= #[trigger] cp[j] <= end0,
            ii <= cp.len(),
            vei as int <= end0,
            found_num + ii <= cp.len(),
            cp.len() <= end0 + 1,
        ensures
            final(self).index_builder == old(self).index_builder,
            final(self).colon_positions@.len() == old(self).colon_positions@.len(),
            forall|l: int|
                0 <= l <= level ==> #[trigger] final(self).colon_positions@[l] == old(
                    self,
                ).colon_positions@[l],
            final(self).stats@.len() == old(self).stats@.len(),
            forall|u: int|
                0 <= u < old(self).stats@.len() ==> (#[trigger] old(self).stats@[u])@.is_prefix_of(
                    final(self).stats@[u]@,
                ),
            final(results)@.len() == old(results)@.len(),
            ({
                let out = basic_iter_spec(
                    rec@,
                    rows(old(self).index_builder.index@),
                    old(self).index_builder.b_quote@,
                    *queries,
                    cp,
                    ii - 1,
                    start as int,
                    vei as int,
                    found_num as int,
                    level as int,
                    set_stats,
                    ExtractState {
                        failed: false,
                        results: lift_results(old(results)@),
                        stats: lift_stats(old(self).stats@),
                    },
                );
                &&& (res is Ok <==> !out.failed)
                &&& (res is Ok ==> lift_results(final(results)@) == out.results)
                &&& (res is Ok ==> lift_stats(final(self).stats@) == out.stats)
            }),
            res matches Err(e) ==> e.spec_kind() == ErrorKind::InvalidRecord,
        decreases old(self).index_builder.index@.len() - level, ii,
    {
        let ghost ix = rows(self.index_builder.index@);
        let ghost bq = self.index_builder.b_quote@;
        let ghost st0 = ExtractState {
            failed: false,
            results: lift_results(results@),
            stats: lift_stats(self.stats@),
        };
        if ii == 0 {
            return Ok(());
        }
        let i = ii - 1;
        let cp_i = self.colon_positions[level][i];
        let prev: usize = if i > 0 {
            self.colon_positions[level][i - 1]
        } else {
            start
        };
        let fse = search_pre_field_indices(self.index_builder.b_quote.as_slice(), prev, cp_i);
        let (fsi, fei) = match fse {
            Ok(r) => r,
            Err(e) => {
                proof {
                    assert(basic_iter_spec(
                        rec@,
                        ix,
                        bq,
                        *queries,
                        cp,
                        i as int,
                        start as int,
                        vei as int,
                        found_num as int,
                        level as int,
                        set_stats,
                        st0,
                    ).failed);
                }
                return Err(e);
            },
        };
        proof {
            lemma_pre_field_bounds(bq, prev as int, cp_i as int);
        }
        let field = vstd::slice::slice_subrange(rec, fsi + 1, fei);
        let child_opt = queries.get_child(field);
        proof {
            lemma_find_idx(queries.children@, field@);
        }
        match child_opt {
            None => {
                let r = self.basic_parse_iter(
                    rec,
                    queries,
                    i,
                    start,
                    fsi - 1,
                    found_num,
                    level,
                    set_stats,
                    results,
                    Ghost(cp),
                    Ghost(end0),
                );
                r
            },
            Some(child) => {
                let ghost ci = find_idx(queries.children@, field@);
                proof {
                    assert(*child == queries.children@[ci].1);
                    lemma_find_wf(*queries, field@, self.stats@.len() as int, results@.len() as int);
                    lemma_find_depth(*queries, field@, self.index_builder.index@.len() - level);
                }
                let cplen = self.colon_positions[level].len();
                let terminator: u8 = if ii == cplen {
                    RIGHT_BRACE
                } else {
                    COMMA
                };
                let pv = search_post_value_indices(rec, cp_i + 1, vei, terminator);
                let (vsi, vei2) = match pv {
                    Ok(r) => r,
                    Err(e) => {
                        return Err(e);
                    },
                };
                proof {
                    lemma_post_value_bounds(rec@, cp_i as int + 1, vei as int, terminator);
                }
                if set_stats {
                    let id = child.id();
                    stats_add(&mut self.stats, id, i);
                }
                let ghost st1 = ExtractState {
                    failed: false,
                    results: lift_results(results@),
                    stats: lift_stats(self.stats@),
                };
                proof {
                    assert(st1.stats == (if set_stats && child.node_id is Some {
                        stats_insert(st0.stats, child.node_id.unwrap() as int, i)
                    } else {
                        st0.stats
                    }));
                    assert(st1.results == st0.results);
                }
                let ixlen = self.index_builder.index.len();
                if child.num_children() > 0 {
                    proof {
                        assert((level as int) < ixlen as int);
                    }
                    let r = self.basic_parse(rec, child, vsi, vei2, level + 1, set_stats, results);
                    match r {
                        Ok(()) => {},
                        Err(e) => {
                            proof {
                                let st2 = basic_spec(
                                    rec@,
                                    ix,
                                    bq,
                                    *child,
                                    vsi as int,
                                    vei2 as int,
                                    level as int + 1,
                                    set_stats,
                                    st1,
                                );
                                assert(st2.failed);
                                assert(basic_iter_spec(
                                    rec@,
                                    ix,
                                    bq,
                                    *queries,
                                    cp,
                                    i as int,
                                    start as int,
                                    vei as int,
                                    found_num as int,
                                    level as int,
                                    set_stats,
                                    st0,
                                ) == st2);
                            }
                            return Err(e);
                        },
                    }
                }
                let ghost st2 = ExtractState {
                    failed: false,
                    results: lift_results(results@),
                    stats: lift_stats(self.stats@),
                };
                proof {
                    assert(st2 == (if child.children@.len() > 0 {
                        basic_spec(
                            rec@,
                            ix,
                            bq,
                            *child,
                            vsi as int,
                            vei2 as int,
                            level as int + 1,
                            set_stats,
                            st1,
                        )
                    } else {
                        st1
                    }));
                }
                match child.path_id() {
                    Some(rid) => {
                        let ghost pre_res = results@;
                        let v = vstd::slice::slice_subrange(rec, vsi, vei2 + 1);
                        results.set(rid, Some(v));
                        proof {
                            assert(lift_results(results@) =~= lift_results(pre_res).update(
                                rid as int,
                                Some(rec@.subrange(vsi as int, vei2 as int + 1)),
                            ));
                        }
                    },
                    None => {},
                }
                let ghost st3 = ExtractState {
                    failed: false,
                    results: lift_results(results@),
                    stats: lift_stats(self.stats@),
                };
                proof {
                    assert(st3 == (if child.path_id is Some && 0 <= child.path_id.unwrap()
                        < st2.results.len() {
                        ExtractState {
                            results: st2.results.update(
                                child.path_id.unwrap() as int,
                                Some(rec@.subrange(vsi as int, vei2 as int + 1)),
                            ),
                            ..st2
                        }
                    } else {
                        st2
                    }));
                }
                let found2 = found_num + 1;
                if found2 == queries.num_children() {
                    proof {
                        assert(basic_iter_spec(
                            rec@,
                            ix,
                            bq,
                            *queries,
                            cp,
                            i as int,
                            start as int,
                            vei as int,
                            found_num as int,
                            level as int,
                            set_stats,
                            st0,
                        ) == st3);
                    }
                    return Ok(());
                }
                let r = self.basic_parse_iter(
                    rec,
                    queries,
                    i,
                    start,
                    fsi - 1,
                    found2,
                    level,
                    set_stats,
                    results,
                    Ghost(cp),
                    Ghost(end0),
                );
                proof {
                    assert(basic_iter_spec(
                        rec@,
                        ix,
                        bq,
                        *queries,
                        cp,
                        i as int,
                        start as int,
                        vei as int,
                        found_num as int,
                        level as int,
                        set_stats,
                        st0,
                    ) == basic_iter_spec(
                        rec@,
                        ix,
                        bq,
                        *queries,
                        cp,
                        i as int - 1,
                        start as int,
                        fsi as int - 1,
                        found_num as int + 1,
                        level as int,
                        set_stats,
                        st3,
                    ));
                }
                r
            },
        }
    }
}

/// Files colon index `i` under node id `u`, once.
fn stats_add(stats: &mut Vec<Vec<usize>>, u: usize, i: usize)
    requires
        u < old(stats)@.len(),
    ensures
        final(stats)@.len() == old(stats)@.len(),
        lift_stats(final(stats)@) == stats_insert(lift_stats(old(stats)@), u as int, i),
        forall|m: int|
            0 <= m < old(stats)@.len() ==> (#[trigger] old(stats)@[m])@.is_prefix_of(
                final(stats)@[m]@,
            ),
{
    let row = &stats[u];
    let n = row.len();
    let mut j: usize = 0;
    let mut present = false;
    while j < n && !present
        invariant
            n == stats@[u as int]@.len(),
            u < stats@.len(),
            stats@ == old(stats)@,
            j <= n,
            present ==> j < n && stats@[u as int]@[j as int] == i,
            !present ==> forall|m: int| 0 <= m < j ==> #[trigger] stats@[u as int]@[m] != i,
        decreases (if present { 0int } else { 1int }), n - j,
    {
        if stats[u][j] == i {
            present = true;
        } else {
            j += 1;
        }
    }
    if !present {
        proof {
            assert(!lift_stats(stats@)[u as int].contains(i));
        }
        let rowm = &mut stats[u];
        rowm.push(i);
        proof {
            assert(lift_stats(stats@) =~= stats_insert(lift_stats(old(stats)@), u as int, i));
        }
    } else {
        proof {
            assert(lift_stats(stats@)[u as int].contains(i)) by {
                assert(lift_stats(stats@)[u as int][j as int] == i);
            }
            assert(lift_stats(stats@) =~= stats_insert(lift_stats(old(stats)@), u as int, i));
        }
    }
}


/// The view a speculative run yields: whether it failed, whether every
/// queried field was found where the statistics predicted, and the results.
pub ghost struct SpecOut {
    pub failed: bool,
    pub matched: bool,
    pub results: Seq<Option<Seq<u8>>>,
}

/// What one speculative parse of the object between `start` and `end` does:
/// for each child in turn, try only the colon indices seen in training.
pub open spec fn speculative_spec(
    rec: Seq<u8>,
    index: Seq<Seq<u64>>,
    bq: Seq<u64>,
    node: QueryNode,
    start: int,
    end: int,
    level: int,
    stats: Seq<Seq<usize>>,
    results: Seq<Option<Seq<u8>>>,
) -> SpecOut
    decreases (if index.len() >= level { index.len() - level + 1 } else { 0 }), 0int, 0int,
{
    if !(0 <= level < index.len()) {
        SpecOut { failed: true, matched: false, results }
    } else {
        let cp = cps(index[level], start, end);
        spec_children(rec, index, bq, node, 0, cp, start, end, level, stats, results)
    }
}

/// Handles the children from `k` on.
pub open spec fn spec_children(
    rec: Seq<u8>,
    index: Seq<Seq<u64>>,
    bq: Seq<u64>,
    node: QueryNode,
    k: int,
    cp: Seq<int>,
    start: int,
    end: int,
    level: int,
    stats: Seq<Seq<usize>>,
    results: Seq<Option<Seq<u8>>>,
) -> SpecOut
    decreases (if index.len() >= level { index.len() - level } else { 0 }), (if node.children@.len()
        >= k { node.children@.len() - k + 1 } else { 0 }), 0int,
{
    if !(0 <= k < node.children@.len()) {
        SpecOut { failed: false, matched: true, results }
    } else {
        let child = node.children@[k].1;
        let cand = if child.node_id is Some && 0 <= child.node_id.unwrap() < stats.len() {
            stats[child.node_id.unwrap() as int]
        } else {
            Seq::empty()
        };
        let r1 = spec_candidates(
            rec,
            index,
            bq,
            node,
            k,
            0,
            cand,
            cp,
            start,
            end,
            level,
            stats,
            results,
        );
        if r1.failed {
            r1
        } else if !r1.matched {
            SpecOut { failed: false, matched: false, results: r1.results }
        } else {
            spec_children(rec, index, bq, node, k + 1, cp, start, end, level, stats, r1.results)
        }
    }
}

/// Tries the trained colon indices of child `k` from candidate `j` on; the
/// first one whose field name matches settles the child.
pub open spec fn spec_candidates(
    rec: Seq<u8>,
    index: Seq<Seq<u64>>,
    bq: Seq<u64>,
    node: QueryNode,
    k: int,
    j: int,
    cand: Seq<usize>,
    cp: Seq<int>,
    start: int,
    end: int,
    level: int,
    stats: Seq<Seq<usize>>,
    results: Seq<Option<Seq<u8>>>,
) -> SpecOut
    decreases (if index.len() >= level { index.len() - level } else { 0 }), (if node.children@.len()
        >= k { node.children@.len() - k } else { 0 }), (if cand.len() >= j { cand.len() - j + 1 } else {
        0
    }),
{
    if !(0 <= j < cand.len()) || !(0 <= k < node.children@.len()) {
        SpecOut { failed: false, matched: false, results }
    } else {
        let i = cand[j] as int;
        if i >= cp.len() {
            spec_candidates(rec, index, bq, node, k, j + 1, cand, cp, start, end, level, stats, results)
        } else {
            match pre_field_spec(bq, if i > 0 { cp[i - 1] } else { start }, cp[i]) {
                Option::None => SpecOut { failed: true, matched: false, results },
                Some(fse) => {
                    let field = rec.subrange(fse.0 + 1, fse.1);
                    if field != node.children@[k].0@ {
                        spec_candidates(
                            rec,
                            index,
                            bq,
                            node,
                            k,
                            j + 1,
                            cand,
                            cp,
                            start,
                            end,
                            level,
                            stats,
                            results,
                        )
                    } else {
                        let veio = if i < cp.len() - 1 {
                            match pre_field_spec(bq, cp[i], cp[i + 1]) {
                                Option::None => Option::None,
                                Some(nf) => Some(nf.0 - 1),
                            }
                        } else {
                            Some(end)
                        };
                        match veio {
                            Option::None => SpecOut { failed: true, matched: false, results },
                            Some(vei) => match post_value_spec(
                                rec,
                                cp[i] + 1,
                                vei,
                                if i == cp.len() - 1 {
                                    RIGHT_BRACE
                                } else {
                                    COMMA
                                },
                            ) {
                                Option::None => SpecOut { failed: true, matched: false, results },
                                Some(v) => {
                                    let child = node.children@[k].1;
                                    let sub = if child.children@.len() > 0 {
                                        speculative_spec(
                                            rec,
                                            index,
                                            bq,
                                            child,
                                            v.0,
                                            v.1,
                                            level + 1,
                                            stats,
                                            results,
                                        )
                                    } else {
                                        SpecOut { failed: false, matched: true, results }
                                    };
                                    if sub.failed {
                                        sub
                                    } else {
                                        let results2 = if child.path_id is Some && 0
                                            <= child.path_id.unwrap() < sub.results.len() {
                                            sub.results.update(
                                                child.path_id.unwrap() as int,
                                                Some(rec.subrange(v.0, v.1 + 1)),
                                            )
                                        } else {
                                            sub.results
                                        };
                                        SpecOut {
                                            failed: false,
                                            matched: sub.matched,
                                            results: results2,
                                        }
                                    }
                                },
                            },
                        }
                    }
                },
            }
        }
    }
}


impl Parser {
    /// Visits, for each queried field, only the colon indices the training
    /// records put it at; reports whether every field was found that way.
    /// The statistics are read, never changed.
    pub fn speculative_parse<'a>(
        &mut self,
        rec: &'a [u8],
        queries: &QueryNode,
        start: usize,
        end: usize,
        level: usize,
        results: &mut Vec<Option<&'a [u8]>>,
    ) -> (res: Result<bool, Error>)
        requires
            old(self).parse_inv(rec@, end as int, level as int),
            node_wf(*queries, old(self).stats@.len() as int, old(results)@.len() as int),
            depth_ok(*queries, old(self).index_builder.index@.len() - level),
        ensures
            final(self).index_builder == old(self).index_builder,
            final(self).stats == old(self).stats,
            final(self).colon_positions@.len() == old(self).colon_positions@.len(),
            forall|l: int|
                0 <= l < level ==> #[trigger] final(self).colon_positions@[l] == old(
                    self,
                ).colon_positions@[l],
            final(results)@.len() == old(results)@.len(),
            ({
                let out = speculative_spec(
                    rec@,
                    rows(old(self).index_builder.index@),
                    old(self).index_builder.b_quote@,
                    *queries,
                    start as int,
                    end as int,
                    level as int,
                    lift_stats(old(self).stats@),
                    lift_results(old(results)@),
                );
                &&& (res is Ok <==> !out.failed)
                &&& (res matches Ok(b) ==> b == out.matched && lift_results(final(results)@)
                    == out.results)
            }),
            res matches Err(e) ==> e.spec_kind() == ErrorKind::InvalidRecord,
        decreases old(self).index_builder.index@.len() - level + 1, 0int, 0int,
    {
        let ghost ix = rows(self.index_builder.index@);
        generate_colon_positions(
            &self.index_builder.index,
            start,
            end,
            level,
            &mut self.colon_positions,
        );
        proof {
            assert(ix[level as int] == self.index_builder.index@[level as int]@);
            lemma_cps_props(ix[level as int], start as int, end as int);
            lemma_cps_len(ix[level as int], start as int, end as int);
        }
        self.speculative_children(
            rec,
            queries,
            0,
            start,
            end,
            level,
            results,
            Ghost(cps(ix[level as int], start as int, end as int)),
        )
    }

    /// Settles the children of `queries` from index `k` on.
    fn speculative_children<'a>(
        &mut self,
        rec: &'a [u8],
        queries: &QueryNode,
        k: usize,
        start: usize,
        end: usize,
        level: usize,
        results: &mut Vec<Option<&'a [u8]>>,
        Ghost(cp): Ghost<Seq<int>>,
    ) -> (res: Result<bool, Error>)
        requires
            old(self).parse_inv(rec@, end as int, level as int),
            node_wf(*queries, old(self).stats@.len() as int, old(results)@.len() as int),
            depth_ok(*queries, old(self).index_builder.index@.len() - level),
            old(self).colon_positions@[level as int]@.len() == cp.len(),
            forall|j: int|
                0 <= j < cp.len() ==> #[trigger] old(self).colon_positions@[level as int]@[j] as int
                    == cp[j],
            forall|j: int| 0 <= j < cp.len() ==> start as int <= #[trigger] cp[j] <= end as int,
            cp.len() <= end as int + 1,
            k <= queries.children@.len(),
        ensures
            final(self).index_builder == old(self).index_builder,
            final(self).stats == old(self).stats,
            final(self).colon_positions@.len() == old(self).colon_positions@.len(),
            forall|l: int|
                0 <= l <= level ==> #[trigger] final(self).colon_positions@[l] == old(
                    self,
                ).colon_positions@[l],
            final(results)@.len() == old(results)@.len(),
            ({
                let out = spec_children(
                    rec@,
                    rows(old(self).index_builder.index@),
                    old(self).index_builder.b_quote@,
                    *queries,
                    k as int,
                    cp,
                    start as int,
                    end as int,
                    level as int,
                    lift_stats(old(self).stats@),
                    lift_results(old(results)@),
                );
                &&& (res is Ok <==> !out.failed)
                &&& (res matches Ok(b) ==> b == out.matched && lift_results(final(results)@)
                    == out.results)
            }),
            res matches Err(e) ==> e.spec_kind() == ErrorKind::InvalidRecord,
        decreases old(self).index_builder.index@.len() - level, queries.children@.len() - k + 1,
            0int,
    {
        if k == queries.num_children() {
            return Ok(true);
        }
        proof {
            crate::query::lemma_wf_index(
                *queries,
                queries.children@.len() as int,
                self.stats@.len() as int,
                results@.len() as int,
                k as int,
            );
            crate::query::lemma_depth_index(
                *queries,
                queries.children@.len() as int,
                self.index_builder.index@.len() - level,
                k as int,
            );
        }
        let r1 = self.speculative_candidates(rec, queries, k, 0, start, end, level, results, Ghost(cp));
        match r1 {
            Err(e) => Err(e),
            Ok(false) => Ok(false),
            Ok(true) => self.speculative_children(
                rec,
                queries,
                k + 1,
                start,
                end,
                level,
                results,
                Ghost(cp),
            ),
        }
    }

    /// Tries the trained colon indices of child `k` from candidate `j` on.
    #[verifier::rlimit(100)]
    fn speculative_candidates<'a>(
        &mut self,
        rec: &'a [u8],
        queries: &QueryNode,
        k: usize,
        j: usize,
        start: usize,
        end: usize,
        level: usize,
        results: &mut Vec<Option<&'a [u8]>>,
        Ghost(cp): Ghost<Seq<int>>,
    ) -> (res: Result<bool, Error>)
        requires
            old(self).parse_inv(rec@, end as int, level as int),
            node_wf(*queries, old(self).stats@.len() as int, old(results)@.len() as int),
            depth_ok(*queries, old(self).index_builder.index@.len() - level),
            old(self).colon_positions@[level as int]@.len() == cp.len(),
            forall|m: int|
                0 <= m < cp.len() ==> #[trigger] old(self).colon_positions@[level as int]@[m] as int
                    == cp[m],
            forall|m: int| 0 <= m < cp.len() ==> start as int <= #[trigger] cp[m] <= end as int,
            cp.len() <= end as int + 1,
            k < queries.children@.len(),
            queries.children@[k as int].1.node_id is Some,
            queries.children@[k as int].1.node_id.unwrap() < old(self).stats@.len(),
            j <= lift_stats(old(self).stats@)[queries.children@[k as int].1.node_id.unwrap() as int].len(),
        ensures
            final(self).index_builder == old(self).index_builder,
            final(self).stats == old(self).stats,
            final(self).colon_positions@.len() == old(self).colon_positions@.len(),
            forall|l: int|
                0 <= l <= level ==> #[trigger] final(self).colon_positions@[l] == old(
                    self,
                ).colon_positions@[l],
            final(results)@.len() == old(results)@.len(),
            ({
                let out = spec_candidates(
                    rec@,
                    rows(old(self).index_builder.index@),
                    old(self).index_builder.b_quote@,
                    *queries,
                    k as int,
                    j as int,
                    lift_stats(old(self).stats@)[queries.children@[k as int].1.node_id.unwrap() as int],
                    cp,
                    start as int,
                    end as int,
                    level as int,
                    lift_stats(old(self).stats@),
                    lift_results(old(results)@),
                );
                &&& (res is Ok <==> !out.failed)
                &&& (res matches Ok(b) ==> b == out.matched && lift_results(final(results)@)
                    == out.results)
            }),
            res matches Err(e) ==> e.spec_kind() == ErrorKind::InvalidRecord,
        decreases old(self).index_builder.index@.len() - level, queries.children@.len() - k,
            lift_stats(old(self).stats@)[queries.children@[k as int].1.node_id.unwrap() as int].len()
                - j + 1,
    {
        let ghost ix = rows(self.index_builder.index@);
        let ghost bq = self.index_builder.b_quote@;
        let ghost stats0 = lift_stats(self.stats@);
        let ghost res0 = lift_results(results@);
        let ghost cand = stats0[queries.children@[k as int].1.node_id.unwrap() as int];
        proof {
            crate::query::lemma_wf_index(
                *queries,
                queries.children@.len() as int,
                self.stats@.len() as int,
                results@.len() as int,
                k as int,
            );
            crate::query::lemma_depth_index(
                *queries,
                queries.children@.len() as int,
                self.index_builder.index@.len() - level,
                k as int,
            );
        }
        let children = queries.iter();
        let child = &children[k].1;
        let id = child.id();
        if j == self.stats[id].len() {
            return Ok(false);
        }
        let i: usize = self.stats[id][j];
        let cplen = self.colon_positions[level].len();
        proof {
            assert(cand[j as int] == i);
        }
        if i >= cplen {
            return self.speculative_candidates(
                rec,
                queries,
                k,
                j + 1,
                start,
                end,
                level,
                results,
                Ghost(cp),
            );
        }
        let cp_i = self.colon_positions[level][i];
        let prev: usize = if i > 0 {
            self.colon_positions[level][i - 1]
        } else {
            start
        };
        let fse = search_pre_field_indices(self.index_builder.b_quote.as_slice(), prev, cp_i);
        let (fsi, fei) = match fse {
            Ok(r) => r,
            Err(e) => {
                return Err(e);
            },
        };
        proof {
            lemma_pre_field_bounds(bq, prev as int, cp_i as int);
        }
        let field = vstd::slice::slice_subrange(rec, fsi + 1, fei);
        if !crate::query::bytes_eq(&children[k].0, field) {
            return self.speculative_candidates(
                rec,
                queries,
                k,
                j + 1,
                start,
                end,
                level,
                results,
                Ghost(cp),
            );
        }
        let vei: usize;
        if i < cplen - 1 {
            let next = self.colon_positions[level][i + 1];
            let nf = search_pre_field_indices(self.index_builder.b_quote.as_slice(), cp_i, next);
            match nf {
                Ok(r) => {
                    proof {
                        lemma_pre_field_bounds(bq, cp_i as int, next as int);
                    }
                    vei = r.0 - 1;
                },
                Err(e) => {
                    return Err(e);
                },
            }
        } else {
            vei = end;
        }
        let terminator: u8 = if i == cplen - 1 {
            RIGHT_BRACE
        } else {
            COMMA
        };
        let pv = search_post_value_indices(rec, cp_i + 1, vei, terminator);
        let (vsi, vei2) = match pv {
            Ok(r) => r,
            Err(e) => {
                return Err(e);
            },
        };
        proof {
            lemma_post_value_bounds(rec@, cp_i as int + 1, vei as int, terminator);
        }
        let found: bool;
        let ixlen = self.index_builder.index.len();
        if child.num_children() > 0 {
            let r = self.speculative_parse(rec, child, vsi, vei2, level + 1, results);
            match r {
                Ok(b) => {
                    found = b;
                },
                Err(e) => {
                    return Err(e);
                },
            }
        } else {
            found = true;
        }
        let ghost sub = SpecOut {
            failed: false,
            matched: found,
            results: lift_results(results@),
        };
        match child.path_id() {
            Some(rid) => {
                let ghost pre_res = results@;
                let v = vstd::slice::slice_subrange(rec, vsi, vei2 + 1);
                results.set(rid, Some(v));
                proof {
                    assert(lift_results(results@) =~= lift_results(pre_res).update(
                        rid as int,
                        Some(rec@.subrange(vsi as int, vei2 as int + 1)),
                    ));
                }
            },
            None => {},
        }
        proof {
            let out = spec_candidates(
                rec@,
                ix,
                bq,
                *queries,
                k as int,
                j as int,
                cand,
                cp,
                start as int,
                end as int,
                level as int,
                stats0,
                res0,
            );
            assert(out == SpecOut { failed: false, matched: found, results: lift_results(results@) });
        }
        Ok(found)
    }
}


/// With training off, a basic parse leaves the statistics untouched: only
/// the `set_stats` mode writes them, and nothing reads them.
pub proof fn lemma_basic_stats_frozen_spec(
    rec: Seq<u8>,
    index: Seq<Seq<u64>>,
    bq: Seq<u64>,
    node: QueryNode,
    start: int,
    end: int,
    level: int,
    st: ExtractState,
)
    ensures
        basic_spec(rec, index, bq, node, start, end, level, false, st).stats == st.stats,
    decreases (if index.len() >= level { index.len() - level + 1 } else { 0 }), 0int,
{
    if 0 <= level < index.len() {
        let cp = cps(index[level], start, end);
        lemma_basic_stats_frozen_iter(
            rec,
            index,
            bq,
            node,
            cp,
            cp.len() - 1,
            start,
            end,
            0,
            level,
            st,
        );
    }
}

/// The per-step half of the statistics-freezing argument.
pub proof fn lemma_basic_stats_frozen_iter(
    rec: Seq<u8>,
    index: Seq<Seq<u64>>,
    bq: Seq<u64>,
    node: QueryNode,
    cp: Seq<int>,
    i: int,
    start: int,
    vei: int,
    found: int,
    level: int,
    st: ExtractState,
)
    ensures
        basic_iter_spec(rec, index, bq, node, cp, i, start, vei, found, level, false, st).stats
            == st.stats,
    decreases (if index.len() >= level { index.len() - level } else { 0 }), (if i >= 0 {
        i + 1
    } else {
        0
    }),
{
    if st.failed || i < 0 || !(0 <= level < index.len()) || i >= cp.len() {
    } else {
        let pf = pre_field_spec(bq, if i > 0 { cp[i - 1] } else { start }, cp[i]);
        if pf is Some {
            let fse = pf.unwrap();
            let fsi = fse.0;
            let fei = fse.1;
            let field = rec.subrange(fsi + 1, fei);
            let ci = find_idx(node.children@, field);
            if ci < 0 {
                lemma_basic_stats_frozen_iter(
                    rec,
                    index,
                    bq,
                    node,
                    cp,
                    i - 1,
                    start,
                    fsi - 1,
                    found,
                    level,
                    st,
                );
            } else {
                let child = node.children@[ci].1;
                let pv = post_value_spec(
                    rec,
                    cp[i] + 1,
                    vei,
                    if i == cp.len() - 1 {
                        RIGHT_BRACE
                    } else {
                        COMMA
                    },
                );
                if pv is Some {
                    let v = pv.unwrap();
                    let st1 = st;
                    let st2 = if child.children@.len() > 0 {
                        lemma_basic_stats_frozen_spec(
                            rec,
                            index,
                            bq,
                            child,
                            v.0,
                            v.1,
                            level + 1,
                            st1,
                        );
                        basic_spec(rec, index, bq, child, v.0, v.1, level + 1, false, st1)
                    } else {
                        st1
                    };
                    if !st2.failed {
                        let st3 = if child.path_id is Some && 0 <= child.path_id.unwrap()
                            < st2.results.len() {
                            ExtractState {
                                results: st2.results.update(
                                    child.path_id.unwrap() as int,
                                    Some(rec.subrange(v.0, v.1 + 1)),
                                ),
                                ..st2
                            }
                        } else {
                            st2
                        };
                        if found + 1 == node.children@.len() {
                        } else {
                            lemma_basic_stats_frozen_iter(
                                rec,
                                index,
                                bq,
                                node,
                                cp,
                                i - 1,
                                start,
                                fsi - 1,
                                found + 1,
                                level,
                                st3,
                            );
                        }
                    }
                }
            }
        }
    }
}


/// The extraction never reads the statistics: two basic parses that start
/// from the same failure flag and result vector end with the same flag and
/// results, whatever their statistics hold.
pub proof fn lemma_basic_results_blind_spec(
    rec: Seq<u8>,
    index: Seq<Seq<u64>>,
    bq: Seq<u64>,
    node: QueryNode,
    start: int,
    end: int,
    level: int,
    set_stats: bool,
    sta: ExtractState,
    stb: ExtractState,
)
    requires
        sta.failed == stb.failed,
        sta.results == stb.results,
    ensures
        basic_spec(rec, index, bq, node, start, end, level, set_stats, sta).failed == basic_spec(
            rec,
            index,
            bq,
            node,
            start,
            end,
            level,
            set_stats,
            stb,
        ).failed,
        basic_spec(rec, index, bq, node, start, end, level, set_stats, sta).results == basic_spec(
            rec,
            index,
            bq,
            node,
            start,
            end,
            level,
            set_stats,
            stb,
        ).results,
    decreases (if index.len() >= level { index.len() - level + 1 } else { 0 }), 0int,
{
    if 0 <= level < index.len() {
        let cp = cps(index[level], start, end);
        lemma_basic_results_blind_iter(
            rec,
            index,
            bq,
            node,
            cp,
            cp.len() - 1,
            start,
            end,
            0,
            level,
            set_stats,
            sta,
            stb,
        );
    }
}

/// The per-step half of the statistics-blindness argument.
pub proof fn lemma_basic_results_blind_iter(
    rec: Seq<u8>,
    index: Seq<Seq<u64>>,
    bq: Seq<u64>,
    node: QueryNode,
    cp: Seq<int>,
    i: int,
    start: int,
    vei: int,
    found: int,
    level: int,
    set_stats: bool,
    sta: ExtractState,
    stb: ExtractState,
)
    requires
        sta.failed == stb.failed,
        sta.results == stb.results,
    ensures
        basic_iter_spec(rec, index, bq, node, cp, i, start, vei, found, level, set_stats, sta).failed
            == basic_iter_spec(
            rec,
            index,
            bq,
            node,
            cp,
            i,
            start,
            vei,
            found,
            level,
            set_stats,
            stb,
        ).failed,
        basic_iter_spec(
            rec,
            index,
            bq,
            node,
            cp,
            i,
            start,
            vei,
            found,
            level,
            set_stats,
            sta,
        ).results == basic_iter_spec(
            rec,
            index,
            bq,
            node,
            cp,
            i,
            start,
            vei,
            found,
            level,
            set_stats,
            stb,
        ).results,
    decreases (if index.len() >= level { index.len() - level } else { 0 }), (if i >= 0 {
        i + 1
    } else {
        0
    }),
{
    if sta.failed || i < 0 || !(0 <= level < index.len()) || i >= cp.len() {
    } else {
        let pf = pre_field_spec(bq, if i > 0 { cp[i - 1] } else { start }, cp[i]);
        if pf is Some {
            let fse = pf.unwrap();
            let fsi = fse.0;
            let fei = fse.1;
            let field = rec.subrange(fsi + 1, fei);
            let ci = find_idx(node.children@, field);
            if ci < 0 {
                lemma_basic_results_blind_iter(
                    rec,
                    index,
                    bq,
                    node,
                    cp,
                    i - 1,
                    start,
                    fsi - 1,
                    found,
                    level,
                    set_stats,
                    sta,
                    stb,
                );
            } else {
                let child = node.children@[ci].1;
                let pv = post_value_spec(
                    rec,
                    cp[i] + 1,
                    vei,
                    if i == cp.len() - 1 {
                        RIGHT_BRACE
                    } else {
                        COMMA
                    },
                );
                if pv is Some {
                    let v = pv.unwrap();
                    let sta1 = if set_stats && child.node_id is Some {
                        ExtractState {
                            stats: stats_insert(sta.stats, child.node_id.unwrap() as int, i as usize),
                            ..sta
                        }
                    } else {
                        sta
                    };
                    let stb1 = if set_stats && child.node_id is Some {
                        ExtractState {
                            stats: stats_insert(stb.stats, child.node_id.unwrap() as int, i as usize),
                            ..stb
                        }
                    } else {
                        stb
                    };
                    if child.children@.len() > 0 {
                        lemma_basic_results_blind_spec(
                            rec,
                            index,
                            bq,
                            child,
                            v.0,
                            v.1,
                            level + 1,
                            set_stats,
                            sta1,
                            stb1,
                        );
                    }
                    let sta2 = if child.children@.len() > 0 {
                        basic_spec(rec, index, bq, child, v.0, v.1, level + 1, set_stats, sta1)
                    } else {
                        sta1
                    };
                    let stb2 = if child.children@.len() > 0 {
                        basic_spec(rec, index, bq, child, v.0, v.1, level + 1, set_stats, stb1)
                    } else {
                        stb1
                    };
                    if !sta2.failed {
                        let sta3 = if child.path_id is Some && 0 <= child.path_id.unwrap()
                            < sta2.results.len() {
                            ExtractState {
                                results: sta2.results.update(
                                    child.path_id.unwrap() as int,
                                    Some(rec.subrange(v.0, v.1 + 1)),
                                ),
                                ..sta2
                            }
                        } else {
                            sta2
                        };
                        let stb3 = if child.path_id is Some && 0 <= child.path_id.unwrap()
                            < stb2.results.len() {
                            ExtractState {
                                results: stb2.results.update(
                                    child.path_id.unwrap() as int,
                                    Some(rec.subrange(v.0, v.1 + 1)),
                                ),
                                ..stb2
                            }
                        } else {
                            stb2
                        };
                        if found + 1 == node.children@.len() {
                        } else {
                            lemma_basic_results_blind_iter(
                                rec,
                                index,
                                bq,
                                node,
                                cp,
                                i - 1,
                                start,
                                fsi - 1,
                                found + 1,
                                level,
                                set_stats,
                                sta3,
                                stb3,
                            );
                        }
                    }
                }
            }
        }
    }
}

/// Basic-parse idempotence with training off: the statistics are neither
/// read nor written then, so a second run over the same record from a fresh
/// result vector returns exactly the results of the first.
pub proof fn lemma_basic_parse_idempotent(
    rec: Seq<u8>,
    index: Seq<Seq<u64>>,
    bq: Seq<u64>,
    node: QueryNode,
    start: int,
    end: int,
    level: int,
    init: Seq<Option<Seq<u8>>>,
    stats1: Seq<Seq<usize>>,
    stats2: Seq<Seq<usize>>,
)
    ensures
        basic_spec(
            rec,
            index,
            bq,
            node,
            start,
            end,
            level,
            false,
            ExtractState { failed: false, results: init, stats: stats1 },
        ).results == basic_spec(
            rec,
            index,
            bq,
            node,
            start,
            end,
            level,
            false,
            ExtractState { failed: false, results: init, stats: stats2 },
        ).results,
        basic_spec(
            rec,
            index,
            bq,
            node,
            start,
            end,
            level,
            false,
            ExtractState { failed: false, results: init, stats: stats1 },
        ).stats == stats1,
{
    lemma_basic_results_blind_spec(
        rec,
        index,
        bq,
        node,
        start,
        end,
        level,
        false,
        ExtractState { failed: false, results: init, stats: stats1 },
        ExtractState { failed: false, results: init, stats: stats2 },
    );
    lemma_basic_stats_frozen_spec(
        rec,
        index,
        bq,
        node,
        start,
        end,
        level,
        ExtractState { failed: false, results: init, stats: stats1 },
    );
}

} // verus!
