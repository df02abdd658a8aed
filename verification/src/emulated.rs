//! Word-parallel emulation of 256-bit byte comparison: the portable
//! byte-match backend.
//!
//! A block holds 32 record bytes in four 64-bit words; within a word the
//! first record byte sits in the most significant lane.
use vstd::prelude::*;

use crate::bit::bit64;

verus! {

#[allow(non_camel_case_types)]
pub type m256i = [u64; 4];

/// Byte lane `j` of a word, counted from the most significant lane, so that
/// lane `j` holds the `j`-th record byte packed into the word.
pub open spec fn be_byte(w: u64, j: u64) -> u64 {
    (w >> (((7 - j) * 8) as u64)) & 0xffu64
}

/// Record byte `c` of a 32-byte block.
pub open spec fn block_byte(b: m256i, c: int) -> u64 {
    be_byte(b[c / 8], (c % 8) as u64)
}

/// Record byte `q` of a whole block vector.
pub open spec fn stream_byte(s: Seq<m256i>, q: int) -> u64 {
    block_byte(s[q / 32], (q % 32) as int)
}

/// Eight bytes packed into one word, first byte topmost.
pub open spec fn be_pack(b0: u8, b1: u8, b2: u8, b3: u8, b4: u8, b5: u8, b6: u8, b7: u8) -> u64 {
    ((b0 as u64) << 56u64) | ((b1 as u64) << 48u64) | ((b2 as u64) << 40u64) | ((b3 as u64)
        << 32u64) | ((b4 as u64) << 24u64) | ((b5 as u64) << 16u64) | ((b6 as u64) << 8u64) | (
    b7 as u64)
}

/// Packing then reading a lane gives the byte back.
proof fn lemma_be_pack_byte(b0: u8, b1: u8, b2: u8, b3: u8, b4: u8, b5: u8, b6: u8, b7: u8, j: u64)
    by (bit_vector)
    requires
        j < 8,
    ensures
        be_byte(be_pack(b0, b1, b2, b3, b4, b5, b6, b7), j) == (if j == 0 {
            b0
        } else if j == 1 {
            b1
        } else if j == 2 {
            b2
        } else if j == 3 {
            b3
        } else if j == 4 {
            b4
        } else if j == 5 {
            b5
        } else if j == 6 {
            b6
        } else {
            b7
        }) as u64,
{
}

/// A byte splat fills every lane with that byte.
proof fn lemma_splat_byte(b: u64, j: u64)
    by (bit_vector)
    requires
        b < 256,
        j < 8,
    ensures
        be_byte((b * 0x0101_0101_0101_0101u64) as u64, j) == b,
        b * 0x0101_0101_0101_0101u64 <= 0xffff_ffff_ffff_ffffu64,
{
}

/// A block whose 32 lanes all hold byte `x`.
pub fn mm256i(x: i8) -> (res: m256i)
    ensures
        forall|c: int| 0 <= c < 32 ==> #[trigger] block_byte(res, c) == (x as u8) as u64,
{
    let b: u64 = (x as u8) as u64;
    proof {
        lemma_splat_byte(b, 0);
    }
    let w: u64 = b * 0x0101_0101_0101_0101u64;
    let res: m256i = [w, w, w, w];
    proof {
        assert forall|c: int| 0 <= c < 32 implies #[trigger] block_byte(res, c) == b by {
            vstd::arithmetic::div_mod::lemma_div_pos_is_pos(c, 8);
            vstd::arithmetic::div_mod::lemma_mod_bound(c, 8);
            assert(c / 8 < 4) by (nonlinear_arith)
                requires
                    0 <= c < 32,
            ;
            lemma_splat_byte(b, (c % 8) as u64);
        }
    }
    res
}

/// Packs eight bytes into one word, first byte topmost.
fn pack_word(b0: u8, b1: u8, b2: u8, b3: u8, b4: u8, b5: u8, b6: u8, b7: u8) -> (res: u64)
    ensures
        res == be_pack(b0, b1, b2, b3, b4, b5, b6, b7),
        forall|j: u64| j < 8 ==> #[trigger] be_byte(res, j) == (if j == 0 {
            b0
        } else if j == 1 {
            b1
        } else if j == 2 {
            b2
        } else if j == 3 {
            b3
        } else if j == 4 {
            b4
        } else if j == 5 {
            b5
        } else if j == 6 {
            b6
        } else {
            b7
        }) as u64,
{
    proof {
        assert forall|j: u64| j < 8 implies #[trigger] be_byte(
            be_pack(b0, b1, b2, b3, b4, b5, b6, b7),
            j,
        ) == (if j == 0 {
            b0
        } else if j == 1 {
            b1
        } else if j == 2 {
            b2
        } else if j == 3 {
            b3
        } else if j == 4 {
            b4
        } else if j == 5 {
            b5
        } else if j == 6 {
            b6
        } else {
            b7
        }) as u64 by {
            lemma_be_pack_byte(b0, b1, b2, b3, b4, b5, b6, b7, j);
        }
    }
    ((b0 as u64) << 56u64) | ((b1 as u64) << 48u64) | ((b2 as u64) << 40u64) | ((b3 as u64)
        << 32u64) | ((b4 as u64) << 24u64) | ((b5 as u64) << 16u64) | ((b6 as u64) << 8u64) | (
    b7 as u64)
}

/// Reads eight bytes of `s` starting at `off` into one word, first byte
/// topmost.
pub fn slice_to_u64(s: &[u8], off: usize) -> (res: u64)
    requires
        off + 8 <= s.len(),
    ensures
        forall|j: u64| j < 8 ==> #[trigger] be_byte(res, j) == s[off + j] as u64,
{
    pack_word(
        s[off],
        s[off + 1],
        s[off + 2],
        s[off + 3],
        s[off + 4],
        s[off + 5],
        s[off + 6],
        s[off + 7],
    )
}

/// The word index and lane of a block byte.
proof fn lemma_block_lane(c: int)
    by (nonlinear_arith)
    requires
        0 <= c < 32,
    ensures
        0 <= c / 8 < 4,
        0 <= c % 8 < 8,
        c == 8 * (c / 8) + c % 8,
{
}

/// Loads 32 bytes of `s` starting at `i` into a block.
pub fn u8_to_m256i(s: &[u8], i: usize) -> (res: m256i)
    requires
        i + 32 <= s.len(),
    ensures
        forall|c: int| 0 <= c < 32 ==> #[trigger] block_byte(res, c) == s[i + c] as u64,
{
    let w0 = slice_to_u64(s, i);
    let w1 = slice_to_u64(s, i + 8);
    let w2 = slice_to_u64(s, i + 16);
    let w3 = slice_to_u64(s, i + 24);
    let res: m256i = [w0, w1, w2, w3];
    proof {
        assert forall|c: int| 0 <= c < 32 implies #[trigger] block_byte(res, c) == s[i + c] as u64
            by {
            lemma_block_lane(c);
        }
    }
    res
}

/// Loads the bytes of `s` from `i` to its end into a block, padding the
/// lanes past the end with zero.
pub fn u8_to_m256i_rest(s: &[u8], i: usize) -> (res: m256i)
    requires
        i <= s.len(),
        i + 32 <= usize::MAX,
    ensures
        forall|c: int|
            0 <= c < 32 ==> #[trigger] block_byte(res, c) == if i + c < s.len() {
                s[i + c] as u64
            } else {
                0
            },
{
    let w0 = pack_rest(s, i);
    let w1 = pack_rest(s, i + 8);
    let w2 = pack_rest(s, i + 16);
    let w3 = pack_rest(s, i + 24);
    let res: m256i = [w0, w1, w2, w3];
    proof {
        assert forall|c: int|
            0 <= c < 32 implies #[trigger] block_byte(res, c) == (if i + c < s.len() {
            s[i + c] as u64
        } else {
            0
        }) by {
            lemma_block_lane(c);
        }
    }
    res
}

/// The byte of `s` at `q`, or zero past the end.
fn byte_or_zero(s: &[u8], q: usize) -> (res: u8)
    ensures
        res as u64 == if q < s.len() {
            s[q as int] as u64
        } else {
            0
        },
{
    if q < s.len() {
        s[q]
    } else {
        0
    }
}

/// Packs the eight bytes of `s` starting at `off`, zero past the end.
fn pack_rest(s: &[u8], off: usize) -> (res: u64)
    requires
        off <= usize::MAX - 8,
    ensures
        forall|j: u64|
            j < 8 ==> #[trigger] be_byte(res, j) == if off + j < s.len() {
                s[off + j] as u64
            } else {
                0
            },
{
    pack_word(
        byte_or_zero(s, off),
        byte_or_zero(s, off + 1),
        byte_or_zero(s, off + 2),
        byte_or_zero(s, off + 3),
        byte_or_zero(s, off + 4),
        byte_or_zero(s, off + 5),
        byte_or_zero(s, off + 6),
        byte_or_zero(s, off + 7),
    )
}

/// The word-parallel equal-byte test: lanes whose bytes agree read 1, the
/// others 0.
proof fn lemma_bytewise_equal(x: u64, y: u64, j: u64)
    by (bit_vector)
    requires
        j < 8,
    ensures
        be_byte(
            !(((((x ^ y) & 0x7f7f_7f7f_7f7f_7f7fu64) + 0x7f7f_7f7f_7f7f_7f7fu64) as u64 | (x ^ y))
                >> 7u64) & 0x0101_0101_0101_0101u64,
            j,
        ) == (if be_byte(x, j) == be_byte(y, j) {
            1u64
        } else {
            0u64
        }),
        ((x ^ y) & 0x7f7f_7f7f_7f7f_7f7fu64) + 0x7f7f_7f7f_7f7f_7f7fu64
            <= 0xffff_ffff_ffff_ffffu64,
        (!(((((x ^ y) & 0x7f7f_7f7f_7f7f_7f7fu64) + 0x7f7f_7f7f_7f7f_7f7fu64) as u64 | (x ^ y))
            >> 7u64) & 0x0101_0101_0101_0101u64) & 0xfefe_fefe_fefe_fefeu64 == 0,
{
}

/// Compares two words lane by lane: equal lanes read 1, unequal lanes 0.
fn bytewise_equal(x: u64, y: u64) -> (res: u64)
    ensures
        forall|j: u64|
            j < 8 ==> #[trigger] be_byte(res, j) == (if be_byte(x, j) == be_byte(y, j) {
                1u64
            } else {
                0u64
            }),
        res & 0xfefe_fefe_fefe_fefeu64 == 0,
{
    proof {
        lemma_bytewise_equal(x, y, 0);
    }
    let z = x ^ y;
    let t = (z & 0x7f7f_7f7f_7f7f_7f7fu64) + 0x7f7f_7f7f_7f7f_7f7fu64;
    let res = !((t | z) >> 7u64) & 0x0101_0101_0101_0101u64;
    proof {
        assert forall|j: u64|
            j < 8 implies #[trigger] be_byte(res, j) == (if be_byte(x, j) == be_byte(y, j) {
            1u64
        } else {
            0u64
        }) by {
            lemma_bytewise_equal(x, y, j);
        }
    }
    res
}

/// Compares two blocks byte by byte: equal positions read 1, unequal 0.
pub fn mm256_cmpeq_epi8(x: m256i, y: m256i) -> (res: m256i)
    ensures
        forall|c: int|
            0 <= c < 32 ==> #[trigger] block_byte(res, c) == (if block_byte(x, c) == block_byte(
                y,
                c,
            ) {
                1u64
            } else {
                0u64
            }),
        forall|wd: int| 0 <= wd < 4 ==> (#[trigger] res[wd]) & 0xfefe_fefe_fefe_fefeu64 == 0,
{
    let res: m256i = [
        bytewise_equal(x[0], y[0]),
        bytewise_equal(x[1], y[1]),
        bytewise_equal(x[2], y[2]),
        bytewise_equal(x[3], y[3]),
    ];
    proof {
        assert forall|c: int|
            0 <= c < 32 implies #[trigger] block_byte(res, c) == (if block_byte(x, c) == block_byte(
            y,
            c,
        ) {
            1u64
        } else {
            0u64
        }) by {
            lemma_block_lane(c);
        }
    }
    res
}

/// One word's worth of mask bits: bit `k` of the result is the low bit of
/// lane `k`, gathered by the multiply below.
proof fn lemma_movemask_word(w: u64, m: u64, k: u64)
    by (bit_vector)
    requires
        k < 8,
        w & 0xfefe_fefe_fefe_fefeu64 == 0,
        m as int == (w * 0x8040_2010_0804_0201u64) % 0x1_0000_0000_0000_0000,
    ensures
        bit64((m >> 56u64) & 0xffu64, k) <==> be_byte(w, k) == 1,
        (m >> 56u64) & 0xffu64 < 256,
{
}

/// Gathers the low bit of each of the eight lanes of `w` into one byte; bit
/// `k` of the byte comes from lane `k`.
fn movemask_word(w: u64) -> (res: u64)
    requires
        w & 0xfefe_fefe_fefe_fefeu64 == 0,
    ensures
        res < 256,
        forall|k: u64| k < 8 ==> (#[trigger] bit64(res, k) <==> be_byte(w, k) == 1),
{
    let m = w.wrapping_mul(0x8040_2010_0804_0201u64);
    let res = (m >> 56u64) & 0xffu64;
    proof {
        assert(m as int == (w * 0x8040_2010_0804_0201u64) % 0x1_0000_0000_0000_0000);
        assert forall|k: u64| k < 8 implies (#[trigger] bit64(res, k) <==> be_byte(w, k) == 1) by {
            lemma_movemask_word(w, m, k);
        }
        lemma_movemask_word(w, m, 0);
    }
    res
}

/// How the four gathered bytes sit in the 32-bit mask.
proof fn lemma_mask_combine(b0: u64, b1: u64, b2: u64, b3: u64, k: u64)
    by (bit_vector)
    requires
        b0 < 256,
        b1 < 256,
        b2 < 256,
        b3 < 256,
        k < 32,
    ensures
        b0 | (b1 << 8u64) | (b2 << 16u64) | (b3 << 24u64) < 0x1_0000_0000,
        bit64(b0 | (b1 << 8u64) | (b2 << 16u64) | (b3 << 24u64), k) <==> (if k < 8 {
            bit64(b0, k)
        } else if k < 16 {
            bit64(b1, (k - 8) as u64)
        } else if k < 24 {
            bit64(b2, (k - 16) as u64)
        } else {
            bit64(b3, (k - 24) as u64)
        }),
{
}

/// Gathers the low bit of every byte of the block: bit `k` of the mask is
/// the low bit of block byte `k`.
pub fn mm256_movemask_epi8(x: m256i) -> (res: u32)
    requires
        forall|wd: int| 0 <= wd < 4 ==> (#[trigger] x[wd]) & 0xfefe_fefe_fefe_fefeu64 == 0,
    ensures
        forall|k: u64|
            k < 32 ==> (#[trigger] bit64(res as u64, k) <==> block_byte(x, k as int) == 1),
{
    let b0 = movemask_word(x[0]);
    let b1 = movemask_word(x[1]);
    let b2 = movemask_word(x[2]);
    let b3 = movemask_word(x[3]);
    let combined: u64 = b0 | (b1 << 8u64) | (b2 << 16u64) | (b3 << 24u64);
    proof {
        lemma_mask_combine(b0, b1, b2, b3, 0);
        assert forall|k: u64|
            k < 32 implies (#[trigger] bit64((combined as u32) as u64, k) <==> block_byte(
            x,
            k as int,
        ) == 1) by {
            lemma_mask_combine(b0, b1, b2, b3, k);
            assert((combined as u32) as u64 == combined);
            lemma_block_lane(k as int);
            assert(k as int / 8 == (k / 8) as int && (k as int) % 8 == (k % 8) as int);
            if k < 8 {
                assert(be_byte(x[0], k % 8) == block_byte(x, k as int));
            } else if k < 16 {
                assert(be_byte(x[1], k % 8) == block_byte(x, k as int));
                assert(k % 8 == (k - 8) as u64) by (bit_vector)
                    requires
                        8 <= k < 16,
                ;
            } else if k < 24 {
                assert(be_byte(x[2], k % 8) == block_byte(x, k as int));
                assert(k % 8 == (k - 16) as u64) by (bit_vector)
                    requires
                        16 <= k < 24,
                ;
            } else {
                assert(be_byte(x[3], k % 8) == block_byte(x, k as int));
                assert(k % 8 == (k - 24) as u64) by (bit_vector)
                    requires
                        24 <= k < 32,
                ;
            }
        }
    }
    combined as u32
}

} // verus!
