//! The index builder passes, checked word by word on concrete bitmaps.
use pikkr::emulated::m256i;
use pikkr::emulated::u8_to_m256i;
use pikkr::index_builder::build_leveled_colon_bitmap;
use pikkr::index_builder::build_string_mask_bitmap;
use pikkr::index_builder::build_structural_character_bitmap;
use pikkr::index_builder::build_structural_quote_bitmap;
use pikkr::emulated::mm256i;

const QUOTE: u8 = 0x22;

fn block(positions: &[usize]) -> m256i {
    let mut bytes: Vec<u8> = vec![0xff; 32];
    for &p in positions {
        bytes[p] = QUOTE;
    }
    u8_to_m256i(&bytes, 0)
}

#[test]
fn test_build_structural_character_bitmap() {
    let m = mm256i(QUOTE as i8);
    {
        let s: Vec<m256i> = vec![];
        let mut d: Vec<u64> = Vec::new();
        build_structural_character_bitmap(&s, &mut d, m);
        let want: Vec<u64> = vec![];
        assert_eq!(want, d);
    }
    {
        let s: Vec<m256i> = vec![block(&[])];
        let mut d: Vec<u64> = Vec::new();
        build_structural_character_bitmap(&s, &mut d, m);
        let want: Vec<u64> = vec![0b00000000_00000000_00000000_00000000_00000000_00000000_00000000_00000000u64];
        assert_eq!(want, d);
    }
    {
        let s: Vec<m256i> = vec![block(&[0])];
        let mut d: Vec<u64> = Vec::new();
        build_structural_character_bitmap(&s, &mut d, m);
        let want: Vec<u64> = vec![0b00000000_00000000_00000000_00000000_00000000_00000000_00000000_00000001u64];
        assert_eq!(want, d);
    }
    {
        let s: Vec<m256i> = vec![block(&[1])];
        let mut d: Vec<u64> = Vec::new();
        build_structural_character_bitmap(&s, &mut d, m);
        let want: Vec<u64> = vec![0b00000000_00000000_00000000_00000000_00000000_00000000_00000000_00000010u64];
        assert_eq!(want, d);
    }
    {
        let s: Vec<m256i> = vec![block(&[30])];
        let mut d: Vec<u64> = Vec::new();
        build_structural_character_bitmap(&s, &mut d, m);
        let want: Vec<u64> = vec![0b00000000_00000000_00000000_00000000_01000000_00000000_00000000_00000000u64];
        assert_eq!(want, d);
    }
    {
        let s: Vec<m256i> = vec![block(&[31])];
        let mut d: Vec<u64> = Vec::new();
        build_structural_character_bitmap(&s, &mut d, m);
        let want: Vec<u64> = vec![0b00000000_00000000_00000000_00000000_10000000_00000000_00000000_00000000u64];
        assert_eq!(want, d);
    }
    {
        let s: Vec<m256i> = vec![block(&[0, 1, 2, 3, 4, 5, 6, 7, 8, 9, 10, 11, 12, 13, 14, 15, 16, 17, 18, 19, 20, 21, 22, 23, 24, 25, 26, 27, 28, 29, 30, 31])];
        let mut d: Vec<u64> = Vec::new();
        build_structural_character_bitmap(&s, &mut d, m);
        let want: Vec<u64> = vec![0b00000000_00000000_00000000_00000000_11111111_11111111_11111111_11111111u64];
        assert_eq!(want, d);
    }
    {
        let s: Vec<m256i> = vec![block(&[]), block(&[])];
        let mut d: Vec<u64> = Vec::new();
        build_structural_character_bitmap(&s, &mut d, m);
        let want: Vec<u64> = vec![0b00000000_00000000_00000000_00000000_00000000_00000000_00000000_00000000u64];
        assert_eq!(want, d);
    }
    {
        let s: Vec<m256i> = vec![block(&[0]), block(&[])];
        let mut d: Vec<u64> = Vec::new();
        build_structural_character_bitmap(&s, &mut d, m);
        let want: Vec<u64> = vec![0b00000000_00000000_00000000_00000000_00000000_00000000_00000000_00000001u64];
        assert_eq!(want, d);
    }
    {
        let s: Vec<m256i> = vec![block(&[8]), block(&[])];
        let mut d: Vec<u64> = Vec::new();
        build_structural_character_bitmap(&s, &mut d, m);
        let want: Vec<u64> = vec![0b00000000_00000000_00000000_00000000_00000000_00000000_00000001_00000000u64];
        assert_eq!(want, d);
    }
    {
        let s: Vec<m256i> = vec![block(&[16]), block(&[])];
        let mut d: Vec<u64> = Vec::new();
        build_structural_character_bitmap(&s, &mut d, m);
        let want: Vec<u64> = vec![0b00000000_00000000_00000000_00000000_00000000_00000001_00000000_00000000u64];
        assert_eq!(want, d);
    }
    {
        let s: Vec<m256i> = vec![block(&[24]), block(&[])];
        let mut d: Vec<u64> = Vec::new();
        build_structural_character_bitmap(&s, &mut d, m);
        let want: Vec<u64> = vec![0b00000000_00000000_00000000_00000000_00000001_00000000_00000000_00000000u64];
        assert_eq!(want, d);
    }
    {
        let s: Vec<m256i> = vec![block(&[]), block(&[0])];
        let mut d: Vec<u64> = Vec::new();
        build_structural_character_bitmap(&s, &mut d, m);
        let want: Vec<u64> = vec![0b00000000_00000000_00000000_00000001_00000000_00000000_00000000_00000000u64];
        assert_eq!(want, d);
    }
    {
        let s: Vec<m256i> = vec![block(&[]), block(&[8])];
        let mut d: Vec<u64> = Vec::new();
        build_structural_character_bitmap(&s, &mut d, m);
        let want: Vec<u64> = vec![0b00000000_00000000_00000001_00000000_00000000_00000000_00000000_00000000u64];
        assert_eq!(want, d);
    }
    {
        let s: Vec<m256i> = vec![block(&[]), block(&[16])];
        let mut d: Vec<u64> = Vec::new();
        build_structural_character_bitmap(&s, &mut d, m);
        let want: Vec<u64> = vec![0b00000000_00000001_00000000_00000000_00000000_00000000_00000000_00000000u64];
        assert_eq!(want, d);
    }
    {
        let s: Vec<m256i> = vec![block(&[]), block(&[24])];
        let mut d: Vec<u64> = Vec::new();
        build_structural_character_bitmap(&s, &mut d, m);
        let want: Vec<u64> = vec![0b00000001_00000000_00000000_00000000_00000000_00000000_00000000_00000000u64];
        assert_eq!(want, d);
    }
    {
        let s: Vec<m256i> = vec![block(&[]), block(&[31])];
        let mut d: Vec<u64> = Vec::new();
        build_structural_character_bitmap(&s, &mut d, m);
        let want: Vec<u64> = vec![0b10000000_00000000_00000000_00000000_00000000_00000000_00000000_00000000u64];
        assert_eq!(want, d);
    }
    {
        let s: Vec<m256i> = vec![block(&[0, 1, 2, 3, 4, 5, 6, 7, 8, 9, 10, 11, 12, 13, 14, 15, 16, 17, 18, 19, 20, 21, 22, 23, 24, 25, 26, 27, 28, 29, 30, 31]), block(&[])];
        let mut d: Vec<u64> = Vec::new();
        build_structural_character_bitmap(&s, &mut d, m);
        let want: Vec<u64> = vec![0b00000000_00000000_00000000_00000000_11111111_11111111_11111111_11111111u64];
        assert_eq!(want, d);
    }
    {
        let s: Vec<m256i> = vec![block(&[]), block(&[0, 1, 2, 3, 4, 5, 6, 7, 8, 9, 10, 11, 12, 13, 14, 15, 16, 17, 18, 19, 20, 21, 22, 23, 24, 25, 26, 27, 28, 29, 30, 31])];
        let mut d: Vec<u64> = Vec::new();
        build_structural_character_bitmap(&s, &mut d, m);
        let want: Vec<u64> = vec![0b11111111_11111111_11111111_11111111_00000000_00000000_00000000_00000000u64];
        assert_eq!(want, d);
    }
    {
        let s: Vec<m256i> = vec![block(&[0, 1, 2, 3, 4, 5, 6, 7, 8, 9, 10, 11, 12, 13, 14, 15, 16, 17, 18, 19, 20, 21, 22, 23, 24, 25, 26, 27, 28, 29, 30, 31]), block(&[0, 1, 2, 3, 4, 5, 6, 7, 8, 9, 10, 11, 12, 13, 14, 15, 16, 17, 18, 19, 20, 21, 22, 23, 24, 25, 26, 27, 28, 29, 30, 31])];
        let mut d: Vec<u64> = Vec::new();
        build_structural_character_bitmap(&s, &mut d, m);
        let want: Vec<u64> = vec![0b11111111_11111111_11111111_11111111_11111111_11111111_11111111_11111111u64];
        assert_eq!(want, d);
    }
    {
        let s: Vec<m256i> = vec![block(&[]), block(&[]), block(&[])];
        let mut d: Vec<u64> = Vec::new();
        build_structural_character_bitmap(&s, &mut d, m);
        let want: Vec<u64> = vec![0b00000000_00000000_00000000_00000000_00000000_00000000_00000000_00000000u64, 0b00000000_00000000_00000000_00000000_00000000_00000000_00000000_00000000u64];
        assert_eq!(want, d);
    }
    {
        let s: Vec<m256i> = vec![block(&[0]), block(&[]), block(&[])];
        let mut d: Vec<u64> = Vec::new();
        build_structural_character_bitmap(&s, &mut d, m);
        let want: Vec<u64> = vec![0b00000000_00000000_00000000_00000000_00000000_00000000_00000000_00000001u64, 0b00000000_00000000_00000000_00000000_00000000_00000000_00000000_00000000u64];
        assert_eq!(want, d);
    }
    {
        let s: Vec<m256i> = vec![block(&[17]), block(&[]), block(&[])];
        let mut d: Vec<u64> = Vec::new();
        build_structural_character_bitmap(&s, &mut d, m);
        let want: Vec<u64> = vec![0b00000000_00000000_00000000_00000000_00000000_00000010_00000000_00000000u64, 0b00000000_00000000_00000000_00000000_00000000_00000000_00000000_00000000u64];
        assert_eq!(want, d);
    }
    {
        let s: Vec<m256i> = vec![block(&[31]), block(&[]), block(&[])];
        let mut d: Vec<u64> = Vec::new();
        build_structural_character_bitmap(&s, &mut d, m);
        let want: Vec<u64> = vec![0b00000000_00000000_00000000_00000000_10000000_00000000_00000000_00000000u64, 0b00000000_00000000_00000000_00000000_00000000_00000000_00000000_00000000u64];
        assert_eq!(want, d);
    }
    {
        let s: Vec<m256i> = vec![block(&[]), block(&[0]), block(&[])];
        let mut d: Vec<u64> = Vec::new();
        build_structural_character_bitmap(&s, &mut d, m);
        let want: Vec<u64> = vec![0b00000000_00000000_00000000_00000001_00000000_00000000_00000000_00000000u64, 0b00000000_00000000_00000000_00000000_00000000_00000000_00000000_00000000u64];
        assert_eq!(want, d);
    }
    {
        let s: Vec<m256i> = vec![block(&[]), block(&[13]), block(&[])];
        let mut d: Vec<u64> = Vec::new();
        build_structural_character_bitmap(&s, &mut d, m);
        let want: Vec<u64> = vec![0b00000000_00000000_00100000_00000000_00000000_00000000_00000000_00000000u64, 0b00000000_00000000_00000000_00000000_00000000_00000000_00000000_00000000u64];
        assert_eq!(want, d);
    }
    {
        let s: Vec<m256i> = vec![block(&[]), block(&[31]), block(&[])];
        let mut d: Vec<u64> = Vec::new();
        build_structural_character_bitmap(&s, &mut d, m);
        let want: Vec<u64> = vec![0b10000000_00000000_00000000_00000000_00000000_00000000_00000000_00000000u64, 0b00000000_00000000_00000000_00000000_00000000_00000000_00000000_00000000u64];
        assert_eq!(want, d);
    }
    {
        let s: Vec<m256i> = vec![block(&[]), block(&[]), block(&[0])];
        let mut d: Vec<u64> = Vec::new();
        build_structural_character_bitmap(&s, &mut d, m);
        let want: Vec<u64> = vec![0b00000000_00000000_00000000_00000000_00000000_00000000_00000000_00000000u64, 0b00000000_00000000_00000000_00000000_00000000_00000000_00000000_00000001u64];
        assert_eq!(want, d);
    }
    {
        let s: Vec<m256i> = vec![block(&[]), block(&[]), block(&[9])];
        let mut d: Vec<u64> = Vec::new();
        build_structural_character_bitmap(&s, &mut d, m);
        let want: Vec<u64> = vec![0b00000000_00000000_00000000_00000000_00000000_00000000_00000000_00000000u64, 0b00000000_00000000_00000000_00000000_00000000_00000000_00000010_00000000u64];
        assert_eq!(want, d);
    }
    {
        let s: Vec<m256i> = vec![block(&[]), block(&[]), block(&[19])];
        let mut d: Vec<u64> = Vec::new();
        build_structural_character_bitmap(&s, &mut d, m);
        let want: Vec<u64> = vec![0b00000000_00000000_00000000_00000000_00000000_00000000_00000000_00000000u64, 0b00000000_00000000_00000000_00000000_00000000_00001000_00000000_00000000u64];
        assert_eq!(want, d);
    }
    {
        let s: Vec<m256i> = vec![block(&[]), block(&[]), block(&[31])];
        let mut d: Vec<u64> = Vec::new();
        build_structural_character_bitmap(&s, &mut d, m);
        let want: Vec<u64> = vec![0b00000000_00000000_00000000_00000000_00000000_00000000_00000000_00000000u64, 0b00000000_00000000_00000000_00000000_10000000_00000000_00000000_00000000u64];
        assert_eq!(want, d);
    }
}

#[test]
fn test_build_structural_quote_bitmap() {
    {
        let b_backslash: Vec<u64> = vec![];
        let mut b_quote: Vec<u64> = vec![];
        build_structural_quote_bitmap(&b_backslash, &mut b_quote);
        let want: Vec<u64> = vec![];
        assert_eq!(want, b_quote);
    }
    {
        let b_backslash: Vec<u64> = vec![0b00000000_00000000_00000000_00000000_00000000_00000000_00000000_00000000];
        let mut b_quote: Vec<u64> = vec![0b00000000_00000000_00000000_00000000_00000000_00000000_00000000_00000000];
        build_structural_quote_bitmap(&b_backslash, &mut b_quote);
        let want: Vec<u64> = vec![0b00000000_00000000_00000000_00000000_00000000_00000000_00000000_00000000];
        assert_eq!(want, b_quote);
    }
    {
        let b_backslash: Vec<u64> = vec![0b00000000_00000000_00000000_00000000_00000000_00000000_00000000_00000000];
        let mut b_quote: Vec<u64> = vec![0b00000000_00000000_00000000_00000000_00000000_00000000_00000000_00000010];
        build_structural_quote_bitmap(&b_backslash, &mut b_quote);
        let want: Vec<u64> = vec![0b00000000_00000000_00000000_00000000_00000000_00000000_00000000_00000010];
        assert_eq!(want, b_quote);
    }
    {
        let b_backslash: Vec<u64> = vec![0b00000000_00000000_00000000_00000000_00000000_00000000_00000100_00000000];
        let mut b_quote: Vec<u64> = vec![0b00000000_00000000_00000000_00000000_00000000_00000000_00001000_00000000];
        build_structural_quote_bitmap(&b_backslash, &mut b_quote);
        let want: Vec<u64> = vec![0b00000000_00000000_00000000_00000000_00000000_00000000_00000000_00000000];
        assert_eq!(want, b_quote);
    }
    {
        let b_backslash: Vec<u64> = vec![0b00000000_00000000_00000000_00000000_00000000_00000000_00000110_00000000];
        let mut b_quote: Vec<u64> = vec![0b00000000_00000000_00000000_00000000_00000000_00000000_00001000_00000000];
        build_structural_quote_bitmap(&b_backslash, &mut b_quote);
        let want: Vec<u64> = vec![0b00000000_00000000_00000000_00000000_00000000_00000000_00001000_00000000];
        assert_eq!(want, b_quote);
    }
    {
        let b_backslash: Vec<u64> = vec![0b00000000_00000000_00000000_00000000_00000000_00000000_00000111_00000000];
        let mut b_quote: Vec<u64> = vec![0b00000000_00000000_00000000_00000000_00000000_00000000_00001000_00000000];
        build_structural_quote_bitmap(&b_backslash, &mut b_quote);
        let want: Vec<u64> = vec![0b00000000_00000000_00000000_00000000_00000000_00000000_00000000_00000000];
        assert_eq!(want, b_quote);
    }
    {
        let b_backslash: Vec<u64> = vec![0b00000000_00000000_00000000_00000000_00000000_00000000_00000111_10000000];
        let mut b_quote: Vec<u64> = vec![0b00000000_00000000_00000000_00000000_00000000_00000000_00001000_00000000];
        build_structural_quote_bitmap(&b_backslash, &mut b_quote);
        let want: Vec<u64> = vec![0b00000000_00000000_00000000_00000000_00000000_00000000_00001000_00000000];
        assert_eq!(want, b_quote);
    }
    {
        let b_backslash: Vec<u64> = vec![0b00000000_00000000_00000000_00000000_00000000_00000000_00000111_11000000];
        let mut b_quote: Vec<u64> = vec![0b00000000_00000000_00000000_00000000_00000000_00000000_00001000_00000000];
        build_structural_quote_bitmap(&b_backslash, &mut b_quote);
        let want: Vec<u64> = vec![0b00000000_00000000_00000000_00000000_00000000_00000000_00000000_00000000];
        assert_eq!(want, b_quote);
    }
    {
        let b_backslash: Vec<u64> = vec![0b00000000_00000000_00000000_00000000_00000000_00000000_00000111_11100000];
        let mut b_quote: Vec<u64> = vec![0b00000000_00000000_00000000_00000000_00000000_00000000_00001000_00000000];
        build_structural_quote_bitmap(&b_backslash, &mut b_quote);
        let want: Vec<u64> = vec![0b00000000_00000000_00000000_00000000_00000000_00000000_00001000_00000000];
        assert_eq!(want, b_quote);
    }
    {
        let b_backslash: Vec<u64> = vec![0b00000000_00000000_00000000_00000000_00000000_00000000_00000000_00000000, 0b00000000_00000000_00000000_00000000_00000000_00000000_00000000_00000000];
        let mut b_quote: Vec<u64> = vec![0b00000000_00000000_00000000_00000000_00000000_00000000_00000000_00000000, 0b00000000_00000000_00000000_00000000_00000000_00000000_00000000_00000000];
        build_structural_quote_bitmap(&b_backslash, &mut b_quote);
        let want: Vec<u64> = vec![0b00000000_00000000_00000000_00000000_00000000_00000000_00000000_00000000, 0b00000000_00000000_00000000_00000000_00000000_00000000_00000000_00000000];
        assert_eq!(want, b_quote);
    }
    {
        let b_backslash: Vec<u64> = vec![0b00000000_00000110_00000000_00000000_00000000_00100000_00000000_00000000, 0b00000000_00000000_00011110_00000000_00000000_00000000_00001110_00000000];
        let mut b_quote: Vec<u64> = vec![0b00000000_00001000_00000000_00000000_00100000_01000000_00000000_00000010, 0b00000000_00000000_00100000_00000000_00000000_00000000_00010000_00001000];
        build_structural_quote_bitmap(&b_backslash, &mut b_quote);
        let want: Vec<u64> = vec![0b00000000_00001000_00000000_00000000_00100000_00000000_00000000_00000010, 0b00000000_00000000_00100000_00000000_00000000_00000000_00000000_00001000];
        assert_eq!(want, b_quote);
    }
    {
        let b_backslash: Vec<u64> = vec![0b10000000_00000000_00000000_00000000_00000000_00000000_00000000_00000000, 0b00000000_00000000_00000000_00000000_00000000_00000000_00000000_00000000];
        let mut b_quote: Vec<u64> = vec![0b00000000_00000000_00000000_00000000_00000000_00000000_00000000_00000000, 0b00000000_00000000_00000000_00000000_00000000_00000000_00000000_00000001];
        build_structural_quote_bitmap(&b_backslash, &mut b_quote);
        let want: Vec<u64> = vec![0b00000000_00000000_00000000_00000000_00000000_00000000_00000000_00000000, 0b00000000_00000000_00000000_00000000_00000000_00000000_00000000_00000000];
        assert_eq!(want, b_quote);
    }
    {
        let b_backslash: Vec<u64> = vec![0b11000000_00000000_00000000_00000000_00000000_00000000_00000000_00000000, 0b00000000_00000000_00000000_00000000_00000000_00000000_00000000_00000000];
        let mut b_quote: Vec<u64> = vec![0b00000000_00000000_00000000_00000000_00000000_00000000_00000000_00000000, 0b00000000_00000000_00000000_00000000_00000000_00000000_00000000_00000001];
        build_structural_quote_bitmap(&b_backslash, &mut b_quote);
        let want: Vec<u64> = vec![0b00000000_00000000_00000000_00000000_00000000_00000000_00000000_00000000, 0b00000000_00000000_00000000_00000000_00000000_00000000_00000000_00000001];
        assert_eq!(want, b_quote);
    }
    {
        let b_backslash: Vec<u64> = vec![0b11100000_00000000_00000000_00000000_00000000_00000000_00000000_00000000, 0b00000000_00000000_00000000_00000000_00000000_00000000_00000000_00000000];
        let mut b_quote: Vec<u64> = vec![0b00000000_00000000_00000000_00000000_00000000_00000000_00000000_00000000, 0b00000000_00000000_00000000_00000000_00000000_00000000_00000000_00000001];
        build_structural_quote_bitmap(&b_backslash, &mut b_quote);
        let want: Vec<u64> = vec![0b00000000_00000000_00000000_00000000_00000000_00000000_00000000_00000000, 0b00000000_00000000_00000000_00000000_00000000_00000000_00000000_00000000];
        assert_eq!(want, b_quote);
    }
    {
        let b_backslash: Vec<u64> = vec![0b11110000_00000000_00000000_00000000_00000000_00000000_00000000_00000000, 0b00000000_00000000_00000000_00000000_00000000_00000000_00000000_00000000];
        let mut b_quote: Vec<u64> = vec![0b00000000_00000000_00000000_00000000_00000000_00000000_00000000_00000000, 0b00000000_00000000_00000000_00000000_00000000_00000000_00000000_00000001];
        build_structural_quote_bitmap(&b_backslash, &mut b_quote);
        let want: Vec<u64> = vec![0b00000000_00000000_00000000_00000000_00000000_00000000_00000000_00000000, 0b00000000_00000000_00000000_00000000_00000000_00000000_00000000_00000001];
        assert_eq!(want, b_quote);
    }
    {
        let b_backslash: Vec<u64> = vec![0b00000000_00000000_00000000_00000000_00000000_00000000_00000000_00000000, 0b00000000_00000000_00000000_00000000_00000000_00000000_00000000_00000001];
        let mut b_quote: Vec<u64> = vec![0b00000000_00000000_00000000_00000000_00000000_00000000_00000000_00000000, 0b00000000_00000000_00000000_00000000_00000000_00000000_00000000_00000010];
        build_structural_quote_bitmap(&b_backslash, &mut b_quote);
        let want: Vec<u64> = vec![0b00000000_00000000_00000000_00000000_00000000_00000000_00000000_00000000, 0b00000000_00000000_00000000_00000000_00000000_00000000_00000000_00000000];
        assert_eq!(want, b_quote);
    }
    {
        let b_backslash: Vec<u64> = vec![0b10000000_00000000_00000000_00000000_00000000_00000000_00000000_00000000, 0b00000000_00000000_00000000_00000000_00000000_00000000_00000000_00000001];
        let mut b_quote: Vec<u64> = vec![0b00000000_00000000_00000000_00000000_00000000_00000000_00000000_00000000, 0b00000000_00000000_00000000_00000000_00000000_00000000_00000000_00000010];
        build_structural_quote_bitmap(&b_backslash, &mut b_quote);
        let want: Vec<u64> = vec![0b00000000_00000000_00000000_00000000_00000000_00000000_00000000_00000000, 0b00000000_00000000_00000000_00000000_00000000_00000000_00000000_00000010];
        assert_eq!(want, b_quote);
    }
    {
        let b_backslash: Vec<u64> = vec![0b11000000_00000000_00000000_00000000_00000000_00000000_00000000_00000000, 0b00000000_00000000_00000000_00000000_00000000_00000000_00000000_00000001];
        let mut b_quote: Vec<u64> = vec![0b00000000_00000000_00000000_00000000_00000000_00000000_00000000_00000000, 0b00000000_00000000_00000000_00000000_00000000_00000000_00000000_00000010];
        build_structural_quote_bitmap(&b_backslash, &mut b_quote);
        let want: Vec<u64> = vec![0b00000000_00000000_00000000_00000000_00000000_00000000_00000000_00000000, 0b00000000_00000000_00000000_00000000_00000000_00000000_00000000_00000000];
        assert_eq!(want, b_quote);
    }
    {
        let b_backslash: Vec<u64> = vec![0b11100000_00000000_00000000_00000000_00000000_00000000_00000000_00000000, 0b00000000_00000000_00000000_00000000_00000000_00000000_00000000_00000001];
        let mut b_quote: Vec<u64> = vec![0b00000000_00000000_00000000_00000000_00000000_00000000_00000000_00000000, 0b00000000_00000000_00000000_00000000_00000000_00000000_00000000_00000010];
        build_structural_quote_bitmap(&b_backslash, &mut b_quote);
        let want: Vec<u64> = vec![0b00000000_00000000_00000000_00000000_00000000_00000000_00000000_00000000, 0b00000000_00000000_00000000_00000000_00000000_00000000_00000000_00000010];
        assert_eq!(want, b_quote);
    }
    {
        let b_backslash: Vec<u64> = vec![0b00000000_00000000_00000000_00000000_00000000_00000000_00000000_00000000, 0b00000000_00000000_00000000_00000000_00000000_00000000_00000000_00000000, 0b00000000_00000000_00000000_00000000_00000000_00000000_00000000_00000000];
        let mut b_quote: Vec<u64> = vec![0b00000000_00000000_00000000_00000000_00000000_00000000_00000000_00000000, 0b00000000_00000000_00000000_00000000_00000000_00000000_00000000_00000000, 0b00000000_00000000_00000000_00000000_00000000_00000000_00000000_00000000];
        build_structural_quote_bitmap(&b_backslash, &mut b_quote);
        let want: Vec<u64> = vec![0b00000000_00000000_00000000_00000000_00000000_00000000_00000000_00000000, 0b00000000_00000000_00000000_00000000_00000000_00000000_00000000_00000000, 0b00000000_00000000_00000000_00000000_00000000_00000000_00000000_00000000];
        assert_eq!(want, b_quote);
    }
    {
        let b_backslash: Vec<u64> = vec![0b10001111_10000001_11111110_00000000_00000000_00000000_00000000_00000000, 0b10000000_00000000_00000000_00000111_00011110_00000000_00000000_00000001, 0b00000000_00000000_00000000_00000000_00000000_01100000_00100000_00000000];
        let mut b_quote: Vec<u64> = vec![0b00010000_00000010_00000000_00000000_00000000_00000000_00000000_00000000, 0b00000000_00000000_00000000_00001000_00100000_00000000_00000000_00000010, 0b00000000_00000000_00000000_00000000_00000000_10000000_01000000_00000001];
        build_structural_quote_bitmap(&b_backslash, &mut b_quote);
        let want: Vec<u64> = vec![0b00000000_00000010_00000000_00000000_00000000_00000000_00000000_00000000, 0b00000000_00000000_00000000_00000000_00100000_00000000_00000000_00000010, 0b00000000_00000000_00000000_00000000_00000000_10000000_00000000_00000000];
        assert_eq!(want, b_quote);
    }
    {
        let b_backslash: Vec<u64> = vec![0b10000000_00000000_00000000_00000000_00000000_00000000_00000000_00000000, 0b11111111_11111111_11111111_11111111_11111111_11111111_11111111_11111111, 0b00000000_00000000_00000000_00000000_00000000_00000000_00000000_00000001];
        let mut b_quote: Vec<u64> = vec![0b00000000_00000000_00000000_00000000_00000000_00000000_00000000_00000000, 0b00000000_00000000_00000000_00000000_00000000_00000000_00000000_00000000, 0b00000000_00000000_00000000_00000000_00000000_00000000_00000000_00000010];
        build_structural_quote_bitmap(&b_backslash, &mut b_quote);
        let want: Vec<u64> = vec![0b00000000_00000000_00000000_00000000_00000000_00000000_00000000_00000000, 0b00000000_00000000_00000000_00000000_00000000_00000000_00000000_00000000, 0b00000000_00000000_00000000_00000000_00000000_00000000_00000000_00000010];
        assert_eq!(want, b_quote);
    }
    {
        let b_backslash: Vec<u64> = vec![0b11000000_00000000_00000000_00000000_00000000_00000000_00000000_00000000, 0b11111111_11111111_11111111_11111111_11111111_11111111_11111111_11111111, 0b00000000_00000000_00000000_00000000_00000000_00000000_00000000_00000001];
        let mut b_quote: Vec<u64> = vec![0b00000000_00000000_00000000_00000000_00000000_00000000_00000000_00000000, 0b00000000_00000000_00000000_00000000_00000000_00000000_00000000_00000000, 0b00000000_00000000_00000000_00000000_00000000_00000000_00000000_00000010];
        build_structural_quote_bitmap(&b_backslash, &mut b_quote);
        let want: Vec<u64> = vec![0b00000000_00000000_00000000_00000000_00000000_00000000_00000000_00000000, 0b00000000_00000000_00000000_00000000_00000000_00000000_00000000_00000000, 0b00000000_00000000_00000000_00000000_00000000_00000000_00000000_00000000];
        assert_eq!(want, b_quote);
    }
}

#[test]
fn test_build_string_mask_bitmap() {
    {
        let mut b_quote: Vec<u64> = vec![];
        build_string_mask_bitmap(&mut b_quote);
        let want: Vec<u64> = vec![];
        assert_eq!(want, b_quote);
    }
    {
        let mut b_quote: Vec<u64> = vec![0b00000000_00000000_00000000_00000000_00000000_00000000_00000000_00000000];
        build_string_mask_bitmap(&mut b_quote);
        let want: Vec<u64> = vec![0b11111111_11111111_11111111_11111111_11111111_11111111_11111111_11111111];
        assert_eq!(want, b_quote);
    }
    {
        let mut b_quote: Vec<u64> = vec![0b00000000_00000000_00000000_00000000_00000000_00000000_00000000_00000100];
        build_string_mask_bitmap(&mut b_quote);
        let want: Vec<u64> = vec![0b00000000_00000000_00000000_00000000_00000000_00000000_00000000_00000111];
        assert_eq!(want, b_quote);
    }
    {
        let mut b_quote: Vec<u64> = vec![0b00000000_00000000_00000000_00000000_00000000_00000000_01000000_00000100];
        build_string_mask_bitmap(&mut b_quote);
        let want: Vec<u64> = vec![0b11111111_11111111_11111111_11111111_11111111_11111111_10000000_00000111];
        assert_eq!(want, b_quote);
    }
    {
        let mut b_quote: Vec<u64> = vec![0b00000000_00000000_00000000_00000010_00000000_00000000_01000000_00000100];
        build_string_mask_bitmap(&mut b_quote);
        let want: Vec<u64> = vec![0b00000000_00000000_00000000_00000011_11111111_11111111_10000000_00000111];
        assert_eq!(want, b_quote);
    }
    {
        let mut b_quote: Vec<u64> = vec![0b00000000_01000000_00000000_00000010_00000000_00000000_01000000_00000100];
        build_string_mask_bitmap(&mut b_quote);
        let want: Vec<u64> = vec![0b11111111_10000000_00000000_00000011_11111111_11111111_10000000_00000111];
        assert_eq!(want, b_quote);
    }
    {
        let mut b_quote: Vec<u64> = vec![0b00000000_00000000_00000000_00000000_00000000_00000000_00000000_00000000, 0b00000000_00000000_00000000_00000000_00000000_00000000_00000000_00000000];
        build_string_mask_bitmap(&mut b_quote);
        let want: Vec<u64> = vec![0b11111111_11111111_11111111_11111111_11111111_11111111_11111111_11111111, 0b11111111_11111111_11111111_11111111_11111111_11111111_11111111_11111111];
        assert_eq!(want, b_quote);
    }
    {
        let mut b_quote: Vec<u64> = vec![0b00000000_00000000_00000000_00000000_00000000_00000000_00000000_00000100, 0b00000000_00000000_00000000_00000000_00000000_00000000_00000000_00000000];
        build_string_mask_bitmap(&mut b_quote);
        let want: Vec<u64> = vec![0b00000000_00000000_00000000_00000000_00000000_00000000_00000000_00000111, 0b00000000_00000000_00000000_00000000_00000000_00000000_00000000_00000000];
        assert_eq!(want, b_quote);
    }
    {
        let mut b_quote: Vec<u64> = vec![0b00010000_00000000_00000000_00000000_00000000_00000000_00010000_00100000, 0b00000000_00000000_00000000_00000000_00000000_00000000_00000000_00000000];
        build_string_mask_bitmap(&mut b_quote);
        let want: Vec<u64> = vec![0b00011111_11111111_11111111_11111111_11111111_11111111_11100000_00111111, 0b00000000_00000000_00000000_00000000_00000000_00000000_00000000_00000000];
        assert_eq!(want, b_quote);
    }
    {
        let mut b_quote: Vec<u64> = vec![0b00010000_00000000_00000000_00000000_00000000_00000000_00010000_00100000, 0b00000000_00000000_00000000_00000000_00000000_00000000_00000000_00001000];
        build_string_mask_bitmap(&mut b_quote);
        let want: Vec<u64> = vec![0b00011111_11111111_11111111_11111111_11111111_11111111_11100000_00111111, 0b11111111_11111111_11111111_11111111_11111111_11111111_11111111_11110000];
        assert_eq!(want, b_quote);
    }
    {
        let mut b_quote: Vec<u64> = vec![0b00010000_00000000_00000000_00000000_00000000_00000000_00010000_00100000, 0b00000000_00000000_00000000_00000000_10000000_00000000_00000000_00001000];
        build_string_mask_bitmap(&mut b_quote);
        let want: Vec<u64> = vec![0b00011111_11111111_11111111_11111111_11111111_11111111_11100000_00111111, 0b00000000_00000000_00000000_00000000_11111111_11111111_11111111_11110000];
        assert_eq!(want, b_quote);
    }
    {
        let mut b_quote: Vec<u64> = vec![0b00000000_00000000_00000000_00000000_00000000_00000000_00000000_00000000, 0b00000000_00000000_00000000_00000000_00000000_00000000_00000000_00000000, 0b00000000_00000000_00000000_00000000_00000000_00000000_00000000_00000000];
        build_string_mask_bitmap(&mut b_quote);
        let want: Vec<u64> = vec![0b11111111_11111111_11111111_11111111_11111111_11111111_11111111_11111111, 0b11111111_11111111_11111111_11111111_11111111_11111111_11111111_11111111, 0b11111111_11111111_11111111_11111111_11111111_11111111_11111111_11111111];
        assert_eq!(want, b_quote);
    }
    {
        let mut b_quote: Vec<u64> = vec![0b00000000_00000000_00000000_00000000_00000000_00000000_00000001_00000000, 0b00000000_00000000_00000000_00000000_00000000_00000000_00000000_00000000, 0b00000000_00000000_00000000_00000000_00000000_00000000_00000000_00000000];
        build_string_mask_bitmap(&mut b_quote);
        let want: Vec<u64> = vec![0b00000000_00000000_00000000_00000000_00000000_00000000_00000001_11111111, 0b00000000_00000000_00000000_00000000_00000000_00000000_00000000_00000000, 0b00000000_00000000_00000000_00000000_00000000_00000000_00000000_00000000];
        assert_eq!(want, b_quote);
    }
    {
        let mut b_quote: Vec<u64> = vec![0b00000000_00000000_00000000_00000000_00000000_00000000_00000001_00000000, 0b00000000_00000000_00000000_00000000_00000000_00000000_00000000_00000000, 0b00000000_00000000_00000000_00000000_00000000_00100000_00000000_00000000];
        build_string_mask_bitmap(&mut b_quote);
        let want: Vec<u64> = vec![0b00000000_00000000_00000000_00000000_00000000_00000000_00000001_11111111, 0b00000000_00000000_00000000_00000000_00000000_00000000_00000000_00000000, 0b11111111_11111111_11111111_11111111_11111111_11000000_00000000_00000000];
        assert_eq!(want, b_quote);
    }
    {
        let mut b_quote: Vec<u64> = vec![0b00000000_00000000_00000000_00000000_00000000_00000000_00000001_00000000, 0b00000000_00000000_00000000_00000000_00000000_00000000_00000000_00000000, 0b00000000_00000000_00010000_00000000_00000000_00100000_00000000_00000000];
        build_string_mask_bitmap(&mut b_quote);
        let want: Vec<u64> = vec![0b00000000_00000000_00000000_00000000_00000000_00000000_00000001_11111111, 0b00000000_00000000_00000000_00000000_00000000_00000000_00000000_00000000, 0b00000000_00000000_00011111_11111111_11111111_11000000_00000000_00000000];
        assert_eq!(want, b_quote);
    }
    {
        let mut b_quote: Vec<u64> = vec![0b00000000_00000000_00000000_00000000_00000000_00000000_00000001_00000000, 0b00000000_00000000_00000000_00000000_00000000_00000000_00000000_00000000, 0b00001000_00000000_00010000_00000000_00000000_00100000_00000000_00000000];
        build_string_mask_bitmap(&mut b_quote);
        let want: Vec<u64> = vec![0b00000000_00000000_00000000_00000000_00000000_00000000_00000001_11111111, 0b00000000_00000000_00000000_00000000_00000000_00000000_00000000_00000000, 0b11110000_00000000_00011111_11111111_11111111_11000000_00000000_00000000];
        assert_eq!(want, b_quote);
    }
}

#[test]
fn test_build_leveled_colon_bitmap() {
    {
        let b_colon: Vec<u64> = vec![];
        let b_left: Vec<u64> = vec![];
        let b_right: Vec<u64> = vec![];
        let mut b: Vec<Vec<u64>> = Vec::new();
        let r = build_leveled_colon_bitmap(&b_colon, &b_left, &b_right, 1, &mut b);
        assert!(r.is_ok());
        let want: Vec<Vec<u64>> = vec![vec![]];
        assert_eq!(want, b);
    }
    {
        let b_colon: Vec<u64> = vec![0b00000000_00000000_00000000_00000000_00000000_00000000_00000000_00000000];
        let b_left: Vec<u64> = vec![0b00000000_00000000_00000000_00000000_00000000_00000000_00000000_00000000];
        let b_right: Vec<u64> = vec![0b00000000_00000000_00000000_00000000_00000000_00000000_00000000_00000000];
        let mut b: Vec<Vec<u64>> = Vec::new();
        let r = build_leveled_colon_bitmap(&b_colon, &b_left, &b_right, 1, &mut b);
        assert!(r.is_ok());
        let want: Vec<Vec<u64>> = vec![vec![0b00000000_00000000_00000000_00000000_00000000_00000000_00000000_00000000]];
        assert_eq!(want, b);
    }
    {
        let b_colon: Vec<u64> = vec![0b00000000_00010000_00000000_00000000_00010000_00000000_00000100_00000000];
        let b_left: Vec<u64> = vec![0b00000000_00000000_00000000_00000000_00000000_00000000_00000000_00000001];
        let b_right: Vec<u64> = vec![0b10000000_00000000_00000000_00000000_00000000_00000000_00000000_00000000];
        let mut b: Vec<Vec<u64>> = Vec::new();
        let r = build_leveled_colon_bitmap(&b_colon, &b_left, &b_right, 1, &mut b);
        assert!(r.is_ok());
        let want: Vec<Vec<u64>> = vec![vec![0b00000000_00010000_00000000_00000000_00010000_00000000_00000100_00000000]];
        assert_eq!(want, b);
    }
    {
        let b_colon: Vec<u64> = vec![0b00000000_00010000_00000000_00000000_00010000_00000000_00000100_00000000];
        let b_left: Vec<u64> = vec![0b00000000_00000000_00000000_00000000_00000000_00000000_00000000_00000001];
        let b_right: Vec<u64> = vec![0b10000000_00000000_00000000_00000000_00000000_00000000_00000000_00000000];
        let mut b: Vec<Vec<u64>> = Vec::new();
        let r = build_leveled_colon_bitmap(&b_colon, &b_left, &b_right, 2, &mut b);
        assert!(r.is_ok());
        let want: Vec<Vec<u64>> = vec![vec![0b00000000_00010000_00000000_00000000_00010000_00000000_00000100_00000000], vec![0b00000000_00010000_00000000_00000000_00010000_00000000_00000100_00000000]];
        assert_eq!(want, b);
    }
    {
        let b_colon: Vec<u64> = vec![0b00000000_00010000_00000000_00000000_00010000_00000000_00000100_00000000];
        let b_left: Vec<u64> = vec![0b00000000_00000000_00000000_00000000_00000000_00001000_00000000_00000001];
        let b_right: Vec<u64> = vec![0b10000000_00000000_01000000_00000000_00000000_00000000_00000000_00000000];
        let mut b: Vec<Vec<u64>> = Vec::new();
        let r = build_leveled_colon_bitmap(&b_colon, &b_left, &b_right, 1, &mut b);
        assert!(r.is_ok());
        let want: Vec<Vec<u64>> = vec![vec![0b00000000_00010000_00000000_00000000_00000000_00000000_00000100_00000000]];
        assert_eq!(want, b);
    }
    {
        let b_colon: Vec<u64> = vec![0b00000000_00010000_00000000_00000000_00010000_00000000_00000100_00000000];
        let b_left: Vec<u64> = vec![0b00000000_00000000_00000000_00000000_00000000_00001000_00000000_00000001];
        let b_right: Vec<u64> = vec![0b10000000_00000000_01000000_00000000_00000000_00000000_00000000_00000000];
        let mut b: Vec<Vec<u64>> = Vec::new();
        let r = build_leveled_colon_bitmap(&b_colon, &b_left, &b_right, 2, &mut b);
        assert!(r.is_ok());
        let want: Vec<Vec<u64>> = vec![vec![0b00000000_00010000_00000000_00000000_00000000_00000000_00000100_00000000], vec![0b00000000_00010000_00000000_00000000_00010000_00000000_00000100_00000000]];
        assert_eq!(want, b);
    }
    {
        let b_colon: Vec<u64> = vec![0b00001000_00001000_00001000_00000000_00000000_00010000_00010000_00010000, 0b00000000_00000000_00000000_00000000_00000000_00000000_00000000_00000000, 0b00000000_00000000_00000000_00000000_00000000_00000000_00000000_00000000, 0b00000000_00000000_00000000_00000000_00000000_00000000_00000000_00000000, 0b00000000_00000000_00000000_00000000_00000000_00000000_00000000_00000000, 0b00000000_00000000_00000000_00000000_00000000_00000000_00000000_00000000, 0b00000000_00000000_00000000_00000000_00000000_00000000_00000000_00000000, 0b00000001_00000000_00000000_00000000_00000000_00000000_00000000_00000000];
        let b_left: Vec<u64> = vec![0b00000000_00000000_00000000_00000000_00000001_00000001_00000001_00000001, 0b00000000_00000000_00000000_00000000_00000000_00000000_00000000_00000000, 0b00000000_00000000_00000000_00000000_00000000_00000000_00000000_00000000, 0b00000000_00000000_00000000_00000000_00000000_00000000_00000000_00000000, 0b00000000_00000000_00000000_00000000_00000000_00000000_00000000_00000000, 0b00000000_00000000_00000000_00000000_00000000_00000000_00000000_00000000, 0b00000000_00000000_00000000_00000000_00000000_00000000_00000000_00000000, 0b00000000_00000000_00000000_00000000_00000000_00000000_00000000_00000000];
        let b_right: Vec<u64> = vec![0b10000000_10000000_10000000_00000000_00000000_00000000_00000000_00000000, 0b00000000_00000000_00000000_00000000_00000000_00000000_00000000_00000000, 0b00000000_00000000_00000000_00000000_00000000_00000000_00000000_00000000, 0b00000000_00000000_00000000_00000000_00000000_00000000_00000000_00000000, 0b00000000_00000000_00000000_00000000_00000000_00000000_00000000_00000000, 0b00000000_00000000_00000000_00000000_00000000_00000000_00000000_00000000, 0b00000000_00000000_00000000_00000000_00000000_00000000_00000000_00000000, 0b10000000_00000000_00000000_00000000_00000000_00000000_00000000_00000000];
        let mut b: Vec<Vec<u64>> = Vec::new();
        let r = build_leveled_colon_bitmap(&b_colon, &b_left, &b_right, 3, &mut b);
        assert!(r.is_ok());
        let want: Vec<Vec<u64>> = vec![vec![0b00000000_00000000_00000000_00000000_00000000_00000000_00000000_00010000, 0b00000000_00000000_00000000_00000000_00000000_00000000_00000000_00000000, 0b00000000_00000000_00000000_00000000_00000000_00000000_00000000_00000000, 0b00000000_00000000_00000000_00000000_00000000_00000000_00000000_00000000, 0b00000000_00000000_00000000_00000000_00000000_00000000_00000000_00000000, 0b00000000_00000000_00000000_00000000_00000000_00000000_00000000_00000000, 0b00000000_00000000_00000000_00000000_00000000_00000000_00000000_00000000, 0b00000001_00000000_00000000_00000000_00000000_00000000_00000000_00000000], vec![0b00001000_00000000_00000000_00000000_00000000_00000000_00010000_00010000, 0b00000000_00000000_00000000_00000000_00000000_00000000_00000000_00000000, 0b00000000_00000000_00000000_00000000_00000000_00000000_00000000_00000000, 0b00000000_00000000_00000000_00000000_00000000_00000000_00000000_00000000, 0b00000000_00000000_00000000_00000000_00000000_00000000_00000000_00000000, 0b00000000_00000000_00000000_00000000_00000000_00000000_00000000_00000000, 0b00000000_00000000_00000000_00000000_00000000_00000000_00000000_00000000, 0b00000001_00000000_00000000_00000000_00000000_00000000_00000000_00000000], vec![0b00001000_00001000_00000000_00000000_00000000_00010000_00010000_00010000, 0b00000000_00000000_00000000_00000000_00000000_00000000_00000000_00000000, 0b00000000_00000000_00000000_00000000_00000000_00000000_00000000_00000000, 0b00000000_00000000_00000000_00000000_00000000_00000000_00000000_00000000, 0b00000000_00000000_00000000_00000000_00000000_00000000_00000000_00000000, 0b00000000_00000000_00000000_00000000_00000000_00000000_00000000_00000000, 0b00000000_00000000_00000000_00000000_00000000_00000000_00000000_00000000, 0b00000001_00000000_00000000_00000000_00000000_00000000_00000000_00000000]];
        assert_eq!(want, b);
    }
    {
        let b_colon: Vec<u64> = vec![0b00000000_10000000_00000000_00000000_00000000_00000000_00000000_00000000, 0b00000000_10000000_00000000_00000000_00000000_00000000_00000000_00000000, 0b00000000_10000000_00000000_00000000_00000000_00000000_00000000_00000000, 0b00000000_10000000_00000000_00000000_00000000_00000000_00000000_00000000, 0b00000000_10000000_00000000_00000000_00000000_00000000_00000000_00000000, 0b00000000_10000000_00000000_00000000_00000000_00000000_00000000_00000000, 0b00000000_10000000_00000000_00000000_00000000_00000000_00000000_00000000, 0b00000000_10000000_00000000_00000000_00000000_00000000_00000000_00000000];
        let b_left: Vec<u64> = vec![0b00000000_00000000_00000000_00000000_00000000_00000000_00000000_00000001, 0b00000000_00000000_00000000_00000000_00000000_00000000_00000000_00000001, 0b00000000_00000000_00000000_00000000_00000000_00000000_00000000_00000001, 0b00000000_00000000_00000000_00000000_00000000_00000000_00000000_00000001, 0b00000000_00000000_00000000_00000000_00000000_00000000_00000000_00000000, 0b00000000_00000000_00000000_00000000_00000000_00000000_00000000_00000000, 0b00000000_00000000_00000000_00000000_00000000_00000000_00000000_00000000, 0b00000000_00000000_00000000_00000000_00000000_00000000_00000000_00000000];
        let b_right: Vec<u64> = vec![0b00000000_00000000_00000000_00000000_00000000_00000000_00000000_00000000, 0b00000000_00000000_00000000_00000000_00000000_00000000_00000000_00000000, 0b00000000_00000000_00000000_00000000_00000000_00000000_00000000_00000000, 0b00000000_00000000_00000000_00000000_00000000_00000000_00000000_00000000, 0b10000000_00000000_00000000_00000000_00000000_00000000_00000000_00000000, 0b10000000_00000000_00000000_00000000_00000000_00000000_00000000_00000000, 0b10000000_00000000_00000000_00000000_00000000_00000000_00000000_00000000, 0b10000000_00000000_00000000_00000000_00000000_00000000_00000000_00000000];
        let mut b: Vec<Vec<u64>> = Vec::new();
        let r = build_leveled_colon_bitmap(&b_colon, &b_left, &b_right, 3, &mut b);
        assert!(r.is_ok());
        let want: Vec<Vec<u64>> = vec![vec![0b00000000_10000000_00000000_00000000_00000000_00000000_00000000_00000000, 0b00000000_00000000_00000000_00000000_00000000_00000000_00000000_00000000, 0b00000000_00000000_00000000_00000000_00000000_00000000_00000000_00000000, 0b00000000_00000000_00000000_00000000_00000000_00000000_00000000_00000000, 0b00000000_00000000_00000000_00000000_00000000_00000000_00000000_00000000, 0b00000000_00000000_00000000_00000000_00000000_00000000_00000000_00000000, 0b00000000_00000000_00000000_00000000_00000000_00000000_00000000_00000000, 0b00000000_10000000_00000000_00000000_00000000_00000000_00000000_00000000], vec![0b00000000_10000000_00000000_00000000_00000000_00000000_00000000_00000000, 0b00000000_10000000_00000000_00000000_00000000_00000000_00000000_00000000, 0b00000000_00000000_00000000_00000000_00000000_00000000_00000000_00000000, 0b00000000_00000000_00000000_00000000_00000000_00000000_00000000_00000000, 0b00000000_00000000_00000000_00000000_00000000_00000000_00000000_00000000, 0b00000000_00000000_00000000_00000000_00000000_00000000_00000000_00000000, 0b00000000_10000000_00000000_00000000_00000000_00000000_00000000_00000000, 0b00000000_10000000_00000000_00000000_00000000_00000000_00000000_00000000], vec![0b00000000_10000000_00000000_00000000_00000000_00000000_00000000_00000000, 0b00000000_10000000_00000000_00000000_00000000_00000000_00000000_00000000, 0b00000000_10000000_00000000_00000000_00000000_00000000_00000000_00000000, 0b00000000_00000000_00000000_00000000_00000000_00000000_00000000_00000000, 0b00000000_00000000_00000000_00000000_00000000_00000000_00000000_00000000, 0b00000000_10000000_00000000_00000000_00000000_00000000_00000000_00000000, 0b00000000_10000000_00000000_00000000_00000000_00000000_00000000_00000000, 0b00000000_10000000_00000000_00000000_00000000_00000000_00000000_00000000]];
        assert_eq!(want, b);
    }
}
