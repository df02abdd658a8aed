//! The single-word bit primitives, checked on concrete words.
use pikkr::bit::e;
use pikkr::bit::r;
use pikkr::bit::s;

#[test]
fn test_r() {
    let cases: Vec<(u64, u64)> = vec![
        (0b00000000_00000000_00000000_00000000_00000000_00000000_00000000_00000000u64,
         0b00000000_00000000_00000000_00000000_00000000_00000000_00000000_00000000u64),
        (0b00000000_00000000_00000000_00000000_00000000_00000000_00000000_00000001u64,
         0b00000000_00000000_00000000_00000000_00000000_00000000_00000000_00000000u64),
        (0b00000000_00000000_00000000_00000000_00000000_00000000_00000000_00000010u64,
         0b00000000_00000000_00000000_00000000_00000000_00000000_00000000_00000000u64),
        (0b00000000_00000000_00000000_00000000_00000000_00000000_00000001_00000000u64,
         0b00000000_00000000_00000000_00000000_00000000_00000000_00000000_00000000u64),
        (0b00000000_00000000_00000000_00000000_00000000_00000001_00000000_00000000u64,
         0b00000000_00000000_00000000_00000000_00000000_00000000_00000000_00000000u64),
        (0b00000000_00000000_00000000_00000000_00000001_00000000_00000000_00000000u64,
         0b00000000_00000000_00000000_00000000_00000000_00000000_00000000_00000000u64),
        (0b00000000_00000000_00000000_00000001_00000000_00000000_00000000_00000000u64,
         0b00000000_00000000_00000000_00000000_00000000_00000000_00000000_00000000u64),
        (0b00000000_00000000_00000001_00000000_00000000_00000000_00000000_00000000u64,
         0b00000000_00000000_00000000_00000000_00000000_00000000_00000000_00000000u64),
        (0b00000000_00000001_00000000_00000000_00000000_00000000_00000000_00000000u64,
         0b00000000_00000000_00000000_00000000_00000000_00000000_00000000_00000000u64),
        (0b00000001_00000000_00000000_00000000_00000000_00000000_00000000_00000000u64,
         0b00000000_00000000_00000000_00000000_00000000_00000000_00000000_00000000u64),
        (0b00000000_00000000_00000000_00000000_00000000_00000000_00000000_00000011u64,
         0b00000000_00000000_00000000_00000000_00000000_00000000_00000000_00000010u64),
        (0b10000000_00100000_00000000_00000000_00000000_00000000_00000100_00000000u64,
         0b10000000_00100000_00000000_00000000_00000000_00000000_00000000_00000000u64),
        (0b00000000_00010000_00110010_00000000_00000000_00001100_00000000_00000000u64,
         0b00000000_00010000_00110010_00000000_00000000_00001000_00000000_00000000u64),
        (0b11100000_00000000_00000000_00000000_00000000_00000000_00000000_00000000u64,
         0b11000000_00000000_00000000_00000000_00000000_00000000_00000000_00000000u64),
        (0b11111111_11111111_11111111_11111111_11111111_11111111_11111111_11111111u64,
         0b11111111_11111111_11111111_11111111_11111111_11111111_11111111_11111110u64),
    ];
    for (x, want) in cases {
        assert_eq!(want, r(x));
    }
}

#[test]
fn test_e() {
    let cases: Vec<(u64, u64)> = vec![
        (0b00000000_00000000_00000000_00000000_00000000_00000000_00000000_00000000u64,
         0b00000000_00000000_00000000_00000000_00000000_00000000_00000000_00000000u64),
        (0b00000000_00000000_00000000_00000000_00000000_00000000_00000000_00000001u64,
         0b00000000_00000000_00000000_00000000_00000000_00000000_00000000_00000001u64),
        (0b00000000_00000000_00000000_00000000_00000000_00000000_00000000_00000010u64,
         0b00000000_00000000_00000000_00000000_00000000_00000000_00000000_00000010u64),
        (0b00000000_00000000_00000000_00000000_00000000_00000000_00000001_00000000u64,
         0b00000000_00000000_00000000_00000000_00000000_00000000_00000001_00000000u64),
        (0b00000000_00000000_00000000_00000000_00000000_00000001_00000000_00000000u64,
         0b00000000_00000000_00000000_00000000_00000000_00000001_00000000_00000000u64),
        (0b00000000_00000000_00000000_00000000_00000001_00000000_00000000_00000000u64,
         0b00000000_00000000_00000000_00000000_00000001_00000000_00000000_00000000u64),
        (0b00000000_00000000_00000000_00000001_00000000_00000000_00000000_00000000u64,
         0b00000000_00000000_00000000_00000001_00000000_00000000_00000000_00000000u64),
        (0b00000000_00000000_00000001_00000000_00000000_00000000_00000000_00000000u64,
         0b00000000_00000000_00000001_00000000_00000000_00000000_00000000_00000000u64),
        (0b00000000_00000001_00000000_00000000_00000000_00000000_00000000_00000000u64,
         0b00000000_00000001_00000000_00000000_00000000_00000000_00000000_00000000u64),
        (0b00000001_00000000_00000000_00000000_00000000_00000000_00000000_00000000u64,
         0b00000001_00000000_00000000_00000000_00000000_00000000_00000000_00000000u64),
        (0b00000000_00000000_00000000_00000000_00000000_00000000_00000000_00000011u64,
         0b00000000_00000000_00000000_00000000_00000000_00000000_00000000_00000001u64),
        (0b10000000_00100000_00000000_00000000_00000000_00000000_00000100_00000000u64,
         0b00000000_00000000_00000000_00000000_00000000_00000000_00000100_00000000u64),
        (0b00000000_00010000_00110010_00000000_00000000_00001100_00000000_00000000u64,
         0b00000000_00000000_00000000_00000000_00000000_00000100_00000000_00000000u64),
        (0b11100000_00000000_00000000_00000000_00000000_00000000_00000000_00000000u64,
         0b00100000_00000000_00000000_00000000_00000000_00000000_00000000_00000000u64),
        (0b11111111_11111111_11111111_11111111_11111111_11111111_11111111_11111111u64,
         0b00000000_00000000_00000000_00000000_00000000_00000000_00000000_00000001u64),
    ];
    for (x, want) in cases {
        assert_eq!(want, e(x));
    }
}

#[test]
fn test_s() {
    let cases: Vec<(u64, u64)> = vec![
        (0b00000000_00000000_00000000_00000000_00000000_00000000_00000000_00000000u64,
         0b00000000_00000000_00000000_00000000_00000000_00000000_00000000_00000000u64),
        (0b00000000_00000000_00000000_00000000_00000000_00000000_00000000_00000001u64,
         0b00000000_00000000_00000000_00000000_00000000_00000000_00000000_00000001u64),
        (0b00000000_00000000_00000000_00000000_00000000_00000000_00000000_00000010u64,
         0b00000000_00000000_00000000_00000000_00000000_00000000_00000000_00000011u64),
        (0b00000000_00000000_00000000_00000000_00000000_00000000_00000001_00000000u64,
         0b00000000_00000000_00000000_00000000_00000000_00000000_00000001_11111111u64),
        (0b00000000_00000000_00000000_00000000_00000000_00000001_00000000_00000000u64,
         0b00000000_00000000_00000000_00000000_00000000_00000001_11111111_11111111u64),
        (0b00000000_00000000_00000000_00000000_00000001_00000000_00000000_00000000u64,
         0b00000000_00000000_00000000_00000000_00000001_11111111_11111111_11111111u64),
        (0b00000000_00000000_00000000_00000001_00000000_00000000_00000000_00000000u64,
         0b00000000_00000000_00000000_00000001_11111111_11111111_11111111_11111111u64),
        (0b00000000_00000000_00000001_00000000_00000000_00000000_00000000_00000000u64,
         0b00000000_00000000_00000001_11111111_11111111_11111111_11111111_11111111u64),
        (0b00000000_00000001_00000000_00000000_00000000_00000000_00000000_00000000u64,
         0b00000000_00000001_11111111_11111111_11111111_11111111_11111111_11111111u64),
        (0b00000001_00000000_00000000_00000000_00000000_00000000_00000000_00000000u64,
         0b00000001_11111111_11111111_11111111_11111111_11111111_11111111_11111111u64),
        (0b00000000_00000000_00000000_00000000_00000000_00000000_00000000_00000011u64,
         0b00000000_00000000_00000000_00000000_00000000_00000000_00000000_00000001u64),
        (0b10000000_00100000_00000000_00000000_00000000_00000000_00000100_00000000u64,
         0b00000000_00000000_00000000_00000000_00000000_00000000_00000111_11111111u64),
        (0b00000000_00010000_00110010_00000000_00000000_00001100_00000000_00000000u64,
         0b00000000_00000000_00000000_00000000_00000000_00000111_11111111_11111111u64),
        (0b11100000_00000000_00000000_00000000_00000000_00000000_00000000_00000000u64,
         0b00111111_11111111_11111111_11111111_11111111_11111111_11111111_11111111u64),
        (0b11111111_11111111_11111111_11111111_11111111_11111111_11111111_11111111u64,
         0b00000000_00000000_00000000_00000000_00000000_00000000_00000000_00000001u64),
    ];
    for (x, want) in cases {
        assert_eq!(want, s(x));
    }
}
