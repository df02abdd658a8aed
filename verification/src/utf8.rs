//! The byte values the extractor inspects.
use vstd::prelude::*;

verus! {

pub const BACKSLASH: u8 = 0x5c;

pub const QUOTE: u8 = 0x22;

pub const COLON: u8 = 0x3a;

pub const LEFT_BRACE: u8 = 0x7b;

pub const RIGHT_BRACE: u8 = 0x7d;

pub const COMMA: u8 = 0x2c;

pub const SPACE: u8 = 0x20;

pub const HT: u8 = 0x09;

pub const LF: u8 = 0x0a;

pub const CR: u8 = 0x0d;

pub const DOLLAR: u8 = 0x24;

pub const DOT: u8 = 0x2e;

} // verus!
