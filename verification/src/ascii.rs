//! The ASCII bytes that MML is written with.
use vstd::prelude::*;

verus! {

pub const SHARP: u8 = 35;

pub const AMPERSAND: u8 = 38;

pub const PLUS: u8 = 43;

pub const COMMA: u8 = 44;

pub const MINUS: u8 = 45;

pub const DOT: u8 = 46;

pub const SEMICOLON: u8 = 59;

pub const LESS: u8 = 60;

pub const GREATER: u8 = 62;

pub const AT: u8 = 64;

pub const LETTER_A: u8 = 97;

pub const LETTER_B: u8 = 98;

pub const LETTER_C: u8 = 99;

pub const LETTER_D: u8 = 100;

pub const LETTER_E: u8 = 101;

pub const LETTER_F: u8 = 102;

pub const LETTER_G: u8 = 103;

pub const LETTER_L: u8 = 108;

pub const LETTER_M: u8 = 109;

pub const LETTER_N: u8 = 110;

pub const LETTER_O: u8 = 111;

pub const LETTER_R: u8 = 114;

pub const LETTER_T: u8 = 116;

pub const LETTER_V: u8 = 118;

} // verus!
