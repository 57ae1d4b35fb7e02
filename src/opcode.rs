//! The one-byte opcodes of the bytecode.
use vstd::prelude::*;

verus! {

pub const RETURN: u8 = 0x00;
pub const CONSTANT: u8 = 0x01;
pub const NEGATE: u8 = 0x02;
pub const ADD: u8 = 0x03;
pub const SUB: u8 = 0x04;
pub const MUL: u8 = 0x05;
pub const DIV: u8 = 0x06;
pub const NIL: u8 = 0x07;
pub const TRUE: u8 = 0x08;
pub const FALSE: u8 = 0x09;
pub const NOT: u8 = 0x10;
pub const EQUAL: u8 = 0x11;
pub const GREATER: u8 = 0x12;
pub const LESS: u8 = 0x13;

} // verus!
