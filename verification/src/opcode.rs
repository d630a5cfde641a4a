//! The opcode table: byte → instruction identity, PUSH classification,
//! immediate-data length, and the assigned-byte query used for warnings.

use vstd::prelude::*;

verus! {

/// Identity of a single EVM instruction, carried as its byte value.
/// Unknown byte values are legal: they stand for the unassigned
/// (invalid) instructions and still occupy one position.
#[derive(Copy, Clone, Debug, PartialEq, Eq, Structural)]
pub struct OpcodeId(pub u8);

/// PUSH1..=PUSH32: the opcodes that consume following bytes as an
/// immediate operand.
pub open spec fn spec_is_push_with_data(b: u8) -> bool {
    0x60 <= b && b <= 0x7f
}

/// Immediate-data length: 1..=32 for PUSH1..=PUSH32, 0 for every other byte.
pub open spec fn spec_immediate_len(b: u8) -> nat {
    if spec_is_push_with_data(b) {
        (b - 0x5f) as nat
    } else {
        0
    }
}

/// The byte values assigned in the targeted instruction set (the Shanghai
/// revision). 0xfe is the designated INVALID instruction and counts as
/// assigned; bytes outside these ranges are "other invalid".
pub open spec fn spec_is_assigned(b: u8) -> bool {
    ||| b <= 0x0b
    ||| (0x10 <= b && b <= 0x1d)
    ||| b == 0x20
    ||| (0x30 <= b && b <= 0x48)
    ||| (0x50 <= b && b <= 0x5b)
    ||| b == 0x5f
    ||| (0x60 <= b && b <= 0xa4)
    ||| (0xf0 <= b && b <= 0xf5)
    ||| b == 0xfa
    ||| b == 0xfd
    ||| b == 0xfe
    ||| b == 0xff
}

impl OpcodeId {
    /// The instruction identity of one byte.
    pub fn from_byte(b: u8) -> (r: OpcodeId)
        ensures
            r.0 == b,
    {
        OpcodeId(b)
    }

    /// The byte value of this instruction.
    pub fn as_u8(self) -> (r: u8)
        ensures
            r == self.0,
    {
        self.0
    }

    /// Whether this instruction is PUSH1..=PUSH32.
    pub fn is_push_with_data(self) -> (r: bool)
        ensures
            r == spec_is_push_with_data(self.0),
    {
        0x60 <= self.0 && self.0 <= 0x7f
    }

    /// The immediate-data length: 1..=32 for PUSH1..=PUSH32, 0 for every
    /// other instruction.
    pub fn immediate_len(self) -> (r: u8)
        ensures
            r == spec_immediate_len(self.0),
    {
        if 0x60 <= self.0 && self.0 <= 0x7f {
            self.0 - 0x5f
        } else {
            0
        }
    }

    /// The immediate-data length of a PUSH instruction; `None` for every
    /// instruction that carries no immediate.
    pub fn postfix(self) -> (r: Option<u8>)
        ensures
            match r {
                Some(n) => spec_is_push_with_data(self.0) && n == spec_immediate_len(self.0),
                None => !spec_is_push_with_data(self.0),
            },
    {
        if 0x60 <= self.0 && self.0 <= 0x7f {
            Some(self.0 - 0x5f)
        } else {
            None
        }
    }

    /// Whether the byte is unassigned in the targeted instruction set.
    /// Used only to decide a warning; counting is by byte value regardless.
    pub fn is_other_invalid(self) -> (r: bool)
        ensures
            r == !spec_is_assigned(self.0),
    {
        let b = self.0;
        !(b <= 0x0b || (0x10 <= b && b <= 0x1d) || b == 0x20 || (0x30 <= b && b <= 0x48)
            || (0x50 <= b && b <= 0x5b) || b == 0x5f || (0x60 <= b && b <= 0xa4)
            || (0xf0 <= b && b <= 0xf5) || b == 0xfa || b == 0xfd || b == 0xfe || b == 0xff)
    }
}

} // verus!
