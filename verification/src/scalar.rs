//! Scalar elements as bit patterns, and the requests made to the unit that
//! does arithmetic on them.
use vstd::prelude::*;

verus! {

/// One arithmetic request on two binary32 numbers given by their bit
/// patterns. The unit of a runtime answers with the bit pattern of the result.
#[derive(Debug, Clone, Copy, PartialEq, Eq, Structural)]
pub enum ScalarOp {
    Add(u32, u32),
    Sub(u32, u32),
    Mul(u32, u32),
}

/// The bit pattern of positive zero.
pub const ZERO: u32 = 0;

/// The bit pattern of one.
pub const ONE: u32 = 0x3f80_0000;

/// The bit pattern of positive infinity, the largest pattern that is
/// greater than zero.
pub const INFINITY: u32 = 0x7f80_0000;

/// Whether the binary32 number with this bit pattern is greater than zero:
/// the sign bit is clear and the pattern is neither zero nor a NaN.
pub open spec fn positive(bits: u32) -> bool {
    0 < bits <= INFINITY
}

/// Whether the binary32 number with this bit pattern is greater than zero.
pub fn is_positive(bits: u32) -> (b: bool)
    ensures
        b == positive(bits),
{
    0 < bits && bits <= INFINITY
}

/// The rectified value of an element: itself when greater than zero, else
/// positive zero.
pub open spec fn rectified(bits: u32) -> u32 {
    if positive(bits) {
        bits
    } else {
        ZERO
    }
}

/// The factor by which rectification scales the gradient of an element
/// whose rectified value is `out`: one where it is greater than zero, else
/// zero.
pub open spec fn mask(out: u32) -> u32 {
    if positive(out) {
        ONE
    } else {
        ZERO
    }
}

/// The mask of a rectified value is the mask of the value itself: whether
/// the gradient passes can be read off the result as well as the operand.
pub proof fn lemma_mask_rectified(bits: u32)
    ensures
        mask(rectified(bits)) == mask(bits),
        mask(bits) == ONE <==> positive(bits),
{
}

/// The bit pattern of the integer `nibble - 8`, for a 4-bit `nibble`.
pub open spec fn centered(nibble: u8) -> u32 {
    if nibble == 0 {
        0xc100_0000
    } else if nibble == 1 {
        0xc0e0_0000
    } else if nibble == 2 {
        0xc0c0_0000
    } else if nibble == 3 {
        0xc0a0_0000
    } else if nibble == 4 {
        0xc080_0000
    } else if nibble == 5 {
        0xc040_0000
    } else if nibble == 6 {
        0xc000_0000
    } else if nibble == 7 {
        0xbf80_0000
    } else if nibble == 8 {
        0
    } else if nibble == 9 {
        0x3f80_0000
    } else if nibble == 10 {
        0x4000_0000
    } else if nibble == 11 {
        0x4040_0000
    } else if nibble == 12 {
        0x4080_0000
    } else if nibble == 13 {
        0x40a0_0000
    } else if nibble == 14 {
        0x40c0_0000
    } else {
        0x40e0_0000
    }
}

/// The low 4 bits of a packed byte.
pub open spec fn low_nibble(packed: u8) -> u8 {
    packed & 0x0f
}

/// The high 4 bits of a packed byte.
pub open spec fn high_nibble(packed: u8) -> u8 {
    (packed >> 4) & 0x0f
}

/// The bit pattern of the integer `nibble - 8`, for a 4-bit `nibble`.
pub fn center(nibble: u8) -> (bits: u32)
    requires
        nibble < 16,
    ensures
        bits == centered(nibble),
{
    match nibble {
        0 => 0xc100_0000,
        1 => 0xc0e0_0000,
        2 => 0xc0c0_0000,
        3 => 0xc0a0_0000,
        4 => 0xc080_0000,
        5 => 0xc040_0000,
        6 => 0xc000_0000,
        7 => 0xbf80_0000,
        8 => 0,
        9 => 0x3f80_0000,
        10 => 0x4000_0000,
        11 => 0x4040_0000,
        12 => 0x4080_0000,
        13 => 0x40a0_0000,
        14 => 0x40c0_0000,
        _ => 0x40e0_0000,
    }
}

} // verus!
