//! P-code vocabulary: operation codes and the address spaces a varnode can
//! live in.
//!
//! The operation codes are SLEIGH's `OpCode` numbering. The address-space
//! identifiers are the ones this library assigns to the four spaces the graph
//! distinguishes; only their identity matters, never their magnitude.

use vstd::prelude::*;

verus! {

/// Copy one varnode into another.
pub const COPY: i32 = 1;
/// Load from a pointer into a given address space.
pub const LOAD: i32 = 2;
/// Store at a pointer into a given address space.
pub const STORE: i32 = 3;
/// Always branch.
pub const BRANCH: i32 = 4;
/// Conditional branch.
pub const CBRANCH: i32 = 5;
/// Indirect branch (jumptable).
pub const BRANCHIND: i32 = 6;
/// Call to an absolute address.
pub const CALL: i32 = 7;
/// Call through an indirect address.
pub const CALLIND: i32 = 8;
/// User-defined operation.
pub const CALLOTHER: i32 = 9;
/// Return from subroutine.
pub const RETURN: i32 = 10;
/// Integer comparison, equality (==).
pub const INT_EQUAL: i32 = 11;
/// Integer comparison, inequality (!=).
pub const INT_NOTEQUAL: i32 = 12;
/// Integer comparison, signed less-than (<).
pub const INT_SLESS: i32 = 13;
/// Integer comparison, signed less-than-or-equal (<=).
pub const INT_SLESSEQUAL: i32 = 14;
/// Integer comparison, unsigned less-than (<).
pub const INT_LESS: i32 = 15;
/// Integer comparison, unsigned less-than-or-equal (<=).
pub const INT_LESSEQUAL: i32 = 16;
/// Zero extension.
pub const INT_ZEXT: i32 = 17;
/// Sign extension.
pub const INT_SEXT: i32 = 18;
/// Addition, signed or unsigned (+).
pub const INT_ADD: i32 = 19;
/// Subtraction, signed or unsigned (-).
pub const INT_SUB: i32 = 20;
/// Test for unsigned carry.
pub const INT_CARRY: i32 = 21;
/// Test for signed carry.
pub const INT_SCARRY: i32 = 22;
/// Test for signed borrow.
pub const INT_SBORROW: i32 = 23;
/// Twos complement.
pub const INT_2COMP: i32 = 24;
/// Logical/bitwise negation (~).
pub const INT_NEGATE: i32 = 25;
/// Logical/bitwise exclusive-or (^).
pub const INT_XOR: i32 = 26;
/// Logical/bitwise and (&).
pub const INT_AND: i32 = 27;
/// Logical/bitwise or (|).
pub const INT_OR: i32 = 28;
/// Left shift (<<).
pub const INT_LEFT: i32 = 29;
/// Right shift, logical (>>).
pub const INT_RIGHT: i32 = 30;
/// Right shift, arithmetic (>>).
pub const INT_SRIGHT: i32 = 31;
/// Integer multiplication, signed and unsigned (*).
pub const INT_MULT: i32 = 32;
/// Integer division, unsigned (/).
pub const INT_DIV: i32 = 33;
/// Integer division, signed (/).
pub const INT_SDIV: i32 = 34;
/// Remainder/modulo, unsigned (%).
pub const INT_REM: i32 = 35;
/// Remainder/modulo, signed (%).
pub const INT_SREM: i32 = 36;
/// Boolean negate (!).
pub const BOOL_NEGATE: i32 = 37;
/// Boolean exclusive-or (^^).
pub const BOOL_XOR: i32 = 38;
/// Boolean and (&&).
pub const BOOL_AND: i32 = 39;
/// Boolean or (||).
pub const BOOL_OR: i32 = 40;
/// Floating-point comparison, equality (==).
pub const FLOAT_EQUAL: i32 = 41;
/// Floating-point comparison, inequality (!=).
pub const FLOAT_NOTEQUAL: i32 = 42;
/// Floating-point comparison, less-than (<).
pub const FLOAT_LESS: i32 = 43;
/// Floating-point comparison, less-than-or-equal (<=).
pub const FLOAT_LESSEQUAL: i32 = 44;
/// Not-a-number test.
pub const FLOAT_NAN: i32 = 46;
/// Floating-point addition (+).
pub const FLOAT_ADD: i32 = 47;
/// Floating-point division (/).
pub const FLOAT_DIV: i32 = 48;
/// Floating-point multiplication (*).
pub const FLOAT_MULT: i32 = 49;
/// Floating-point subtraction (-).
pub const FLOAT_SUB: i32 = 50;
/// Floating-point negation (-).
pub const FLOAT_NEG: i32 = 51;
/// Floating-point absolute value.
pub const FLOAT_ABS: i32 = 52;
/// Floating-point square root.
pub const FLOAT_SQRT: i32 = 53;
/// Convert an integer to floating-point.
pub const FLOAT_INT2FLOAT: i32 = 54;
/// Convert between floating-point precisions.
pub const FLOAT_FLOAT2FLOAT: i32 = 55;
/// Round towards zero.
pub const FLOAT_TRUNC: i32 = 56;
/// Round towards positive infinity.
pub const FLOAT_CEIL: i32 = 57;
/// Round towards negative infinity.
pub const FLOAT_FLOOR: i32 = 58;
/// Round towards nearest.
pub const FLOAT_ROUND: i32 = 59;
/// Phi-node operator.
pub const MULTIEQUAL: i32 = 60;
/// Copy with an indirect effect.
pub const INDIRECT: i32 = 61;
/// Concatenate.
pub const PIECE: i32 = 62;
/// Truncate.
pub const SUBPIECE: i32 = 63;
/// Cast from one data-type to another.
pub const CAST: i32 = 64;
/// Index into an array ([]).
pub const PTRADD: i32 = 65;
/// Drill down to a sub-field (->).
pub const PTRSUB: i32 = 66;
/// Look up a segmented address.
pub const SEGMENTOP: i32 = 67;
/// Recover a value from the constant pool.
pub const CPOOLREF: i32 = 68;
/// Allocate a new object (new).
pub const NEW: i32 = 69;
/// Insert a bit-range.
pub const INSERT: i32 = 70;
/// Extract a bit-range.
pub const EXTRACT: i32 = 71;
/// Count the 1-bits.
pub const POPCOUNT: i32 = 72;
/// Count the leading 0-bits.
pub const LZCOUNT: i32 = 73;
/// Pull a zero-extended bit-range out of a value: `ZPULL(root, position, width)`.
pub const ZPULL: i32 = 74;
/// Pull a sign-extended bit-range out of a value: `SPULL(root, position, width)`.
pub const SPULL: i32 = 75;
/// An instruction the lifter could not translate.
pub const UNIMPLEMENTED: i32 = 76;
/// One past the largest opcode.
pub const PCODE_MAX: i32 = 77;

/// The space of constants: a varnode here holds its value in its offset.
pub const CONST_SPACE: u32 = 0;
/// The space of compiler temporaries.
pub const UNIQUE_SPACE: u32 = 1;
/// The processor's register file.
pub const REGISTER_SPACE: u32 = 2;
/// Main memory.
pub const RAM_SPACE: u32 = 3;

/// A storage location: an address space, an offset within it, and a width in
/// bytes.
#[derive(Copy, Clone, PartialEq, Eq, PartialOrd, Ord, Hash, Debug, Structural)]
pub struct Varnode {
    pub space: u32,
    pub offset: u64,
    pub size: u32,
}

impl Varnode {
    /// A location from its three parts.
    pub fn new(space: u32, offset: u64, size: u32) -> (r: Self)
        ensures
            r == (Varnode { space, offset, size }),
    {
        Varnode { space, offset, size }
    }
}

} // verus!

verus! {

/// A machine location a pass reasons about by value: where an argument,
/// a return value or the frame base lives.
#[derive(Copy, Clone, PartialEq, Eq, PartialOrd, Ord, Hash, Debug, Structural)]
pub struct Location {
    pub space: u32,
    pub offset: u64,
    pub size: u32,
}

} // verus!
