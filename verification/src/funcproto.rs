//! The part of a function prototype that call-site processing reads.

use vstd::prelude::*;

verus! {

/// Marks the stack adjustment a call makes as not known.
pub const EXTRAPOP_UNKNOWN: i32 = 0x8000;

/// A function prototype, reduced to the stack adjustment a call makes beyond
/// popping its return address.
#[derive(Clone, Copy, PartialEq, Eq, Debug, Structural)]
pub struct FuncProto {
    extra_pop: i32,
}

impl FuncProto {
    /// A prototype whose extra-pop is not known yet.
    pub fn new() -> (r: Self)
        ensures
            r.spec_extra_pop() == EXTRAPOP_UNKNOWN,
    {
        FuncProto { extra_pop: EXTRAPOP_UNKNOWN }
    }

    /// The extra-pop as a plain value.
    pub closed spec fn spec_extra_pop(&self) -> i32 {
        self.extra_pop
    }

    /// The stack adjustment a call makes beyond popping its return address.
    pub fn get_extra_pop(&self) -> (r: i32)
        ensures
            r == self.spec_extra_pop(),
    {
        self.extra_pop
    }

    /// Records the stack adjustment a call makes.
    pub fn set_extra_pop(&mut self, value: i32)
        ensures
            final(self).spec_extra_pop() == value,
    {
        self.extra_pop = value;
    }
}

} // verus!
