//! The core actions whose graph mutation is representable here.

use vstd::prelude::*;

use crate::action::{Action, arenas_grow};
use crate::deadcode::{consumed_bits, eliminate_dead_code, eliminated, unconsumed_count};
use crate::graph::{Funcdata, OpId};

verus! {

/// Removes operations whose results have no observable consumer.
pub struct ActionDeadCode;

impl Action for ActionDeadCode {
    open spec fn title(&self) -> Seq<char> {
        "deadcode"@
    }

    fn name(&self) -> (r: &'static str) {
        "deadcode"
    }

    open spec fn reports(&self, pre: Funcdata, post: Funcdata, changes: usize) -> bool {
        changes == unconsumed_count(&pre, consumed_bits(&pre), pre.opv().len() as int)
    }

    fn apply(&self, data: &mut Funcdata) -> (changes: usize)
        ensures
            changes == unconsumed_count(&*old(data), consumed_bits(&*old(data)), old(data).opv().len() as int),
            final(data).vns().len() == old(data).vns().len(),
            final(data).opv().len() == old(data).opv().len(),
            final(data).bls().len() == old(data).bls().len(),
            final(data).same_header(&*old(data)),
            forall|o: OpId|
                #![trigger final(data).opn(o)]
                final(data).valid_op(o) ==> eliminated(&*old(data), &*final(data), consumed_bits(&*old(data)), o),
    {
        eliminate_dead_code(data)
    }
}

/// Every core action whose graph mutation is representable.
pub fn all() -> (r: Vec<Box<dyn Action>>)
    ensures
        r@.len() == 1,
{
    let entry: Box<dyn Action> = Box::new(ActionDeadCode);
    vec![entry]
}

} // verus!
