//! Per-call prototype state.
//!
//! A call spec has two prototype slots: the working prototype at the call
//! site, and the recovered prototype of the called function. The second is
//! what a default-parameter pass copies into an unmaterialized call site
//! before it falls back to the evaluation model.

use vstd::prelude::*;

use crate::callproto::{ParamActive, Trial};
use crate::funcproto::{EXTRAPOP_UNKNOWN, FuncProto};
use crate::graph::OpId;

verus! {

/// The stack offset of a call whose stack pointer is not known.
pub const STACK_OFFSET_UNKNOWN: u64 = 0x0BAD_BEEF;

/// What a call spec holds, as plain values.
pub struct CallSpecsView {
    pub op: OpId,
    pub prototype: Option<FuncProto>,
    pub callee_prototype: Option<FuncProto>,
    pub effective_extra_pop: i32,
    pub stack_offset: u64,
    pub stack_placeholder_slot: Option<usize>,
    pub paramshift: i32,
    pub match_call_count: usize,
    pub active_input: Seq<Trial>,
    pub active_output: Seq<Trial>,
    pub input_consume: Seq<i32>,
    pub input_active: bool,
    pub output_active: bool,
    pub bad_jump_table: bool,
    pub stack_output_lock: bool,
}

/// One evolving prototype attached to a `CALL` or `CALLIND` operation.
///
/// The operation id stays valid in the graph arena even after the
/// operation is destroyed, so a caller can keep a spec while an action
/// checks whether its operation is still live.
#[derive(Clone, Debug, PartialEq, Eq)]
pub struct FuncCallSpecs {
    op: OpId,
    prototype: Option<FuncProto>,
    callee_prototype: Option<FuncProto>,
    effective_extra_pop: i32,
    stack_offset: u64,
    stack_placeholder_slot: Option<usize>,
    paramshift: i32,
    match_call_count: usize,
    active_input: ParamActive,
    active_output: ParamActive,
    input_consume: Vec<i32>,
    input_active: bool,
    output_active: bool,
    bad_jump_table: bool,
    stack_output_lock: bool,
}

/// The state of a freshly made call spec for `op`.
pub open spec fn fresh_call_specs(op: OpId) -> CallSpecsView {
    CallSpecsView {
        op,
        prototype: None,
        callee_prototype: None,
        effective_extra_pop: EXTRAPOP_UNKNOWN,
        stack_offset: STACK_OFFSET_UNKNOWN,
        stack_placeholder_slot: None,
        paramshift: 0,
        match_call_count: 0,
        active_input: Seq::empty(),
        active_output: Seq::empty(),
        input_consume: Seq::empty(),
        input_active: false,
        output_active: false,
        bad_jump_table: false,
        stack_output_lock: false,
    }
}

/// The consumed-byte estimate recorded for `slot`; zero stands for all
/// bytes, and a slot never recorded reads as zero.
pub open spec fn consumed_at(consume: Seq<i32>, slot: int) -> i32 {
    if 0 <= slot < consume.len() {
        consume[slot]
    } else {
        0
    }
}

/// Whether `set_input_bytes_consumed(slot, value)` records `value`: a
/// negative estimate is refused, and a recorded non-zero estimate may only
/// become smaller.
pub open spec fn consume_accepts(consume: Seq<i32>, slot: int, value: i32) -> bool {
    value >= 0 && (consumed_at(consume, slot) == 0 || value < consumed_at(consume, slot))
}

/// The estimates after `set_input_bytes_consumed(slot, value)`: a list that
/// ends before `slot` is padded with zeros up to it, every other entry is
/// kept, and the slot takes `value` when it is accepted.
pub open spec fn consume_after(consume: Seq<i32>, slot: int, value: i32) -> Seq<i32> {
    if value < 0 {
        consume
    } else {
        let padded = if slot < consume.len() {
            consume
        } else {
            Seq::new((slot + 1) as nat, |k: int| consumed_at(consume, k))
        };
        if consume_accepts(consume, slot, value) {
            padded.update(slot, value)
        } else {
            padded
        }
    }
}

impl View for FuncCallSpecs {
    type V = CallSpecsView;

    closed spec fn view(&self) -> CallSpecsView {
        CallSpecsView {
            op: self.op,
            prototype: self.prototype,
            callee_prototype: self.callee_prototype,
            effective_extra_pop: self.effective_extra_pop,
            stack_offset: self.stack_offset,
            stack_placeholder_slot: self.stack_placeholder_slot,
            paramshift: self.paramshift,
            match_call_count: self.match_call_count,
            active_input: self.active_input@,
            active_output: self.active_output@,
            input_consume: self.input_consume@,
            input_active: self.input_active,
            output_active: self.output_active,
            bad_jump_table: self.bad_jump_table,
            stack_output_lock: self.stack_output_lock,
        }
    }
}

impl FuncCallSpecs {
    /// A call spec with no materialized prototype. A missing prototype is
    /// the state a default-parameter pass fills in.
    pub fn new(op: OpId) -> (r: Self)
        ensures
            r@ == fresh_call_specs(op),
    {
        FuncCallSpecs {
            op,
            prototype: None,
            callee_prototype: None,
            effective_extra_pop: EXTRAPOP_UNKNOWN,
            stack_offset: STACK_OFFSET_UNKNOWN,
            stack_placeholder_slot: None,
            paramshift: 0,
            match_call_count: 0,
            active_input: ParamActive::new(),
            active_output: ParamActive::new(),
            input_consume: Vec::new(),
            input_active: false,
            output_active: false,
            bad_jump_table: false,
            stack_output_lock: false,
        }
    }

    /// A call spec whose working prototype is already materialized.
    pub fn with_prototype(op: OpId, prototype: FuncProto) -> (r: Self)
        ensures
            r@ == (CallSpecsView { prototype: Some(prototype), ..fresh_call_specs(op) }),
    {
        let mut result = Self::new(op);
        result.prototype = Some(prototype);
        result
    }

    /// The graph operation this spec stands for.
    pub fn op(&self) -> (r: OpId)
        ensures
            r == self@.op,
    {
        self.op
    }

    /// The graph operation this spec stands for.
    pub fn get_op(&self) -> (r: OpId)
        ensures
            r == self@.op,
    {
        self.op()
    }

    /// The working call-site prototype, if one has been materialized.
    pub fn prototype(&self) -> (r: Option<&FuncProto>)
        ensures
            r is Some == self@.prototype is Some,
            r is Some ==> *r.unwrap() == self@.prototype.unwrap(),
    {
        self.prototype.as_ref()
    }

    /// Mutable access to the working call-site prototype.
    pub fn prototype_mut(&mut self) -> (r: Option<&mut FuncProto>)
        ensures
            r is Some == old(self)@.prototype is Some,
            r is Some ==> *r.unwrap() == old(self)@.prototype.unwrap() && final(self)@ == (CallSpecsView {
                prototype: Some(*final(r.unwrap())),
                ..old(self)@
            }),
            r is None ==> final(self)@ == old(self)@,
    {
        self.prototype.as_mut()
    }

    /// Replace the working call-site prototype.
    pub fn set_prototype(&mut self, prototype: FuncProto)
        ensures
            final(self)@ == (CallSpecsView { prototype: Some(prototype), ..old(self)@ }),
    {
        self.prototype = Some(prototype);
    }

    /// Remove the working call-site prototype, back to the unmaterialized
    /// state.
    pub fn take_prototype(&mut self) -> (r: Option<FuncProto>)
        ensures
            r == old(self)@.prototype,
            final(self)@ == (CallSpecsView { prototype: None, ..old(self)@ }),
    {
        self.prototype.take()
    }

    /// The recovered prototype of the known callee, if available.
    pub fn callee_prototype(&self) -> (r: Option<&FuncProto>)
        ensures
            r is Some == self@.callee_prototype is Some,
            r is Some ==> *r.unwrap() == self@.callee_prototype.unwrap(),
    {
        self.callee_prototype.as_ref()
    }

    /// Mutable access to the recovered callee prototype.
    pub fn callee_prototype_mut(&mut self) -> (r: Option<&mut FuncProto>)
        ensures
            r is Some == old(self)@.callee_prototype is Some,
            r is Some ==> *r.unwrap() == old(self)@.callee_prototype.unwrap() && final(self)@ == (CallSpecsView {
                callee_prototype: Some(*final(r.unwrap())),
                ..old(self)@
            }),
            r is None ==> final(self)@ == old(self)@,
    {
        self.callee_prototype.as_mut()
    }

    /// Attach the callee's own recovered prototype.
    pub fn set_callee_prototype(&mut self, prototype: FuncProto)
        ensures
            final(self)@ == (CallSpecsView { callee_prototype: Some(prototype), ..old(self)@ }),
    {
        self.callee_prototype = Some(prototype);
    }

    /// Remove the callee link.
    pub fn take_callee_prototype(&mut self) -> (r: Option<FuncProto>)
        ensures
            r == old(self)@.callee_prototype,
            final(self)@ == (CallSpecsView { callee_prototype: None, ..old(self)@ }),
    {
        self.callee_prototype.take()
    }

    /// Whether a recovered callee prototype is attached.
    pub fn has_callee_prototype(&self) -> (r: bool)
        ensures
            r == self@.callee_prototype is Some,
    {
        self.callee_prototype.is_some()
    }

    /// The extra-pop of the working prototype, or unknown without one.
    pub fn get_extra_pop(&self) -> (r: i32)
        ensures
            r == (match self@.prototype {
                Some(p) => p.spec_extra_pop(),
                None => EXTRAPOP_UNKNOWN,
            }),
    {
        match self.prototype.as_ref() {
            Some(prototype) => prototype.get_extra_pop(),
            None => EXTRAPOP_UNKNOWN,
        }
    }

    /// The working extra-pop selected for this call.
    pub fn effective_extra_pop(&self) -> (r: i32)
        ensures
            r == self@.effective_extra_pop,
    {
        self.effective_extra_pop
    }

    /// The working extra-pop selected for this call.
    pub fn get_effective_extra_pop(&self) -> (r: i32)
        ensures
            r == self@.effective_extra_pop,
    {
        self.effective_extra_pop()
    }

    /// Set the call-specific effective extra-pop.
    pub fn set_effective_extra_pop(&mut self, value: i32)
        ensures
            final(self)@ == (CallSpecsView { effective_extra_pop: value, ..old(self)@ }),
    {
        self.effective_extra_pop = value;
    }

    /// Relative stack-pointer offset at this call site.
    pub fn stack_offset(&self) -> (r: u64)
        ensures
            r == self@.stack_offset,
    {
        self.stack_offset
    }

    /// Relative stack-pointer offset at this call site.
    pub fn get_spacebase_offset(&self) -> (r: u64)
        ensures
            r == self@.stack_offset,
    {
        self.stack_offset()
    }

    /// Set the relative stack-pointer offset.
    pub fn set_stack_offset(&mut self, value: u64)
        ensures
            final(self)@ == (CallSpecsView { stack_offset: value, ..old(self)@ }),
    {
        self.stack_offset = value;
    }

    /// The temporary CALL input slot used as a stack placeholder.
    pub fn stack_placeholder_slot(&self) -> (r: Option<usize>)
        ensures
            r == self@.stack_placeholder_slot,
    {
        self.stack_placeholder_slot
    }

    /// The temporary CALL input slot used as a stack placeholder.
    pub fn get_stack_placeholder_slot(&self) -> (r: Option<usize>)
        ensures
            r == self@.stack_placeholder_slot,
    {
        self.stack_placeholder_slot()
    }

    /// Set the stack-placeholder input slot.
    pub fn set_stack_placeholder_slot(&mut self, slot: usize)
        ensures
            final(self)@ == (CallSpecsView { stack_placeholder_slot: Some(slot), ..old(self)@ }),
    {
        self.stack_placeholder_slot = Some(slot);
    }

    /// Release the stack-placeholder input slot.
    pub fn clear_stack_placeholder_slot(&mut self)
        ensures
            final(self)@ == (CallSpecsView { stack_placeholder_slot: None, ..old(self)@ }),
    {
        self.stack_placeholder_slot = None;
    }

    /// Number of leading parameters ignored before the prototype's inputs.
    pub fn paramshift(&self) -> (r: i32)
        ensures
            r == self@.paramshift,
    {
        self.paramshift
    }

    /// Number of leading parameters ignored before the prototype's inputs.
    pub fn get_paramshift(&self) -> (r: i32)
        ensures
            r == self@.paramshift,
    {
        self.paramshift()
    }

    /// Set the call-site parameter shift.
    pub fn set_paramshift(&mut self, value: i32)
        ensures
            final(self)@ == (CallSpecsView { paramshift: value, ..old(self)@ }),
    {
        self.paramshift = value;
    }

    /// Number of matching calls to the same callee in this function.
    pub fn match_call_count(&self) -> (r: usize)
        ensures
            r == self@.match_call_count,
    {
        self.match_call_count
    }

    /// Number of matching calls to the same callee in this function.
    pub fn get_match_call_count(&self) -> (r: usize)
        ensures
            r == self@.match_call_count,
    {
        self.match_call_count()
    }

    /// Set the matching-call count.
    pub fn set_match_call_count(&mut self, value: usize)
        ensures
            final(self)@ == (CallSpecsView { match_call_count: value, ..old(self)@ }),
    {
        self.match_call_count = value;
    }

    /// Parameter trials in convention order for the call's inputs.
    pub fn active_input(&self) -> (r: &ParamActive)
        ensures
            r@ == self@.active_input,
    {
        &self.active_input
    }

    /// Mutable parameter trials for the call's inputs.
    pub fn active_input_mut(&mut self) -> (r: &mut ParamActive)
        ensures
            r@ == old(self)@.active_input,
            final(self)@ == (CallSpecsView { active_input: final(r)@, ..old(self)@ }),
    {
        &mut self.active_input
    }

    /// Parameter trials in convention order for the call's outputs.
    pub fn active_output(&self) -> (r: &ParamActive)
        ensures
            r@ == self@.active_output,
    {
        &self.active_output
    }

    /// Mutable parameter trials for the call's outputs.
    pub fn active_output_mut(&mut self) -> (r: &mut ParamActive)
        ensures
            r@ == old(self)@.active_output,
            final(self)@ == (CallSpecsView { active_output: final(r)@, ..old(self)@ }),
    {
        &mut self.active_output
    }

    /// Turn input-trial recovery on or off.
    pub fn set_input_active(&mut self, value: bool)
        ensures
            final(self)@ == (CallSpecsView { input_active: value, ..old(self)@ }),
    {
        self.input_active = value;
    }

    /// Whether input-trial recovery is active.
    pub fn is_input_active(&self) -> (r: bool)
        ensures
            r == self@.input_active,
    {
        self.input_active
    }

    /// Turn output-trial recovery on or off.
    pub fn set_output_active(&mut self, value: bool)
        ensures
            final(self)@ == (CallSpecsView { output_active: value, ..old(self)@ }),
    {
        self.output_active = value;
    }

    /// Whether output-trial recovery is active.
    pub fn is_output_active(&self) -> (r: bool)
        ensures
            r == self@.output_active,
    {
        self.output_active
    }

    /// Mark this call as an unresolved jump-table edge.
    pub fn set_bad_jump_table(&mut self, value: bool)
        ensures
            final(self)@ == (CallSpecsView { bad_jump_table: value, ..old(self)@ }),
    {
        self.bad_jump_table = value;
    }

    /// Whether this call came from an unresolved jump table.
    pub fn is_bad_jump_table(&self) -> (r: bool)
        ensures
            r == self@.bad_jump_table,
    {
        self.bad_jump_table
    }

    /// Mark the return value as locked in stack storage.
    pub fn set_stack_output_lock(&mut self, value: bool)
        ensures
            final(self)@ == (CallSpecsView { stack_output_lock: value, ..old(self)@ }),
    {
        self.stack_output_lock = value;
    }

    /// Whether the return value is locked in stack storage.
    pub fn is_stack_output_lock(&self) -> (r: bool)
        ensures
            r == self@.stack_output_lock,
    {
        self.stack_output_lock
    }

    /// The bytes consumed by one input slot; zero when not known.
    pub fn input_bytes_consumed(&self, slot: usize) -> (r: i32)
        ensures
            r == consumed_at(self@.input_consume, slot as int),
    {
        if slot < self.input_consume.len() {
            self.input_consume[slot]
        } else {
            0
        }
    }

    /// Record one input's consumed-byte estimate. Zero means all bytes; a
    /// recorded non-zero estimate may only become smaller. Returns whether
    /// the estimate was recorded.
    pub fn set_input_bytes_consumed(&mut self, slot: usize, value: i32) -> (r: bool)
        requires
            slot < usize::MAX,
        ensures
            r == consume_accepts(old(self)@.input_consume, slot as int, value),
            forall|k: int|
                k != slot ==> #[trigger] consumed_at(final(self)@.input_consume, k) == consumed_at(old(self)@.input_consume, k),
            consumed_at(final(self)@.input_consume, slot as int) == (if r {
                value
            } else {
                consumed_at(old(self)@.input_consume, slot as int)
            }),
            final(self)@ == (CallSpecsView {
                input_consume: consume_after(old(self)@.input_consume, slot as int, value),
                ..old(self)@
            }),
    {
        if value < 0 {
            return false;
        }
        let ghost before = self.input_consume@;
        if slot >= self.input_consume.len() {
            self.input_consume.resize(slot + 1, 0);
            proof {
                assert(self.input_consume@ =~= Seq::new((slot + 1) as nat, |k: int| consumed_at(before, k)));
            }
        }
        let old_value = self.input_consume[slot];
        if old_value == 0 || value < old_value {
            self.input_consume.set(slot, value);
            return true;
        }
        false
    }
}

/// Once a non-zero estimate is recorded for a slot, a later estimate for
/// the same slot can only lower it.
pub proof fn lemma_consumed_estimate_only_shrinks(consume: Seq<i32>, slot: int, first: i32, second: i32)
    requires
        0 <= slot,
        consume_accepts(consume, slot, first),
        first != 0,
    ensures
        consumed_at(consume_after(consume_after(consume, slot, first), slot, second), slot) <= first,
        consumed_at(consume_after(consume, slot, first), slot) == first,
{
}

} // verus!

verus! {

impl FuncCallSpecs {
    /// The arguments recovered for this call site by the shared trial engine,
    /// read from the locations the convention offers; none when the call site
    /// names no live call.
    pub fn argument_values(&self, data: &crate::graph::Funcdata, argument_locations: &[crate::pcode::Location]) -> (r: Vec<crate::graph::VarnodeId>)
        requires
            data.wf(),
        ensures
            r@ == (if crate::callproto::calls_of(data).contains(self@.op) {
                crate::callproto::call_args(data, self@.op, argument_locations@)
            } else {
                Seq::empty()
            }),
    {
        let all = crate::callproto::call_arguments(data, argument_locations);
        let mut k: usize = 0;
        while k < all.len()
            invariant
                all@.len() == crate::callproto::calls_of(data).len(),
                forall|m: int| 0 <= m < all@.len() ==> (#[trigger] all@[m]).0 == crate::callproto::calls_of(data)[m] && all@[m].1@
                    == crate::callproto::call_args(data, crate::callproto::calls_of(data)[m], argument_locations@),
                k <= all@.len(),
                forall|m: int| 0 <= m < k ==> crate::callproto::calls_of(data)[m] != self@.op,
            decreases all@.len() - k,
        {
            if all[k].0 == self.op {
                return crate::graph::copy_vn_ids(&all[k].1);
            }
            k += 1;
        }
        Vec::new()
    }
}

} // verus!
