use lib::action::Action;
use lib::callspecs::FuncCallSpecs;
use lib::callproto::{ActionActiveReturn, ActionFuncLink, ActionParamDouble, ParamActive, TrialState, ancestor_realistic, call_arguments};
use lib::graph::{Funcdata, GraphBlockId, OpId, SeqNum, VarnodeId};
use lib::pcode::{CALL, COPY, INDIRECT, INT_ADD, Location, MULTIEQUAL, PIECE, RAM_SPACE, REGISTER_SPACE, SUBPIECE};

fn seq(address: u64, order: u32) -> SeqNum {
    SeqNum { address, order }
}

#[test]
fn ancestor_realistic_distinguishes_computed_callee_and_entry_values() {
    let mut data = Funcdata::default();
    let block = data.new_block(0x1000);
    let constant = data.new_constant(7, 4);
    let computed = data.new_unique(4);
    let add = data.new_op(INT_ADD, seq(0x1000, 0), vec![constant, constant]);
    data.op_set_output(add, Some(computed));
    data.op_insert_end(add, block);
    assert!(ancestor_realistic(&data, computed));

    let target = data.new_varnode(RAM_SPACE, 0x3000, 4);
    let call = data.new_op(CALL, seq(0x1004, 0), vec![target]);
    let leftover = data.new_varnode(REGISTER_SPACE, 0x10, 4);
    data.op_set_output(call, Some(leftover));
    data.op_insert_end(call, block);
    assert!(!ancestor_realistic(&data, leftover));

    let entry = data.new_varnode(REGISTER_SPACE, 0x20, 4);
    data.mark_input(entry);
    assert!(!ancestor_realistic(&data, entry));
}

#[test]
fn a_merge_is_realistic_only_when_every_path_is() {
    let mut data = Funcdata::default();
    let block = data.new_block(0x1000);
    let constant = data.new_constant(7, 4);
    let computed = data.new_unique(4);
    let add = data.new_op(INT_ADD, seq(0x1000, 0), vec![constant, constant]);
    data.op_set_output(add, Some(computed));
    data.op_insert_end(add, block);
    let entry = data.new_varnode(REGISTER_SPACE, 0x20, 4);
    data.mark_input(entry);

    // A copy passes its operand's ancestry on.
    let copy = data.new_op(COPY, seq(0x1004, 0), vec![computed]);
    let copied = data.new_unique(4);
    data.op_set_output(copy, Some(copied));
    data.op_insert_end(copy, block);
    assert!(ancestor_realistic(&data, copied));

    let merge = data.new_op(MULTIEQUAL, seq(0x1008, 0), vec![computed, entry]);
    let merged = data.new_unique(4);
    data.op_set_output(merge, Some(merged));
    data.op_insert_end(merge, block);
    assert!(!ancestor_realistic(&data, merged));

    let both = data.new_op(MULTIEQUAL, seq(0x100c, 0), vec![computed, copied]);
    let both_out = data.new_unique(4);
    data.op_set_output(both, Some(both_out));
    data.op_insert_end(both, block);
    assert!(ancestor_realistic(&data, both_out));
}

#[test]
fn final_trial_check_settles_each_trial_by_its_value() {
    let mut data = Funcdata::default();
    let block = data.new_block(0x1000);
    let entry = data.new_varnode(REGISTER_SPACE, 0x10, 4);
    data.mark_input(entry);
    let constant = data.new_constant(7, 4);
    let computed = data.new_unique(4);
    let add = data.new_op(INT_ADD, seq(0x1000, 0), vec![constant, constant]);
    data.op_set_output(add, Some(computed));
    data.op_insert_end(add, block);

    let mut trials = ParamActive::new();
    trials.register(Location { space: REGISTER_SPACE, offset: 0x10, size: 4 });
    trials.register(Location { space: REGISTER_SPACE, offset: 0x14, size: 4 });
    trials.register(Location { space: REGISTER_SPACE, offset: 0x18, size: 4 });
    trials.trials_mut()[1].value = Some(computed);
    trials.final_trial_check(&data);

    let settled = trials.trials();
    // The first takes the entry value at its location, which passes through.
    assert_eq!(settled[0].value, Some(entry));
    assert_eq!(settled[0].state, TrialState::Inactive);
    // The attached computed value is a parameter.
    assert_eq!(settled[1].state, TrialState::Active);
    // Nothing is at the third location.
    assert_eq!(settled[2].value, None);
    assert_eq!(settled[2].state, TrialState::NoUse);
}

fn location(offset: u64) -> Location {
    Location { space: REGISTER_SPACE, offset, size: 4 }
}

/// An `INDIRECT` guard at the end of `block` that carries `value` into a
/// fresh copy of `at`, as the guards standing before a call do.
fn guard(data: &mut Funcdata, block: GraphBlockId, value: VarnodeId, at: Location, order: u32) -> OpId {
    let effect = data.new_constant(0, 4);
    let op = data.new_op(INDIRECT, seq(0x1003, order), vec![value, effect]);
    let out = data.new_varnode(at.space, at.offset, at.size);
    data.op_set_output(op, Some(out));
    data.op_insert_end(op, block);
    op
}

fn arguments_of(arguments: &[(OpId, Vec<VarnodeId>)], call: OpId) -> Vec<VarnodeId> {
    arguments.iter().find(|(id, _)| *id == call).map(|(_, values)| values.clone()).expect("the call is listed")
}

#[test]
fn untouched_pass_through_argument_is_recovered() {
    let loc = location(0x10);
    let mut data = Funcdata::default();
    data.entry = 0x1000;
    let block = data.new_block(data.entry);
    let entry = data.new_varnode(loc.space, loc.offset, loc.size);
    data.mark_input(entry);
    guard(&mut data, block, entry, loc, 0);
    let target = data.new_varnode(RAM_SPACE, 0x3000, 4);
    let call = data.new_op(CALL, seq(0x1004, 0), vec![target]);
    data.op_insert_end(call, block);

    let arguments = call_arguments(&data, &[loc]);
    let argument = arguments_of(&arguments, call)[0];
    assert_eq!(data.varnode(argument).space, REGISTER_SPACE);
    assert_eq!(data.varnode(argument).offset, loc.offset);
    assert!(data.varnode(argument).flags.input);
}

#[test]
fn a_wide_piece_is_one_argument() {
    let loc_lo = location(0x10);
    let loc_hi = location(0x14);
    let mut data = Funcdata::default();
    data.entry = 0x1000;
    let block = data.new_block(data.entry);
    let lo = data.new_constant(1, 4);
    let hi = data.new_constant(2, 4);
    let whole = data.new_unique(8);
    let piece = data.new_op(PIECE, seq(0x1000, 0), vec![hi, lo]);
    data.op_set_output(piece, Some(whole));
    data.op_insert_end(piece, block);
    let sub_lo = data.new_varnode(REGISTER_SPACE, loc_lo.offset, 4);
    let lo_zero = data.new_constant(0, 4);
    let lo_op = data.new_op(SUBPIECE, seq(0x1000, 1), vec![whole, lo_zero]);
    data.op_set_output(lo_op, Some(sub_lo));
    data.op_insert_end(lo_op, block);
    let sub_hi = data.new_varnode(REGISTER_SPACE, loc_hi.offset, 4);
    let hi_four = data.new_constant(4, 4);
    let hi_op = data.new_op(SUBPIECE, seq(0x1000, 2), vec![whole, hi_four]);
    data.op_set_output(hi_op, Some(sub_hi));
    data.op_insert_end(hi_op, block);
    guard(&mut data, block, sub_lo, loc_lo, 0);
    guard(&mut data, block, sub_hi, loc_hi, 1);
    let target = data.new_varnode(RAM_SPACE, 0x3000, 4);
    let call = data.new_op(CALL, seq(0x1004, 0), vec![target]);
    data.op_insert_end(call, block);

    let arguments = call_arguments(&data, &[loc_lo, loc_hi]);
    assert_eq!(arguments_of(&arguments, call), vec![whole]);

    let mut linked = data.clone();
    linked.op_set_inputs(call, vec![target, sub_lo, sub_hi]);
    assert_eq!(ActionParamDouble.apply(&mut linked), 1);
    assert_eq!(linked.op(call).inputs, vec![target, whole]);
    let mut declined = data.clone();
    declined.op_set_inputs(call, vec![target, sub_lo, hi]);
    assert_eq!(ActionParamDouble.apply(&mut declined), 0);
}

#[test]
fn a_trial_after_the_first_unused_one_is_not_claimed() {
    let first = location(0x10);
    let gap = location(0x14);
    let later = location(0x18);
    let mut data = Funcdata::default();
    data.entry = 0x1000;
    let block = data.new_block(data.entry);
    let seven = data.new_constant(7, 4);
    let first_out = data.new_varnode(REGISTER_SPACE, first.offset, first.size);
    let first_copy = data.new_op(COPY, seq(0x1000, 0), vec![seven]);
    data.op_set_output(first_copy, Some(first_out));
    data.op_insert_end(first_copy, block);
    let old_target = data.new_varnode(RAM_SPACE, 0x4000, 4);
    let old_call = data.new_op(CALL, seq(0x1001, 0), vec![old_target]);
    let old_out = data.new_varnode(REGISTER_SPACE, gap.offset, gap.size);
    data.op_set_output(old_call, Some(old_out));
    data.op_insert_end(old_call, block);
    let later_out = data.new_varnode(REGISTER_SPACE, later.offset, later.size);
    let later_copy = data.new_op(COPY, seq(0x1002, 0), vec![seven]);
    data.op_set_output(later_copy, Some(later_out));
    data.op_insert_end(later_copy, block);
    guard(&mut data, block, first_out, first, 0);
    guard(&mut data, block, old_out, gap, 1);
    guard(&mut data, block, later_out, later, 2);
    let target = data.new_varnode(RAM_SPACE, 0x3000, 4);
    let call = data.new_op(CALL, seq(0x1004, 0), vec![target]);
    data.op_insert_end(call, block);

    let arguments = call_arguments(&data, &[first, gap, later]);
    let recovered = arguments_of(&arguments, call);
    let argument = recovered[0];
    assert_eq!(data.varnode(argument).space, REGISTER_SPACE);
    assert_eq!(data.varnode(argument).offset, first.offset);
    assert!(ancestor_realistic(&data, argument));
    assert_eq!(recovered.len(), 1, "the value left by the earlier call ends the list");
}

#[test]
fn active_return_fires_only_for_unconsumed_output() {
    let mut data = Funcdata::default();
    data.entry = 0x1000;
    let block = data.new_block(data.entry);
    let target = data.new_varnode(RAM_SPACE, 0x3000, 4);
    let first = data.new_op(CALL, seq(0x1000, 0), vec![target]);
    let first_out = data.new_varnode(REGISTER_SPACE, 0x10, 4);
    data.op_set_output(first, Some(first_out));
    data.op_insert_end(first, block);
    let second = data.new_op(CALL, seq(0x1004, 0), vec![target]);
    let second_out = data.new_varnode(REGISTER_SPACE, 0x14, 4);
    data.op_set_output(second, Some(second_out));
    data.op_insert_end(second, block);
    let use_op = data.new_op(INT_ADD, seq(0x1008, 0), vec![second_out, second_out]);
    data.op_insert_end(use_op, block);
    assert_eq!(ActionActiveReturn.apply(&mut data), 1);
    assert!(data.op(first).output.is_none());
    assert!(data.op(second).output.is_some());
    assert_eq!(ActionActiveReturn.apply(&mut data), 0);
}

#[test]
fn a_result_read_only_through_copies_is_not_consumed() {
    let mut data = Funcdata::default();
    let block = data.new_block(0x1000);
    let target = data.new_varnode(RAM_SPACE, 0x3000, 4);
    let call = data.new_op(CALL, seq(0x1000, 0), vec![target]);
    let result = data.new_varnode(REGISTER_SPACE, 0x10, 4);
    data.op_set_output(call, Some(result));
    data.op_insert_end(call, block);
    let copy = data.new_op(COPY, seq(0x1004, 0), vec![result]);
    let copied = data.new_unique(4);
    data.op_set_output(copy, Some(copied));
    data.op_insert_end(copy, block);
    assert_eq!(ActionActiveReturn.apply(&mut data), 1);
    assert!(data.op(call).output.is_none());

    // Once the copy feeds real work, the result is consumed.
    let mut used = Funcdata::default();
    let block = used.new_block(0x1000);
    let target = used.new_varnode(RAM_SPACE, 0x3000, 4);
    let call = used.new_op(CALL, seq(0x1000, 0), vec![target]);
    let result = used.new_varnode(REGISTER_SPACE, 0x10, 4);
    used.op_set_output(call, Some(result));
    used.op_insert_end(call, block);
    let copy = used.new_op(COPY, seq(0x1004, 0), vec![result]);
    let copied = used.new_unique(4);
    used.op_set_output(copy, Some(copied));
    used.op_insert_end(copy, block);
    let add = used.new_op(INT_ADD, seq(0x1008, 0), vec![copied, copied]);
    used.op_insert_end(add, block);
    assert_eq!(ActionActiveReturn.apply(&mut used), 0);
    assert_eq!(used.op(call).output, Some(result));
}

#[test]
fn func_link_changes_nothing() {
    let mut data = Funcdata::default();
    let block = data.new_block(0x1000);
    let target = data.new_varnode(RAM_SPACE, 0x3000, 4);
    let call = data.new_op(CALL, seq(0x1000, 0), vec![target]);
    data.op_insert_end(call, block);
    let before = data.clone();
    assert_eq!(ActionFuncLink.apply(&mut data), 0);
    assert_eq!(data, before);
}

#[test]
fn a_computed_argument_used_elsewhere_is_the_last_one() {
    let first = location(0x10);
    let second = location(0x14);
    let mut data = Funcdata::default();
    let block = data.new_block(0x1000);
    let seven = data.new_constant(7, 4);
    let computed = data.new_varnode(REGISTER_SPACE, first.offset, 4);
    let add = data.new_op(INT_ADD, seq(0x1000, 0), vec![seven, seven]);
    data.op_set_output(add, Some(computed));
    data.op_insert_end(add, block);
    // A second reader beyond the call's guards.
    let other = data.new_op(INT_ADD, seq(0x1001, 0), vec![computed, seven]);
    data.op_insert_end(other, block);
    let next = data.new_varnode(REGISTER_SPACE, second.offset, 4);
    let next_copy = data.new_op(COPY, seq(0x1002, 0), vec![seven]);
    data.op_set_output(next_copy, Some(next));
    data.op_insert_end(next_copy, block);
    guard(&mut data, block, computed, first, 0);
    guard(&mut data, block, next, second, 1);
    let target = data.new_varnode(RAM_SPACE, 0x3000, 4);
    let call = data.new_op(CALL, seq(0x1004, 0), vec![target]);
    data.op_insert_end(call, block);

    let arguments = call_arguments(&data, &[first, second]);
    assert_eq!(arguments.len(), 1);
    assert_eq!(arguments_of(&arguments, call), vec![computed]);
}

#[test]
fn a_graph_without_calls_has_no_arguments() {
    let mut data = Funcdata::default();
    let block = data.new_block(0x1000);
    let seven = data.new_constant(7, 4);
    let add = data.new_op(INT_ADD, seq(0x1000, 0), vec![seven, seven]);
    data.op_insert_end(add, block);
    assert!(call_arguments(&data, &[location(0x10)]).is_empty());
}

#[test]
fn a_call_site_reads_the_arguments_recovered_for_its_call() {
    let loc = location(0x10);
    let mut data = Funcdata::default();
    data.entry = 0x1000;
    let block = data.new_block(data.entry);
    let entry = data.new_varnode(loc.space, loc.offset, loc.size);
    data.mark_input(entry);
    guard(&mut data, block, entry, loc, 0);
    let target = data.new_varnode(RAM_SPACE, 0x3000, 4);
    let call = data.new_op(CALL, seq(0x1004, 0), vec![target]);
    data.op_insert_end(call, block);

    let expected = arguments_of(&call_arguments(&data, &[loc]), call);
    assert_eq!(expected.len(), 1);
    assert_eq!(FuncCallSpecs::new(call).argument_values(&data, &[loc]), expected);
    // A call-site record for an operation that is no call reads nothing.
    assert!(FuncCallSpecs::new(OpId(0)).argument_values(&data, &[loc]).is_empty());
}

#[test]
fn without_candidate_locations_a_call_has_no_arguments() {
    let mut data = Funcdata::default();
    data.entry = 0x1000;
    let block = data.new_block(data.entry);
    let target = data.new_varnode(RAM_SPACE, 0x3000, 4);
    let call = data.new_op(CALL, seq(0x1004, 0), vec![target]);
    data.op_insert_end(call, block);
    let arguments = call_arguments(&data, &[]);
    assert_eq!(arguments.len(), 1);
    assert!(arguments_of(&arguments, call).is_empty());
}
