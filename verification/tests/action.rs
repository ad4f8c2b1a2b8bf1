use lib::action::{Rule, RuleCollapseConstants, RuleMultiCollapse, RulePropagateCopy, RuleTrivialArith};
use lib::graph::{Funcdata, SeqNum};
use lib::pcode::{COPY, INT_ADD, MULTIEQUAL, REGISTER_SPACE, RETURN};

fn seq(address: u64) -> SeqNum {
    SeqNum { address, order: 0 }
}

#[test]
fn constant_operands_fold_into_one_value() {
    let mut data = Funcdata::default();
    let block = data.new_block(0x1000);
    let left = data.new_constant(2, 4);
    let right = data.new_constant(3, 4);
    let add = data.new_op(INT_ADD, seq(0x1000), vec![left, right]);
    let sum = data.new_unique(4);
    data.op_set_output(add, Some(sum));
    data.op_insert_end(add, block);

    assert_eq!(RuleCollapseConstants.apply_op(add, &mut data), 1);
    assert_eq!(data.op(add).opcode, COPY);
    let folded = data.op(add).inputs[0];
    assert_eq!(data.varnode(folded).offset, 5);
}

#[test]
fn folding_truncates_to_the_result_width() {
    let mut data = Funcdata::default();
    let block = data.new_block(0x1000);
    let left = data.new_constant(0xffff_ffff, 4);
    let right = data.new_constant(2, 4);
    let add = data.new_op(INT_ADD, seq(0x1000), vec![left, right]);
    let sum = data.new_unique(4);
    data.op_set_output(add, Some(sum));
    data.op_insert_end(add, block);

    RuleCollapseConstants.apply_op(add, &mut data);
    let folded = data.op(add).inputs[0];
    assert_eq!(data.varnode(folded).offset, 1, "the carry out is discarded");
}

#[test]
fn adding_zero_is_the_value_itself() {
    let mut data = Funcdata::default();
    let block = data.new_block(0x1000);
    let value = data.new_varnode(REGISTER_SPACE, 8, 4);
    let zero = data.new_constant(0, 4);
    let add = data.new_op(INT_ADD, seq(0x1000), vec![value, zero]);
    let sum = data.new_unique(4);
    data.op_set_output(add, Some(sum));
    data.op_insert_end(add, block);

    assert_eq!(RuleTrivialArith.apply_op(add, &mut data), 1);
    assert_eq!(data.op(add).opcode, COPY);
    assert_eq!(data.op(add).inputs, vec![value]);
}

#[test]
fn a_copy_into_a_temporary_is_propagated_to_its_readers() {
    let mut data = Funcdata::default();
    let block = data.new_block(0x1000);
    let source = data.new_varnode(REGISTER_SPACE, 8, 4);
    let copy = data.new_op(COPY, seq(0x1000), vec![source]);
    let temporary = data.new_unique(4);
    data.op_set_output(copy, Some(temporary));
    data.op_insert_end(copy, block);
    let ret = data.new_op(RETURN, seq(0x1004), vec![temporary]);
    data.op_insert_end(ret, block);

    assert_eq!(RulePropagateCopy.apply_op(copy, &mut data), 1);
    assert_eq!(data.op(ret).inputs, vec![source]);
    assert!(data.live_ops().iter().all(|id| data.op(*id).opcode != COPY));
}

#[test]
fn a_copy_between_two_named_locations_is_kept() {
    let mut data = Funcdata::default();
    let block = data.new_block(0x1000);
    let source = data.new_varnode(REGISTER_SPACE, 8, 4);
    let copy = data.new_op(COPY, seq(0x1000), vec![source]);
    let destination = data.new_varnode(REGISTER_SPACE, 16, 4);
    data.op_set_output(copy, Some(destination));
    data.op_insert_end(copy, block);
    let ret = data.new_op(RETURN, seq(0x1004), vec![destination]);
    data.op_insert_end(ret, block);

    assert_eq!(
        RulePropagateCopy.apply_op(copy, &mut data),
        0,
        "moving between registers is an observable assignment"
    );
}

#[test]
fn a_width_changing_copy_is_not_propagated() {
    let mut data = Funcdata::default();
    let block = data.new_block(0x1000);
    let wide = data.new_varnode(REGISTER_SPACE, 0, 2);
    let narrow = data.new_varnode(REGISTER_SPACE, 0, 1);
    let copy = data.new_op(COPY, SeqNum { address: 0x1000, order: 0 }, vec![wide]);
    data.op_set_output(copy, Some(narrow));
    data.op_insert_end(copy, block);
    let reader = data.new_op(INT_ADD, SeqNum { address: 0x1004, order: 0 }, vec![narrow, narrow]);
    let sum = data.new_unique(1);
    data.op_set_output(reader, Some(sum));
    data.op_insert_end(reader, block);

    assert_eq!(
        RulePropagateCopy.apply_op(copy, &mut data),
        0,
        "one byte and two bytes are not the same value"
    );
    assert_eq!(data.op(copy).opcode, COPY, "the copy survives");

    let same = data.new_varnode(REGISTER_SPACE, 0, 2);
    let other = data.new_unique(2);
    let plain = data.new_op(COPY, SeqNum { address: 0x1008, order: 0 }, vec![same]);
    data.op_set_output(plain, Some(other));
    data.op_insert_end(plain, block);
    let uses = data.new_op(INT_ADD, SeqNum { address: 0x100c, order: 0 }, vec![other, other]);
    let total = data.new_unique(2);
    data.op_set_output(uses, Some(total));
    data.op_insert_end(uses, block);
    assert_eq!(RulePropagateCopy.apply_op(plain, &mut data), 1);
}

#[test]
fn a_merge_of_two_values_computed_alike_becomes_that_computation() {
    let mut data = Funcdata::default();
    let entry = data.new_block(0x1000);
    let left = data.new_block(0x1010);
    let right = data.new_block(0x1020);
    let join = data.new_block(0x1030);
    data.add_edge(entry, left);
    data.add_edge(entry, right);
    data.add_edge(left, join);
    data.add_edge(right, join);
    let shared = data.new_constant(7, 4);
    let mut arms = Vec::new();
    for block in [left, right] {
        let start = data.block(block).start;
        let copy = data.new_op(COPY, seq(start), vec![shared]);
        let out = data.new_varnode(REGISTER_SPACE, 8, 4);
        data.op_set_output(copy, Some(out));
        data.op_insert_end(copy, block);
        arms.push(out);
    }
    let phi = data.new_op(MULTIEQUAL, seq(0x1030), vec![arms[0], arms[1]]);
    let read = data.new_varnode(REGISTER_SPACE, 8, 4);
    data.op_set_output(phi, Some(read));
    data.op_insert_end(phi, join);
    let ret = data.new_op(RETURN, seq(0x1030), vec![read]);
    data.op_insert_end(ret, join);

    assert_eq!(RuleMultiCollapse.apply_op(phi, &mut data), 1);
    assert_eq!(data.op(phi).opcode, COPY, "the merge is the computation both arms performed");
    assert_eq!(data.op(phi).inputs, vec![shared]);
}

#[test]
fn a_merge_against_an_unwritten_branch_refuses_functional_equality() {
    let mut data = Funcdata::default();
    let block = data.new_block(0x1000);
    let unwritten = data.new_varnode(REGISTER_SPACE, 8, 4);
    data.mark_input(unwritten);
    let constant = data.new_constant(7, 4);
    let copy = data.new_op(COPY, seq(0x1000), vec![constant]);
    let computed = data.new_varnode(REGISTER_SPACE, 8, 4);
    data.op_set_output(copy, Some(computed));
    data.op_insert_end(copy, block);
    let phi = data.new_op(MULTIEQUAL, seq(0x1000), vec![unwritten, computed]);
    let result = data.new_varnode(REGISTER_SPACE, 8, 4);
    data.op_set_output(phi, Some(result));
    data.op_insert_end(phi, block);

    assert_eq!(RuleMultiCollapse.apply_op(phi, &mut data), 0);
    assert_eq!(data.op(phi).opcode, MULTIEQUAL);
}

#[test]
fn a_merge_of_one_value_is_not_a_merge() {
    let mut data = Funcdata::default();
    let block = data.new_block(0x1000);
    let constant = data.new_constant(7, 4);
    let copy = data.new_op(COPY, seq(0x1000), vec![constant]);
    let computed = data.new_varnode(REGISTER_SPACE, 8, 4);
    data.op_set_output(copy, Some(computed));
    data.op_insert_end(copy, block);
    let phi = data.new_op(MULTIEQUAL, seq(0x1000), vec![computed, computed]);
    let result = data.new_varnode(REGISTER_SPACE, 8, 4);
    data.op_set_output(phi, Some(result));
    data.op_insert_end(phi, block);

    assert_eq!(RuleMultiCollapse.apply_op(phi, &mut data), 1);
    assert_eq!(data.op(phi).opcode, COPY);
    assert_eq!(data.op(phi).inputs, vec![computed]);
}

#[test]
fn a_loop_carried_operand_does_not_block_collapse() {
    let mut data = Funcdata::default();
    let block = data.new_block(0x1000);
    let value = data.new_varnode(REGISTER_SPACE, 8, 4);
    let phi = data.new_op(MULTIEQUAL, seq(0x1000), vec![value]);
    let result = data.new_varnode(REGISTER_SPACE, 8, 4);
    data.op_set_output(phi, Some(result));
    data.op_insert_end(phi, block);
    data.op_set_inputs(phi, vec![value, result]);

    assert_eq!(RuleMultiCollapse.apply_op(phi, &mut data), 1);
    assert_eq!(data.op(phi).inputs, vec![value]);
}

#[test]
fn two_phis_carrying_one_value_round_a_loop_both_collapse() {
    let mut data = Funcdata::default();
    let head = data.new_block(0x1000);
    let tail = data.new_block(0x1010);
    let value = data.new_varnode(REGISTER_SPACE, 8, 4);

    let head_phi = data.new_op(MULTIEQUAL, seq(0x1000), vec![value]);
    let head_out = data.new_varnode(REGISTER_SPACE, 8, 4);
    data.op_set_output(head_phi, Some(head_out));
    data.op_insert_end(head_phi, head);

    let tail_phi = data.new_op(MULTIEQUAL, seq(0x1010), vec![value]);
    let tail_out = data.new_varnode(REGISTER_SPACE, 8, 4);
    data.op_set_output(tail_phi, Some(tail_out));
    data.op_insert_end(tail_phi, tail);

    data.op_set_inputs(head_phi, vec![value, tail_out]);
    data.op_set_inputs(tail_phi, vec![value, head_out]);

    assert_eq!(RuleMultiCollapse.apply_op(head_phi, &mut data), 2);
    assert_eq!(data.op(head_phi).opcode, COPY);
    assert_eq!(data.op(head_phi).inputs, vec![value]);
    assert_eq!(data.op(tail_phi).opcode, COPY, "the tail's phi is no longer a marker, so a loop can iterate through it");
    assert_eq!(data.op(tail_phi).inputs, vec![value]);
}

#[test]
fn a_new_operation_is_live_only_once_placed() {
    let mut data = Funcdata::default();
    let block = data.new_block(0x1000);
    let before = data.op_count();
    let constant = data.new_constant(1, 4);
    let copy = data.new_op(COPY, seq(0x1000), vec![constant]);
    assert_eq!(data.op_count(), before);
    assert_eq!(data.opcode_of(copy), None);
    data.op_insert_end(copy, block);
    assert_eq!(data.op_count(), before + 1);
    assert_eq!(data.opcode_of(copy), Some(COPY));
}
