use lib::action::Action;
use lib::branchaction::{ActionCbranchFlip, ActionDeterminedBranch, ActionNormalizeBranches, ActionUnreachable};
use lib::graph::{Funcdata, GraphBlockId, OpId, SeqNum};
use lib::pcode::{BOOL_NEGATE, BRANCH, CBRANCH, INT_EQUAL, INT_LESS, INT_LESSEQUAL, INT_NOTEQUAL, RAM_SPACE};

fn seq(address: u64, order: u32) -> SeqNum {
    SeqNum { address, order }
}

fn branch_graph(condition: u64) -> (Funcdata, GraphBlockId, GraphBlockId, GraphBlockId, OpId) {
    let mut data = Funcdata::default();
    data.entry = 0x1000;
    let entry = data.new_block(0x1000);
    let target = data.new_block(0x1010);
    let fallthrough = data.new_block(0x1020);
    data.add_edge(entry, target);
    data.add_edge(entry, fallthrough);
    let destination = data.new_varnode(RAM_SPACE, 0x1010, 4);
    let value = data.new_constant(condition, 1);
    let branch = data.new_op(CBRANCH, seq(0x1000, 0), vec![destination, value]);
    data.op_insert_end(branch, entry);
    (data, entry, target, fallthrough, branch)
}

#[test]
fn determined_branch_removes_the_untaken_edge_and_unreachable_block() {
    let (mut data, entry, target, fallthrough, branch) = branch_graph(1);
    assert_eq!(ActionDeterminedBranch.apply(&mut data), 1);
    assert_eq!(data.op(branch).opcode, BRANCH);
    assert_eq!(data.block(entry).successors, vec![target]);
    assert_eq!(ActionUnreachable.apply(&mut data), 1);
    assert!(data.block(fallthrough).dead);
}

#[test]
fn a_false_constant_keeps_the_fallthrough() {
    let (mut data, entry, target, fallthrough, branch) = branch_graph(0);
    assert_eq!(ActionDeterminedBranch.apply(&mut data), 1);
    assert_eq!(data.op(branch).opcode, BRANCH);
    assert_eq!(data.block(entry).successors, vec![fallthrough]);
    assert_eq!(data.op(branch).inputs.len(), 1);
    assert_eq!(data.varnode(data.op(branch).inputs[0]).offset, 0x1020);
    assert_eq!(ActionUnreachable.apply(&mut data), 1);
    assert!(data.block(target).dead);
}

#[test]
fn determined_branch_does_not_touch_nonconstant_conditions() {
    let (mut data, entry, _, _, branch) = branch_graph(1);
    let condition = data.new_unique(1);
    data.op_set_input(branch, condition, 1);
    assert_eq!(ActionDeterminedBranch.apply(&mut data), 0);
    assert_eq!(data.op(branch).opcode, CBRANCH);
    assert_eq!(data.block(entry).successors.len(), 2);
}

#[test]
fn normalize_branches_inverts_a_branch_only_comparison() {
    let mut data = Funcdata::default();
    data.entry = 0x1000;
    let entry = data.new_block(0x1000);
    let target = data.new_block(0x1010);
    let other = data.new_block(0x1020);
    data.add_edge(entry, target);
    data.add_edge(entry, other);
    let left = data.new_constant(1, 4);
    let right = data.new_constant(1, 4);
    let comparison = data.new_op(INT_NOTEQUAL, seq(0x1000, 0), vec![left, right]);
    let condition = data.new_unique(1);
    data.op_set_output(comparison, Some(condition));
    data.op_insert_end(comparison, entry);
    let destination = data.new_varnode(RAM_SPACE, 0x1010, 4);
    let branch = data.new_op(CBRANCH, seq(0x1000, 1), vec![destination, condition]);
    data.op_insert_end(branch, entry);
    assert_eq!(ActionNormalizeBranches.apply(&mut data), 1);
    assert_eq!(data.op(comparison).opcode, INT_EQUAL);
    assert_eq!(data.varnode(data.op(branch).inputs[0]).offset, 0x1020);
}

#[test]
fn normalize_branches_does_not_flip_a_shared_condition() {
    let (mut data, entry, _, _, branch) = branch_graph(1);
    let condition = data.new_unique(1);
    data.op_set_input(branch, condition, 1);
    let use_op = data.new_op(BOOL_NEGATE, seq(0x1000, 1), vec![condition]);
    data.op_insert_before(use_op, branch);
    assert_eq!(ActionNormalizeBranches.apply(&mut data), 0);
    assert_eq!(data.op(branch).opcode, CBRANCH);
    assert_eq!(data.block(entry).successors.len(), 2);
}

#[test]
fn normalizing_an_ordering_swaps_its_operands() {
    let mut data = Funcdata::default();
    data.entry = 0x1000;
    let entry = data.new_block(0x1000);
    let target = data.new_block(0x1010);
    let other = data.new_block(0x1020);
    data.add_edge(entry, target);
    data.add_edge(entry, other);
    let bound = data.new_constant(5, 4);
    let value = data.new_unique(4);
    let comparison = data.new_op(INT_LESS, seq(0x1000, 0), vec![bound, value]);
    let condition = data.new_unique(1);
    data.op_set_output(comparison, Some(condition));
    data.op_insert_end(comparison, entry);
    let destination = data.new_varnode(RAM_SPACE, 0x1010, 4);
    let branch = data.new_op(CBRANCH, seq(0x1000, 1), vec![destination, condition]);
    data.op_insert_end(branch, entry);
    assert_eq!(ActionNormalizeBranches.apply(&mut data), 1);
    assert_eq!(data.op(comparison).opcode, INT_LESSEQUAL);
    assert_eq!(data.op(comparison).inputs, vec![value, bound]);
    assert_eq!(data.varnode(data.op(branch).inputs[0]).offset, 0x1020);
    assert_eq!(data.op(branch).inputs[1], condition);
}

#[test]
fn a_negated_condition_is_folded_into_the_branch() {
    let mut data = Funcdata::default();
    data.entry = 0x1000;
    let entry = data.new_block(0x1000);
    let target = data.new_block(0x1010);
    let other = data.new_block(0x1020);
    data.add_edge(entry, target);
    data.add_edge(entry, other);
    let flag = data.new_unique(1);
    let negate = data.new_op(BOOL_NEGATE, seq(0x1000, 0), vec![flag]);
    let negated = data.new_unique(1);
    data.op_set_output(negate, Some(negated));
    data.op_insert_end(negate, entry);
    let destination = data.new_varnode(RAM_SPACE, 0x1010, 4);
    let branch = data.new_op(CBRANCH, seq(0x1000, 1), vec![destination, negated]);
    data.op_insert_end(branch, entry);
    assert_eq!(ActionCbranchFlip.apply(&mut data), 1);
    assert_eq!(data.op(branch).opcode, CBRANCH);
    assert_eq!(data.op(branch).inputs[1], flag);
    assert_eq!(data.varnode(data.op(branch).inputs[0]).offset, 0x1020);
    assert!(data.varnode(negated).descendants.is_empty());
}
