use lib::action::Action;
use lib::blockaction::{ActionNodeJoin, ActionReturnSplit};
use lib::graph::{Funcdata, GraphBlockId, SeqNum};
use lib::pcode::{BRANCH, CBRANCH, COPY, INT_ADD, MULTIEQUAL, RAM_SPACE, REGISTER_SPACE, RETURN};

fn seq(address: u64, order: u32) -> SeqNum {
    SeqNum { address, order }
}

fn node_join_graph(same_condition: bool) -> (Funcdata, GraphBlockId, GraphBlockId) {
    let mut data = Funcdata::default();
    data.entry = 0x1000;
    let first = data.new_block(0x1000);
    let second = data.new_block(0x1010);
    let exita = data.new_block(0x1020);
    let exitb = data.new_block(0x1030);
    for source in [first, second] {
        data.add_edge(source, exita);
        data.add_edge(source, exitb);
    }
    let condition = data.new_unique(1);
    let other_condition = data.new_unique(1);
    for (block, address, value) in [
        (first, 0x1000, condition),
        (second, 0x1010, if same_condition { condition } else { other_condition }),
    ] {
        let target = data.new_varnode(RAM_SPACE, 0x1030, 4);
        let branch = data.new_op(CBRANCH, seq(address, 0), vec![target, value]);
        data.op_insert_end(branch, block);
    }
    (data, first, second)
}

#[test]
fn node_join_merges_duplicate_conditional_nodes() {
    let (mut data, first, second) = node_join_graph(true);
    let before = data.blocks().len();
    assert_eq!(ActionNodeJoin.apply(&mut data), 1);
    assert_eq!(data.blocks().len(), before + 1);
    assert_eq!(data.block(first).successors.len(), 1);
    assert_eq!(data.block(second).successors.len(), 1);
    let join = data.block(first).successors[0];
    assert_eq!(data.block(join).successors.len(), 2);
    assert_eq!(data.opcode_of(*data.block(join).ops.last().expect("join branch")), Some(CBRANCH));
    assert_eq!(ActionNodeJoin.apply(&mut data), 0);
}

#[test]
fn node_join_declines_different_conditions() {
    let (mut data, first, second) = node_join_graph(false);
    let before = data.blocks().len();
    assert_eq!(ActionNodeJoin.apply(&mut data), 0);
    assert_eq!(data.blocks().len(), before);
    assert_eq!(data.block(first).successors.len(), 2);
    assert_eq!(data.block(second).successors.len(), 2);
}

#[test]
fn node_join_merges_the_exit_operands_the_joined_blocks_contribute() {
    let (mut data, first, second) = node_join_graph(true);
    let exita = data.block(first).successors[0];
    let one = data.new_constant(1, 4);
    let two = data.new_constant(2, 4);
    let same = data.new_varnode(REGISTER_SPACE, 0, 4);
    data.mark_input(same);
    // A merge whose two operands differ, and one whose operands agree.
    let differing = data.new_op(MULTIEQUAL, seq(0x1020, 0), vec![one, two]);
    let differing_out = data.new_unique(4);
    data.op_set_output(differing, Some(differing_out));
    data.op_insert_end(differing, exita);
    let agreeing = data.new_op(MULTIEQUAL, seq(0x1020, 1), vec![same, same]);
    let agreeing_out = data.new_unique(4);
    data.op_set_output(agreeing, Some(agreeing_out));
    data.op_insert_end(agreeing, exita);

    assert_eq!(ActionNodeJoin.apply(&mut data), 1);
    let join = data.block(first).successors[0];
    assert_eq!(data.block(second).successors, vec![join]);
    // The join holds one new merge, of 1 and 2, and then the branch.
    let join_ops = data.block(join).ops.clone();
    assert_eq!(join_ops.len(), 2);
    assert_eq!(data.opcode_of(join_ops[0]), Some(MULTIEQUAL));
    assert_eq!(data.op(join_ops[0]).inputs, vec![one, two]);
    let merged = data.op(join_ops[0]).output.expect("merge result");
    // The exit merges now take one operand, from the join.
    assert_eq!(data.op(differing).inputs, vec![merged]);
    assert_eq!(data.op(agreeing).inputs, vec![same]);
    assert_eq!(data.block(exita).predecessors, vec![join]);
}

#[test]
fn node_join_declines_different_destinations() {
    let (mut data, first, second) = node_join_graph(true);
    // Point the second branch at the other exit.
    let branch = *data.block(second).ops.last().unwrap();
    let condition = data.op(branch).inputs[1];
    let other = data.new_varnode(RAM_SPACE, 0x1020, 4);
    data.op_set_inputs(branch, vec![other, condition]);
    assert_eq!(ActionNodeJoin.apply(&mut data), 0);
    assert_eq!(data.block(first).successors.len(), 2);
}

fn return_graph() -> (Funcdata, GraphBlockId, GraphBlockId, GraphBlockId) {
    let mut data = Funcdata::default();
    data.entry = 0x1000;
    let left = data.new_block(0x1000);
    let right = data.new_block(0x1010);
    let parent = data.new_block(0x1020);
    data.add_edge(left, parent);
    data.add_edge(right, parent);

    let left_value = data.new_constant(7, 4);
    let right_value = data.new_constant(9, 4);
    for (block, address) in [(left, 0x1000), (right, 0x1010)] {
        let target = data.new_varnode(RAM_SPACE, 0x1020, 4);
        let branch = data.new_op(BRANCH, seq(address, 0), vec![target]);
        data.op_insert_end(branch, block);
    }
    let merged = data.new_op(MULTIEQUAL, seq(0x1020, 0), vec![left_value, right_value]);
    let result = data.new_unique(4);
    data.op_set_output(merged, Some(result));
    data.op_insert_end(merged, parent);
    let ret = data.new_op(RETURN, seq(0x1020, 1), vec![result]);
    data.op_insert_end(ret, parent);
    (data, left, right, parent)
}

#[test]
fn return_split_clones_the_shared_epilog_for_one_goto_path() {
    let (mut data, _left, _right, parent) = return_graph();
    let before = data.blocks().len();
    assert_eq!(ActionReturnSplit.apply(&mut data), 1);
    assert_eq!(data.blocks().len(), before + 1);
    assert_eq!(data.block(parent).predecessors.len(), 1);
    let duplicate = data
        .blocks()
        .into_iter()
        .find(|id| *id != parent && data.block(*id).start == data.block(parent).start && data.block(*id).ops.len() == 2)
        .expect("split return block");
    assert_eq!(data.block(duplicate).ops.len(), 2);
    assert_eq!(data.opcode_of(data.block(duplicate).ops[0]), Some(COPY));
    assert_eq!(data.opcode_of(data.block(duplicate).ops[1]), Some(RETURN));
    assert_eq!(ActionReturnSplit.apply(&mut data), 0);
}

#[test]
fn return_split_declines_a_return_block_with_substantive_work() {
    let (mut data, _left, _right, parent) = return_graph();
    let value = data.new_constant(3, 4);
    let add = data.new_op(INT_ADD, seq(0x1020, 2), vec![value, value]);
    let first = data.block(parent).ops[0];
    data.op_insert_before(add, first);
    let before = data.blocks().len();
    assert_eq!(ActionReturnSplit.apply(&mut data), 0);
    assert_eq!(data.blocks().len(), before);
}

#[test]
fn return_split_keeps_the_original_for_the_first_edge_and_reads_the_edge_value() {
    let (mut data, left, right, parent) = return_graph();
    assert_eq!(ActionReturnSplit.apply(&mut data), 1);
    // The first edge keeps the original block; the second jump owns a copy.
    assert_eq!(data.block(parent).predecessors, vec![left]);
    let duplicate = data.block(right).successors[0];
    assert_ne!(duplicate, parent);
    // The copy of the merge is a copy of the value the second edge brought.
    let copy = data.block(duplicate).ops[0];
    let nine = data.op(copy).inputs[0];
    assert_eq!(data.varnode(nine).offset, 9);
    // The cloned return reads the cloned merge result.
    let ret = data.block(duplicate).ops[1];
    assert_eq!(data.op(ret).inputs, vec![data.op(copy).output.unwrap()]);
    // The original merge has one operand left and is now a copy.
    let merge = data.block(parent).ops[0];
    assert_eq!(data.opcode_of(merge), Some(COPY));
}
