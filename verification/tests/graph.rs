use lib::action::Action;
use lib::branchaction::ActionUnreachable;
use lib::graph::{Funcdata, OpId, SeqNum, VarnodeId};
use lib::pcode::{BRANCH, COPY, INT_ADD, MULTIEQUAL, RAM_SPACE, REGISTER_SPACE, RETURN};

/// The graph of `v0 = 1; v0 = v0 + 1; return` as the lifter builds it: the
/// read of `v0` is a free value of its own until renaming links it.
fn lifted() -> (Funcdata, OpId) {
    let mut data = Funcdata::default();
    data.entry = 0x1000;
    let block = data.new_block(0x1000);
    let one = data.new_constant(1, 4);
    let copy = data.new_op(COPY, SeqNum { address: 0x1000, order: 0 }, vec![one]);
    let first = data.new_varnode(REGISTER_SPACE, 8, 4);
    data.op_set_output(copy, Some(first));
    data.op_insert_end(copy, block);
    let read = data.new_varnode(REGISTER_SPACE, 8, 4);
    let one_again = data.new_constant(1, 4);
    let add = data.new_op(INT_ADD, SeqNum { address: 0x1000, order: 1 }, vec![read, one_again]);
    let second = data.new_varnode(REGISTER_SPACE, 8, 4);
    data.op_set_output(add, Some(second));
    data.op_insert_end(add, block);
    let ret = data.new_op(RETURN, SeqNum { address: 0x1000, order: 2 }, vec![]);
    data.op_insert_end(ret, block);
    (data, add)
}

#[test]
fn an_unreachable_block_and_its_merge_operand_are_removed() {
    let mut data = Funcdata::default();
    data.entry = 0x1000;
    let entry = data.new_block(0x1000);
    let orphan = data.new_block(0x1010);
    let join = data.new_block(0x1020);
    data.add_edge(entry, join);
    data.add_edge(orphan, join);
    let seq = SeqNum { address: 0x1020, order: 0 };
    let left = data.new_varnode(REGISTER_SPACE, 8, 4);
    let right = data.new_varnode(REGISTER_SPACE, 8, 4);
    let phi = data.new_op(MULTIEQUAL, seq, vec![left, right]);
    let out = data.new_varnode(REGISTER_SPACE, 8, 4);
    data.op_set_output(phi, Some(out));
    data.op_insert_front(phi, join);

    assert_eq!(data.remove_unreachable_blocks(), 1);
    assert!(data.blocks().iter().all(|id| *id != orphan));
    assert_eq!(data.block(join).predecessors, vec![entry]);
    assert_eq!(data.op(phi).inputs, vec![left], "the operand the removed path contributed is gone");
}

#[test]
fn removing_unreachable_blocks_twice_removes_nothing_the_second_time() {
    let mut data = Funcdata::default();
    data.entry = 0x1000;
    let entry = data.new_block(0x1000);
    let a = data.new_block(0x1010);
    let b = data.new_block(0x1020);
    let c = data.new_block(0x1030);
    data.add_edge(entry, a);
    data.add_edge(b, c);
    data.add_edge(c, b);
    let value = data.new_constant(3, 4);
    let copy = data.new_op(COPY, SeqNum { address: 0x1020, order: 0 }, vec![value]);
    data.op_insert_end(copy, b);
    assert_eq!(data.remove_unreachable_blocks(), 2);
    assert!(data.block(b).dead && data.block(c).dead);
    assert!(data.op(copy).dead);
    assert!(!data.block(a).dead && !data.block(entry).dead);
    assert_eq!(data.remove_unreachable_blocks(), 0);
}

#[test]
fn unreachable_action_does_not_remove_entry_component() {
    let mut data = Funcdata::default();
    data.entry = 0x1000;
    let entry = data.new_block(0x1000);
    assert_eq!(ActionUnreachable.apply(&mut data), 0);
    assert!(!data.block(entry).dead);
}

#[test]
fn unreachable_action_removes_disconnected_block() {
    let mut data = Funcdata::default();
    data.entry = 0x1000;
    let _entry = data.new_block(0x1000);
    let dead = data.new_block(0x2000);
    let value = data.new_constant(7, 4);
    let copy = data.new_op(COPY, SeqNum { address: 0x2000, order: 0 }, vec![value]);
    let output = data.new_unique(4);
    data.op_set_output(copy, Some(output));
    data.op_insert_end(copy, dead);
    assert_eq!(ActionUnreachable.apply(&mut data), 1);
    assert!(data.block(dead).dead);
}

#[test]
fn replacing_a_value_redirects_every_reader() {
    let (mut data, add) = lifted();
    let old = data.op(add).inputs[0];
    let new = data.new_constant(7, 4);
    data.total_replace(old, new);
    assert_eq!(data.op(add).inputs[0], new);
    assert!(data.varnode(old).descendants.is_empty());
    assert!(data.varnode(new).descendants.contains(&add));
}

#[test]
fn an_inserted_operation_joins_its_block_in_order() {
    let (mut data, add) = lifted();
    let piece = data.new_unique(4);
    let seq = data.op(add).seq;
    let inserted = data.new_op(COPY, seq, vec![piece]);
    data.op_insert_before(inserted, add);
    let block = data.op(add).parent.expect("the add has a block");
    let ops = &data.block(block).ops;
    let inserted_at = ops.iter().position(|id| *id == inserted).expect("inserted");
    let add_at = ops.iter().position(|id| *id == add).expect("add");
    assert!(inserted_at < add_at);
}

#[test]
fn destroying_an_operation_releases_its_operands() {
    let (mut data, add) = lifted();
    let operand = data.op(add).inputs[0];
    let before = data.op_count();
    data.op_destroy(add);
    assert_eq!(data.op_count(), before - 1);
    assert!(data.varnode(operand).descendants.is_empty());
}

#[test]
fn overlap_is_recognized_within_one_space() {
    let mut data = Funcdata::default();
    let wide = data.new_varnode(REGISTER_SPACE, 8, 4);
    let byte = data.new_varnode(REGISTER_SPACE, 9, 1);
    let other = data.new_varnode(REGISTER_SPACE, 16, 4);
    assert!(data.varnode(wide).overlaps(data.varnode(byte)));
    assert_eq!(data.varnode(wide).overlaps(data.varnode(other)), false);
    let memory = data.new_varnode(RAM_SPACE, 8, 4);
    assert!(!data.varnode(wide).overlaps(data.varnode(memory)));
}

#[test]
fn each_location_lookup_finds_every_version() {
    let (data, _) = lifted();
    let versions: Vec<VarnodeId> = data.at_location(REGISTER_SPACE, 8, 4);
    let written = versions.iter().filter(|value| data.varnode(**value).flags.written).count();
    assert_eq!(written, 2, "one varnode per definition");
    assert_eq!(versions.len() - written, 1, "the read is its own free varnode");
}

#[test]
fn moving_an_edge_keeps_its_slot_and_one_edge_from_the_new_source() {
    let mut data = Funcdata::default();
    data.entry = 0x1000;
    let a = data.new_block(0x1000);
    let b = data.new_block(0x1010);
    let c = data.new_block(0x1020);
    let join = data.new_block(0x1030);
    data.add_edge(a, join);
    data.add_edge(b, join);
    data.add_edge(c, join);
    data.move_out_edge(b, join, c);
    assert_eq!(data.block(join).predecessors, vec![a, c, c]);
    assert!(data.block(b).successors.is_empty());
    assert_eq!(data.block(c).successors, vec![join]);
}

#[test]
fn setting_an_operand_links_the_value_and_releases_the_old_one() {
    let mut data = Funcdata::default();
    let block = data.new_block(0x1000);
    let first = data.new_varnode(REGISTER_SPACE, 8, 4);
    let second = data.new_varnode(REGISTER_SPACE, 12, 4);
    let copy = data.new_op(COPY, SeqNum { address: 0x1000, order: 0 }, vec![first]);
    data.op_insert_end(copy, block);
    data.op_set_input(copy, second, 0);
    assert_eq!(data.op(copy).inputs, vec![second]);
    assert_eq!(data.varnode(second).descendants, vec![copy]);
    assert!(data.varnode(first).descendants.is_empty());
    data.op_set_input(copy, first, 2);
    assert_eq!(data.op(copy).inputs, vec![second, first, first]);
    assert_eq!(data.varnode(first).descendants, vec![copy]);
}

/// `entry -> hop -> exit`, where `hop` holds only a jump.
fn jump_through() -> (Funcdata, lib::graph::GraphBlockId, lib::graph::GraphBlockId, lib::graph::GraphBlockId, OpId) {
    let mut data = Funcdata::default();
    data.entry = 0x1000;
    let entry = data.new_block(0x1000);
    let hop = data.new_block(0x1010);
    let exit = data.new_block(0x1020);
    data.add_edge(entry, hop);
    data.add_edge(hop, exit);
    let destination = data.new_varnode(RAM_SPACE, 0x1020, 4);
    let jump = data.new_op(BRANCH, SeqNum { address: 0x1010, order: 0 }, vec![destination]);
    data.op_insert_end(jump, hop);
    let ret = data.new_op(RETURN, SeqNum { address: 0x1020, order: 0 }, vec![]);
    data.op_insert_end(ret, exit);
    (data, entry, hop, exit, jump)
}

#[test]
fn splicing_a_jump_only_block_joins_its_neighbours() {
    let (mut data, entry, hop, exit, jump) = jump_through();
    assert!(data.splice_block(hop));
    assert_eq!(data.block(entry).successors, vec![exit]);
    assert_eq!(data.block(exit).predecessors, vec![entry]);
    assert!(data.block(hop).dead);
    assert!(data.block(hop).ops.is_empty());
    assert!(data.op(jump).dead);
}

#[test]
fn a_block_that_does_work_or_feeds_a_merge_is_not_spliced() {
    let (mut data, _entry, hop, exit, jump) = jump_through();
    let value = data.new_varnode(REGISTER_SPACE, 8, 4);
    let copy = data.new_op(COPY, SeqNum { address: 0x1010, order: 1 }, vec![value]);
    data.op_insert_before(copy, jump);
    assert!(!data.splice_block(hop));
    assert!(!data.block(hop).dead);

    let (mut data, _entry, hop, exit2, _jump) = jump_through();
    let value = data.new_varnode(REGISTER_SPACE, 8, 4);
    let merge = data.new_op(MULTIEQUAL, SeqNum { address: 0x1020, order: 1 }, vec![value]);
    data.op_insert_begin(merge, exit2);
    assert!(!data.splice_block(hop));
    let _ = exit;
}

#[test]
fn the_entry_block_is_never_spliced() {
    let (mut data, entry, _hop, _exit, _jump) = jump_through();
    assert!(!data.splice_block(entry));
}

#[test]
fn readers_are_listed_in_operation_order() {
    let mut data = Funcdata::default();
    let value = data.new_varnode(REGISTER_SPACE, 8, 4);
    let other = data.new_varnode(REGISTER_SPACE, 12, 4);
    let first = data.new_op(COPY, SeqNum { address: 0x1000, order: 0 }, vec![other]);
    let second = data.new_op(COPY, SeqNum { address: 0x1000, order: 1 }, vec![value]);
    data.op_set_input(first, value, 0);
    assert_eq!(data.varnode(value).descendants, vec![first, second]);
}
