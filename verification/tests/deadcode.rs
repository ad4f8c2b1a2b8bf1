use lib::action::Action;
use lib::coreaction::{all, ActionDeadCode};
use lib::deadcode::{eliminate_dead_code, propagate};
use lib::graph::{Funcdata, GraphBlockId, SeqNum};
use lib::pcode::{CALL, COPY, INT_ADD, INT_AND, INT_LEFT, MULTIEQUAL, REGISTER_SPACE, RETURN, SUBPIECE};

fn seq(address: u64) -> SeqNum {
    SeqNum { address, order: 0 }
}

#[test]
fn an_unread_computation_is_removed() {
    let mut data = Funcdata::default();
    let block = data.new_block(0x1000);
    let left = data.new_constant(2, 4);
    let right = data.new_constant(3, 4);
    let add = data.new_op(INT_ADD, seq(0x1000), vec![left, right]);
    let sum = data.new_unique(4);
    data.op_set_output(add, Some(sum));
    data.op_insert_end(add, block);
    let ret = data.new_op(RETURN, seq(0x1004), vec![]);
    data.op_insert_end(ret, block);

    assert_eq!(eliminate_dead_code(&mut data), 1);
    assert!(data.live_ops().iter().all(|id| data.op(*id).opcode != INT_ADD));
}

#[test]
fn a_returned_computation_survives() {
    let mut data = Funcdata::default();
    let block = data.new_block(0x1000);
    let left = data.new_constant(2, 4);
    let right = data.new_constant(3, 4);
    let add = data.new_op(INT_ADD, seq(0x1000), vec![left, right]);
    let sum = data.new_unique(4);
    data.op_set_output(add, Some(sum));
    data.op_insert_end(add, block);
    let ret = data.new_op(RETURN, seq(0x1004), vec![sum]);
    data.op_insert_end(ret, block);

    assert_eq!(eliminate_dead_code(&mut data), 0);
}

#[test]
fn a_call_keeps_its_effect_and_loses_its_unread_result() {
    let mut data = Funcdata::default();
    let block = data.new_block(0x1000);
    let target = data.new_constant(0x3000, 4);
    let call = data.new_op(CALL, seq(0x1000), vec![target]);
    let result = data.new_varnode(REGISTER_SPACE, 8, 4);
    data.op_set_output(call, Some(result));
    data.op_insert_end(call, block);

    assert_eq!(eliminate_dead_code(&mut data), 1);
    let survivor = data
        .live_ops()
        .into_iter()
        .find(|id| data.op(*id).opcode == CALL)
        .expect("the call itself survives");
    assert!(data.op(survivor).output.is_none());
}

/// The diamond of two copies into one register, with the merge renaming
/// places at the join.
fn diamond(read_merge: bool) -> Funcdata {
    let mut data = Funcdata::default();
    let entry = data.new_block(0x1000);
    let left = data.new_block(0x1010);
    let right = data.new_block(0x1020);
    let join = data.new_block(0x1030);
    data.add_edge(entry, left);
    data.add_edge(entry, right);
    data.add_edge(left, join);
    data.add_edge(right, join);
    let mut arms = Vec::new();
    for (block, value) in [(left, 1u64), (right, 2u64)] {
        let start = data.block(block).start;
        let constant = data.new_constant(value, 4);
        let copy = data.new_op(COPY, seq(start), vec![constant]);
        let out = data.new_varnode(REGISTER_SPACE, 8, 4);
        data.op_set_output(copy, Some(out));
        data.op_insert_end(copy, block);
        arms.push(out);
    }
    let merge = data.new_op(MULTIEQUAL, seq(0x1030), vec![arms[0], arms[1]]);
    let merged = data.new_varnode(REGISTER_SPACE, 8, 4);
    data.op_set_output(merge, Some(merged));
    data.op_insert_front(merge, join);
    let inputs = if read_merge { vec![merged] } else { vec![] };
    let ret = data.new_op(RETURN, seq(0x1030), inputs);
    data.op_insert_end(ret, join);
    let _: GraphBlockId = join;
    data
}

#[test]
fn an_unread_merge_is_removed() {
    let mut data = diamond(false);
    eliminate_dead_code(&mut data);
    assert!(
        data.live_ops().iter().all(|id| data.op(*id).opcode != MULTIEQUAL),
        "nothing reads the merge, so it does not survive"
    );
}

#[test]
fn a_read_merge_survives() {
    let mut data = diamond(true);
    eliminate_dead_code(&mut data);
    assert_eq!(data.live_ops().iter().filter(|id| data.op(**id).opcode == MULTIEQUAL).count(), 1);
}

#[test]
fn only_the_extracted_byte_of_a_masked_word_is_live() {
    let mut data = Funcdata::default();
    let block = data.new_block(0x1000);
    let word = data.new_varnode(REGISTER_SPACE, 8, 4);
    let shift = data.new_constant(8, 4);
    let shifted = data.new_op(INT_LEFT, seq(0x1000), vec![word, shift]);
    let high = data.new_unique(4);
    data.op_set_output(shifted, Some(high));
    data.op_insert_end(shifted, block);
    let mask = data.new_constant(0xff, 4);
    let masked = data.new_op(INT_AND, seq(0x1004), vec![high, mask]);
    let byte = data.new_unique(4);
    data.op_set_output(masked, Some(byte));
    data.op_insert_end(masked, block);
    let ret = data.new_op(RETURN, seq(0x1008), vec![byte]);
    data.op_insert_end(ret, block);

    let consumed = propagate(&data);
    assert_eq!(consumed[byte.0 as usize], 0xffff_ffff, "a return reads every bit of its value");
    assert_eq!(consumed[high.0 as usize], 0xff, "only the low byte of the shift result is read");
    assert_eq!(consumed[word.0 as usize], 0, "shifting left by 8 puts nothing of the word into the low byte");
}

#[test]
fn addition_consumes_every_bit_below_the_one_read() {
    let mut data = Funcdata::default();
    let block = data.new_block(0x1000);
    let left = data.new_varnode(REGISTER_SPACE, 8, 4);
    let right = data.new_varnode(REGISTER_SPACE, 16, 4);
    let add = data.new_op(INT_ADD, seq(0x1000), vec![left, right]);
    let sum = data.new_unique(4);
    data.op_set_output(add, Some(sum));
    data.op_insert_end(add, block);
    let mask = data.new_constant(0x100, 4);
    let masked = data.new_op(INT_AND, seq(0x1004), vec![sum, mask]);
    let bit = data.new_unique(4);
    data.op_set_output(masked, Some(bit));
    data.op_insert_end(masked, block);
    let ret = data.new_op(RETURN, seq(0x1008), vec![bit]);
    data.op_insert_end(ret, block);

    let consumed = propagate(&data);
    assert_eq!(consumed[sum.0 as usize], 0x100);
    assert_eq!(consumed[left.0 as usize], 0x1ff, "carries make every lower bit live");
}

#[test]
fn a_subpiece_reads_the_bytes_it_keeps() {
    let mut data = Funcdata::default();
    let block = data.new_block(0x1000);
    let word = data.new_varnode(REGISTER_SPACE, 8, 4);
    let offset = data.new_constant(1, 4);
    let piece = data.new_op(SUBPIECE, seq(0x1000), vec![word, offset]);
    let byte = data.new_unique(1);
    data.op_set_output(piece, Some(byte));
    data.op_insert_end(piece, block);
    let ret = data.new_op(RETURN, seq(0x1004), vec![byte]);
    data.op_insert_end(ret, block);

    let consumed = propagate(&data);
    assert_eq!(consumed[byte.0 as usize], 0xff);
    assert_eq!(consumed[word.0 as usize], 0xff00);
    assert_eq!(consumed[offset.0 as usize], u64::MAX);
}

#[test]
fn registry_deadcode_removes_an_unread_result_and_then_converges() {
    let mut data = Funcdata::default();
    let block = data.new_block(0x1000);
    let left = data.new_constant(2, 4);
    let right = data.new_constant(3, 4);
    let add = data.new_op(INT_ADD, SeqNum { address: 0x1000, order: 0 }, vec![left, right]);
    let result = data.new_unique(4);
    data.op_set_output(add, Some(result));
    data.op_insert_end(add, block);

    let action = ActionDeadCode;
    assert_eq!(action.apply(&mut data), 1);
    assert_eq!(data.opcode_of(add), None);
    assert_eq!(action.apply(&mut data), 0);
}

#[test]
fn registry_deadcode_declines_a_result_consumed_by_return() {
    let mut data = Funcdata::default();
    let block = data.new_block(0x2000);
    let left = data.new_constant(2, 4);
    let right = data.new_constant(3, 4);
    let add = data.new_op(INT_ADD, SeqNum { address: 0x2000, order: 0 }, vec![left, right]);
    let result = data.new_unique(4);
    data.op_set_output(add, Some(result));
    data.op_insert_end(add, block);
    let return_address = data.new_varnode(REGISTER_SPACE, 0x1f0, 4);
    let ret = data.new_op(RETURN, SeqNum { address: 0x2004, order: 0 }, vec![return_address, result]);
    data.op_insert_end(ret, block);

    let action = ActionDeadCode;
    assert_eq!(action.apply(&mut data), 0);
    assert_eq!(data.opcode_of(add), Some(INT_ADD));
    assert_eq!(action.apply(&mut data), 0);
}

#[test]
fn the_core_registry_holds_dead_code_elimination() {
    let actions = all();
    assert_eq!(actions.len(), 1);
    assert_eq!(actions[0].name(), "deadcode");
}
