use lib::equality::{functional_equality, Equality};
use lib::graph::{Funcdata, GraphBlockId, SeqNum, VarnodeId};
use lib::pcode::{COPY, INT_ADD, INT_EQUAL, INT_NOTEQUAL, INT_SUB, LOAD, PTRADD, RAM_SPACE, REGISTER_SPACE};

fn seq() -> SeqNum {
    SeqNum { address: 0x1000, order: 0 }
}

/// Appends `opcode(inputs)` to `block` with a fresh temporary of `size` bytes
/// as its result.
fn emit(data: &mut Funcdata, block: GraphBlockId, opcode: i32, at: SeqNum, inputs: Vec<VarnodeId>, size: u32) -> VarnodeId {
    let op = data.new_op(opcode, at, inputs);
    let out = data.new_unique(size);
    data.op_set_output(op, Some(out));
    data.op_insert_end(op, block);
    out
}

/// A written copy of a fresh register.
fn written_copy(data: &mut Funcdata, block: GraphBlockId, register: u64) -> VarnodeId {
    let source = data.new_varnode(REGISTER_SPACE, register, 4);
    emit(data, block, COPY, seq(), vec![source], 4)
}

#[test]
fn identical_values_and_constants_are_the_same() {
    let mut data = Funcdata::default();
    let value = data.new_varnode(REGISTER_SPACE, 0, 4);
    assert_eq!(functional_equality(&data, value, value), Equality::Same);

    let four = data.new_constant(4, 4);
    let also_four = data.new_constant(4, 4);
    let five = data.new_constant(5, 4);
    assert_eq!(
        functional_equality(&data, four, also_four),
        Equality::Same,
        "two constants of one value are one value"
    );
    assert_eq!(functional_equality(&data, four, five), Equality::Different);
}

#[test]
fn one_differing_operand_is_reported_as_the_contingency() {
    let mut data = Funcdata::default();
    let block = data.new_block(0x1000);
    let base = data.new_varnode(REGISTER_SPACE, 0, 4);
    let one = written_copy(&mut data, block, 8);
    let other = written_copy(&mut data, block, 16);

    // base + one  versus  base + other
    let left = emit(&mut data, block, INT_ADD, seq(), vec![base, one], 4);
    let right = emit(&mut data, block, INT_ADD, seq(), vec![base, other], 4);

    assert_eq!(
        functional_equality(&data, left, right),
        Equality::Contingent(one, other),
        "the shared operand locks the ordering and leaves the pair that differs"
    );
}

#[test]
fn different_operators_are_not_compared_further() {
    let mut data = Funcdata::default();
    let block = data.new_block(0x1000);
    let base = data.new_varnode(REGISTER_SPACE, 0, 4);
    let zero = data.new_constant(0, 4);

    let left = emit(&mut data, block, INT_EQUAL, seq(), vec![base, zero], 1);
    let right = emit(&mut data, block, INT_NOTEQUAL, seq(), vec![base, zero], 1);

    assert_eq!(functional_equality(&data, left, right), Equality::Different);
}

#[test]
fn swapping_the_values_swaps_the_remaining_pair() {
    let mut data = Funcdata::default();
    let block = data.new_block(0x1000);
    let base = data.new_varnode(REGISTER_SPACE, 0, 4);
    let one = written_copy(&mut data, block, 8);
    let other = written_copy(&mut data, block, 16);
    let left = emit(&mut data, block, INT_ADD, seq(), vec![base, one], 4);
    let right = emit(&mut data, block, INT_ADD, seq(), vec![base, other], 4);

    assert_eq!(functional_equality(&data, right, left), Equality::Contingent(other, one));
}

#[test]
fn values_of_different_sizes_or_without_definitions_differ() {
    let mut data = Funcdata::default();
    let narrow = data.new_constant(4, 2);
    let wide = data.new_constant(4, 4);
    assert_eq!(functional_equality(&data, narrow, wide), Equality::Different);

    // Two unwritten registers are free values: nothing ties them together.
    let first = data.new_varnode(REGISTER_SPACE, 0, 4);
    let second = data.new_varnode(REGISTER_SPACE, 0, 4);
    assert_eq!(functional_equality(&data, first, second), Equality::Different);

    // Marked as function inputs they are no longer free, but their
    // definitions still cannot be compared.
    data.mark_input(first);
    data.mark_input(second);
    assert_eq!(functional_equality(&data, first, second), Equality::Different);
}

#[test]
fn a_commutative_operation_matches_crosswise() {
    let mut data = Funcdata::default();
    let block = data.new_block(0x1000);
    let one = written_copy(&mut data, block, 8);
    let other = written_copy(&mut data, block, 16);
    let third = written_copy(&mut data, block, 24);

    // one + other  versus  other + one
    let left = emit(&mut data, block, INT_ADD, seq(), vec![one, other], 4);
    let right = emit(&mut data, block, INT_ADD, seq(), vec![other, one], 4);
    assert_eq!(functional_equality(&data, left, right), Equality::Same);

    // one + other  versus  third + one: crosswise, `one` settles and
    // `other`/`third` remain.
    let crossed = emit(&mut data, block, INT_ADD, seq(), vec![third, one], 4);
    assert_eq!(functional_equality(&data, left, crossed), Equality::Contingent(other, third));

    // Subtraction does not commute, so the same shape is two open pairs.
    let minus = emit(&mut data, block, INT_SUB, seq(), vec![one, other], 4);
    let minus_crossed = emit(&mut data, block, INT_SUB, seq(), vec![other, one], 4);
    assert_eq!(functional_equality(&data, minus, minus_crossed), Equality::Different);
}

#[test]
fn loads_match_only_within_one_instruction() {
    let mut data = Funcdata::default();
    let block = data.new_block(0x1000);
    let space = data.new_constant(RAM_SPACE as u64, 4);
    let pointer = written_copy(&mut data, block, 8);
    let here = SeqNum { address: 0x1000, order: 1 };
    let there = SeqNum { address: 0x1004, order: 0 };
    let first = emit(&mut data, block, LOAD, here, vec![space, pointer], 4);
    let same_instruction = emit(&mut data, block, LOAD, SeqNum { address: 0x1000, order: 2 }, vec![space, pointer], 4);
    let later = emit(&mut data, block, LOAD, there, vec![space, pointer], 4);
    assert_eq!(functional_equality(&data, first, same_instruction), Equality::Same);
    assert_eq!(functional_equality(&data, first, later), Equality::Different);
}

#[test]
fn pointer_additions_need_one_element_size() {
    let mut data = Funcdata::default();
    let block = data.new_block(0x1000);
    let base = written_copy(&mut data, block, 8);
    let index = written_copy(&mut data, block, 16);
    let four = data.new_constant(4, 4);
    let also_four = data.new_constant(4, 4);
    let eight = data.new_constant(8, 4);
    let first = emit(&mut data, block, PTRADD, seq(), vec![base, index, four], 4);
    let same_size = emit(&mut data, block, PTRADD, seq(), vec![base, index, also_four], 4);
    let other_size = emit(&mut data, block, PTRADD, seq(), vec![base, index, eight], 4);
    assert_eq!(functional_equality(&data, first, same_size), Equality::Same);
    assert_eq!(functional_equality(&data, first, other_size), Equality::Different);
}
