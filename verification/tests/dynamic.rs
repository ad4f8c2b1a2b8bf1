use lib::dynamic::{dynamic_hash, HASH_METHOD_SHIFT, HASH_OPCODE_SHIFT, HASH_POSITION_SHIFT, HASH_SLOT_SHIFT, HASH_TOTAL_SHIFT};
use lib::graph::{Funcdata, GraphBlockId, SeqNum, VarnodeId};
use lib::pcode::{CAST, COPY, INT_ADD, INT_SUB, REGISTER_SPACE};

fn sequence(address: u64, order: u32) -> SeqNum {
    SeqNum { address, order }
}

fn input(data: &mut Funcdata, offset: u64) -> VarnodeId {
    let value = data.new_varnode(REGISTER_SPACE, offset, 4);
    data.mark_input(value);
    value
}

fn output_of(data: &mut Funcdata, block: GraphBlockId, opcode: i32, seq: SeqNum, inputs: Vec<VarnodeId>) -> VarnodeId {
    let operation = data.new_op(opcode, seq, inputs);
    let output = data.new_unique(4);
    data.op_set_output(operation, Some(output));
    data.op_insert_end(operation, block);
    output
}

#[test]
fn dynamic_hash_is_stable_for_the_same_graph_value() {
    let mut data = Funcdata::default();
    let block = data.new_block(0x1000);
    let source = input(&mut data, 0x10);
    let value = output_of(&mut data, block, COPY, sequence(0x1000, 0), vec![source]);

    let first = dynamic_hash(&data, value);
    let second = dynamic_hash(&data, value);
    assert_eq!(first, second);
    assert!(first.is_some_and(|(_, hash)| hash != 0));
}

#[test]
fn collision_position_keeps_distinct_values_identifiable() {
    let mut data = Funcdata::default();
    let block = data.new_block(0x2000);
    let first_input = input(&mut data, 0x20);
    let second_input = input(&mut data, 0x24);
    let first = output_of(&mut data, block, INT_ADD, sequence(0x2000, 0), vec![first_input, second_input]);
    let second = output_of(&mut data, block, INT_ADD, sequence(0x2000, 1), vec![first_input, second_input]);

    let first_hash = dynamic_hash(&data, first).expect("first dynamic hash");
    let second_hash = dynamic_hash(&data, second).expect("second dynamic hash");
    assert_eq!(first_hash.0.address, second_hash.0.address);
    assert_ne!(first_hash.1, second_hash.1);
    assert_eq!((first_hash.1 >> HASH_POSITION_SHIFT) & 7, 0);
    assert_eq!((second_hash.1 >> HASH_POSITION_SHIFT) & 7, 1);
}

#[test]
fn first_method_collision_advances_to_a_larger_neighborhood() {
    let mut data = Funcdata::default();
    let block = data.new_block(0x4000);
    let common = input(&mut data, 0x30);
    let free = input(&mut data, 0x34);
    let copied = output_of(&mut data, block, COPY, sequence(0x3000, 0), vec![common]);
    let first = output_of(&mut data, block, INT_ADD, sequence(0x4000, 0), vec![free, common]);
    let second = output_of(&mut data, block, INT_ADD, sequence(0x4000, 1), vec![copied, common]);

    let first_hash = dynamic_hash(&data, first).expect("first dynamic hash");
    let second_hash = dynamic_hash(&data, second).expect("second dynamic hash");
    assert_eq!((first_hash.1 >> HASH_METHOD_SHIFT) & 0xf, 1);
    assert_eq!((second_hash.1 >> HASH_METHOD_SHIFT) & 0xf, 1);
    assert_ne!(first_hash.1 as u32, second_hash.1 as u32);
}

#[test]
fn a_value_with_no_neighbourhood_has_no_identity() {
    let mut data = Funcdata::default();
    let lonely = input(&mut data, 0x40);
    assert_eq!(dynamic_hash(&data, lonely), None);
}

#[test]
fn an_output_is_anchored_at_its_defining_operation() {
    let mut data = Funcdata::default();
    let block = data.new_block(0x5000);
    let a = input(&mut data, 0x50);
    let b = input(&mut data, 0x54);
    let sum = output_of(&mut data, block, INT_ADD, sequence(0x5000, 3), vec![a, b]);

    let (seq, hash) = dynamic_hash(&data, sum).expect("hash of a written value");
    assert_eq!(seq, sequence(0x5000, 3));
    // Method 0 names it alone: directly attached, output slot, addition.
    assert_eq!((hash >> HASH_METHOD_SHIFT) & 0xf, 0);
    assert_eq!((hash >> 48) & 1, 0);
    assert_eq!((hash >> HASH_SLOT_SHIFT) & 0x1f, 0x1f);
    assert_eq!((hash >> HASH_OPCODE_SHIFT) & 0x7f, INT_ADD as u64);
    assert_eq!((hash >> HASH_POSITION_SHIFT) & 7, 0);
    assert_eq!(hash >> HASH_TOTAL_SHIFT, 0);
}

#[test]
fn subtraction_hashes_as_addition_and_an_input_records_its_slot() {
    let mut data = Funcdata::default();
    let block = data.new_block(0x6000);
    let a = input(&mut data, 0x60);
    let b = input(&mut data, 0x64);
    let _difference = output_of(&mut data, block, INT_SUB, sequence(0x6000, 0), vec![a, b]);

    let (seq, hash) = dynamic_hash(&data, b).expect("hash of an operand");
    assert_eq!(seq, sequence(0x6000, 0));
    assert_eq!((hash >> HASH_OPCODE_SHIFT) & 0x7f, INT_ADD as u64);
    assert_eq!((hash >> HASH_SLOT_SHIFT) & 0x1f, 1);
}

#[test]
fn a_cast_is_looked_through_to_the_operation_beyond() {
    let mut data = Funcdata::default();
    let block = data.new_block(0x7000);
    let a = input(&mut data, 0x70);
    let cast = output_of(&mut data, block, CAST, sequence(0x7000, 0), vec![a]);
    let other = input(&mut data, 0x74);
    let _sum = output_of(&mut data, block, INT_ADD, sequence(0x7000, 1), vec![other, cast]);

    // The cast contributes nothing, so `a` is anchored at the addition that
    // reads the cast's output, through slot 1, and is not directly attached.
    let (seq, hash) = dynamic_hash(&data, a).expect("hash through a cast");
    assert_eq!(seq, sequence(0x7000, 1));
    assert_eq!((hash >> HASH_OPCODE_SHIFT) & 0x7f, INT_ADD as u64);
    assert_eq!((hash >> HASH_SLOT_SHIFT) & 0x1f, 1);
    assert_eq!((hash >> 48) & 1, 1);
}
