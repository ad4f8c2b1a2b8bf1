use lib::action::Rule;
use lib::bitfield::{RuleBitFieldLoad, RuleBitFieldOut, RuleBitFieldStore, RuleInsertAbsorb, RulePullAbsorb};
use lib::graph::{Funcdata, GraphBlockId, OpId, SeqNum, VarnodeId};
use lib::pcode::{
    BOOL_NEGATE, COPY, INSERT, INT_AND, INT_EQUAL, INT_LEFT, INT_NOTEQUAL, INT_OR, INT_RIGHT, INT_SLESS, INT_ZEXT, LOAD,
    REGISTER_SPACE, SPULL, STORE, ZPULL,
};

fn block(data: &mut Funcdata) -> GraphBlockId {
    data.new_block(0x1000)
}

fn input_value(data: &mut Funcdata, size: u32) -> VarnodeId {
    let value = data.new_varnode(REGISTER_SPACE, data.varnode_count() as u64 * 8, size);
    data.mark_input(value);
    value
}

fn constant_value(data: &mut Funcdata, value: u64, size: u32) -> VarnodeId {
    data.new_constant(value, size)
}

fn op_with_output(data: &mut Funcdata, block: GraphBlockId, opcode: i32, inputs: Vec<VarnodeId>, size: u32) -> (OpId, VarnodeId) {
    let id = data.new_op(opcode, SeqNum { address: 0x1000 + data.op_count() as u64 * 4, order: 0 }, inputs);
    let output = data.new_unique(size);
    data.op_set_output(id, Some(output));
    data.op_insert_end(id, block);
    (id, output)
}

fn constant_of(data: &Funcdata, value: VarnodeId) -> Option<u64> {
    let node = data.varnode(value);
    if node.flags.constant { Some(node.offset) } else { None }
}

#[test]
fn pull_absorb_fires_on_extension_and_declines_signed_mismatch() {
    let mut data = Funcdata::default();
    let b = block(&mut data);
    let root = input_value(&mut data, 4);
    let position = constant_value(&mut data, 4, 4);
    let bits = constant_value(&mut data, 4, 4);
    let (pull, pulled) = op_with_output(&mut data, b, ZPULL, vec![root, position, bits], 4);
    let (ext, _) = op_with_output(&mut data, b, INT_ZEXT, vec![pulled], 4);
    assert_eq!(RulePullAbsorb.apply_op(pull, &mut data), 1);
    assert_eq!(data.op(ext).opcode, ZPULL);
    assert_eq!(data.op(ext).inputs[0], root);
    let (signed_pull, signed_value) = op_with_output(&mut data, b, SPULL, vec![root, position, bits], 4);
    let (bad_ext, _) = op_with_output(&mut data, b, INT_ZEXT, vec![signed_value], 4);
    assert_eq!(RulePullAbsorb.apply_op(signed_pull, &mut data), 0);
    assert_eq!(data.op(bad_ext).opcode, INT_ZEXT);
}

#[test]
fn insert_absorb_fires_on_and_and_declines_insufficient_mask() {
    let mut data = Funcdata::default();
    let b = block(&mut data);
    let base = input_value(&mut data, 4);
    let value = input_value(&mut data, 4);
    let mask = constant_value(&mut data, 0x0f, 4);
    let (_, masked) = op_with_output(&mut data, b, INT_AND, vec![value, mask], 4);
    let position = constant_value(&mut data, 4, 4);
    let bits = constant_value(&mut data, 4, 4);
    let (insert, _) = op_with_output(&mut data, b, INSERT, vec![base, masked, position, bits], 4);
    assert_eq!(RuleInsertAbsorb.apply_op(insert, &mut data), 1);
    assert_eq!(data.op(insert).inputs[1], value);
    let narrow_mask = constant_value(&mut data, 0x03, 4);
    let (_, narrow) = op_with_output(&mut data, b, INT_AND, vec![value, narrow_mask], 4);
    let (bad_insert, _) = op_with_output(&mut data, b, INSERT, vec![base, narrow, position, bits], 4);
    assert_eq!(RuleInsertAbsorb.apply_op(bad_insert, &mut data), 0);
}

#[test]
fn a_shifted_pull_compared_with_a_constant_compares_the_pull_itself() {
    let mut data = Funcdata::default();
    let b = block(&mut data);
    let root = input_value(&mut data, 4);
    let position = constant_value(&mut data, 8, 4);
    let bits = constant_value(&mut data, 24, 4);
    let (pull, pulled) = op_with_output(&mut data, b, ZPULL, vec![root, position, bits], 4);
    let eight = constant_value(&mut data, 8, 4);
    let (shift, shifted) = op_with_output(&mut data, b, INT_LEFT, vec![pulled, eight], 4);
    let limit = constant_value(&mut data, 0x500, 4);
    let (compare, _) = op_with_output(&mut data, b, INT_SLESS, vec![shifted, limit], 1);
    assert_eq!(RulePullAbsorb.apply_op(pull, &mut data), 1);
    // pulled << 8 < 0x500  becomes  pulled < 5, and the shift is gone.
    assert_eq!(data.op(compare).inputs[0], pulled);
    assert_eq!(constant_of(&data, data.op(compare).inputs[1]), Some(5));
    assert_eq!(data.opcode_of(shift), None);
}

#[test]
fn a_sign_bit_test_of_a_full_pull_is_the_pull() {
    let mut data = Funcdata::default();
    let b = block(&mut data);
    let root = input_value(&mut data, 4);
    let position = constant_value(&mut data, 0, 4);
    let one_bit = constant_value(&mut data, 1, 4);
    let (pull, pulled) = op_with_output(&mut data, b, SPULL, vec![root, position, one_bit], 4);
    let top = constant_value(&mut data, 31, 4);
    let (_, shifted) = op_with_output(&mut data, b, INT_LEFT, vec![pulled, top], 4);
    let zero = constant_value(&mut data, 0, 4);
    let (compare, tested) = op_with_output(&mut data, b, INT_SLESS, vec![shifted, zero], 1);
    let (reader, _) = op_with_output(&mut data, b, COPY, vec![tested], 1);
    assert_eq!(RulePullAbsorb.apply_op(pull, &mut data), 1);
    // (pulled << 31) < 0 is the pulled bit itself.
    assert_eq!(data.op(reader).inputs, vec![pulled]);
    assert_eq!(data.opcode_of(compare), None);
}

#[test]
fn a_one_bit_test_against_zero_becomes_a_negation_or_the_pull() {
    let mut data = Funcdata::default();
    let b = block(&mut data);
    let root = input_value(&mut data, 4);
    let position = constant_value(&mut data, 3, 4);
    let one_bit = constant_value(&mut data, 1, 4);
    let (pull, pulled) = op_with_output(&mut data, b, ZPULL, vec![root, position, one_bit], 1);
    let zero = constant_value(&mut data, 0, 1);
    let (equal, _) = op_with_output(&mut data, b, INT_EQUAL, vec![pulled, zero], 1);
    assert_eq!(RulePullAbsorb.apply_op(pull, &mut data), 1);
    assert_eq!(data.op(equal).opcode, BOOL_NEGATE);
    assert_eq!(data.op(equal).inputs, vec![pulled]);

    let (pull2, pulled2) = op_with_output(&mut data, b, ZPULL, vec![root, position, one_bit], 1);
    let (unequal, _) = op_with_output(&mut data, b, INT_NOTEQUAL, vec![pulled2, zero], 1);
    assert_eq!(RulePullAbsorb.apply_op(pull2, &mut data), 1);
    assert_eq!(data.op(unequal).opcode, ZPULL);
    assert_eq!(data.op(unequal).inputs, vec![root, position, one_bit]);
}

fn merged_value(data: &mut Funcdata, block: GraphBlockId, size: u32) -> VarnodeId {
    let base = input_value(data, size);
    let field = input_value(data, size);
    let preserve_mask = constant_value(data, 0xffff_ff0f, size);
    let field_mask = constant_value(data, 0xf0, size);
    let shift_amount = constant_value(data, 4, size);
    let (_, preserved) = op_with_output(data, block, INT_AND, vec![base, preserve_mask], size);
    let (_, shifted) = op_with_output(data, block, INT_LEFT, vec![field, shift_amount], size);
    let (_, inserted) = op_with_output(data, block, INT_AND, vec![shifted, field_mask], size);
    let (_, merged) = op_with_output(data, block, INT_OR, vec![preserved, inserted], size);
    merged
}

#[test]
fn bitfield_load_fires_and_declines_without_extraction() {
    let mut data = Funcdata::default();
    let b = block(&mut data);
    let space = constant_value(&mut data, 3, 4);
    let pointer = input_value(&mut data, 4);
    let (load, loaded) = op_with_output(&mut data, b, LOAD, vec![space, pointer], 4);
    let mask = constant_value(&mut data, 0xf0, 4);
    let (_, masked) = op_with_output(&mut data, b, INT_AND, vec![loaded, mask], 4);
    let shift = constant_value(&mut data, 4, 4);
    let (extract, _) = op_with_output(&mut data, b, INT_RIGHT, vec![masked, shift], 4);
    assert_eq!(RuleBitFieldLoad.apply_op(load, &mut data), 1);
    assert_eq!(data.op(extract).opcode, ZPULL);
    let (plain_load, _) = op_with_output(&mut data, b, LOAD, vec![space, pointer], 4);
    assert_eq!(RuleBitFieldLoad.apply_op(plain_load, &mut data), 0);
}

#[test]
fn bitfield_out_fires_and_declines_noncontiguous_merge() {
    let mut data = Funcdata::default();
    let b = block(&mut data);
    let merged = merged_value(&mut data, b, 4);
    let (out, _) = op_with_output(&mut data, b, COPY, vec![merged], 4);
    assert_eq!(RuleBitFieldOut.apply_op(out, &mut data), 1);
    assert_eq!(data.op(out).opcode, INSERT);
    assert_eq!(constant_of(&data, data.op(out).inputs[2]), Some(4));
    assert_eq!(constant_of(&data, data.op(out).inputs[3]), Some(4));
    let base = input_value(&mut data, 4);
    let value = input_value(&mut data, 4);
    let bad_preserve = constant_value(&mut data, 0xffff_ff05, 4);
    let (_, preserved) = op_with_output(&mut data, b, INT_AND, vec![base, bad_preserve], 4);
    let (_, bad_merge) = op_with_output(&mut data, b, INT_OR, vec![preserved, value], 4);
    let (bad_out, _) = op_with_output(&mut data, b, COPY, vec![bad_merge], 4);
    assert_eq!(RuleBitFieldOut.apply_op(bad_out, &mut data), 0);
}

#[test]
fn bitfield_store_fires_and_declines_existing_insert() {
    let mut data = Funcdata::default();
    let b = block(&mut data);
    let merged = merged_value(&mut data, b, 4);
    let space = constant_value(&mut data, 3, 4);
    let pointer = input_value(&mut data, 4);
    let (store, _) = op_with_output(&mut data, b, STORE, vec![space, pointer, merged], 4);
    assert_eq!(RuleBitFieldStore.apply_op(store, &mut data), 1);
    let inserted = data.op(store).inputs[2];
    assert_eq!(data.varnode(inserted).def.map(|id| data.op(id).opcode), Some(INSERT));
    let base = input_value(&mut data, 4);
    let value = input_value(&mut data, 4);
    let position = constant_value(&mut data, 4, 4);
    let bits = constant_value(&mut data, 4, 4);
    let (insert, insert_out) = op_with_output(&mut data, b, INSERT, vec![base, value, position, bits], 4);
    let existing = op_with_output(&mut data, b, STORE, vec![space, pointer, insert_out], 4).0;
    assert_eq!(RuleBitFieldStore.apply_op(existing, &mut data), 0);
    assert_eq!(data.op(insert).opcode, INSERT);
}
