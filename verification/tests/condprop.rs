use lib::action::Action;
use lib::condprop::{ActionConstantPtr, ActionDeindirect, constant_pointer_targets};
use lib::graph::{Funcdata, SeqNum};
use lib::pcode::{CALL, CALLIND, COPY, LOAD, RAM_SPACE, REGISTER_SPACE};

fn seq(address: u64, order: u32) -> SeqNum {
    SeqNum { address, order }
}

#[test]
fn deindirect_retypes_constant_target_and_declines_register_target() {
    let mut data = Funcdata::default();
    let block = data.new_block(0x6000);
    let target = data.new_constant(0x7000, 8);
    let call = data.new_op(CALLIND, seq(0x6000, 0), vec![target]);
    data.op_insert_end(call, block);
    assert_eq!(ActionDeindirect.apply(&mut data), 1);
    assert_eq!(data.op(call).opcode, CALL);

    let register = data.new_unique(8);
    let indirect = data.new_op(CALLIND, seq(0x6004, 0), vec![register]);
    data.op_insert_end(indirect, block);
    assert_eq!(ActionDeindirect.apply(&mut data), 0);
    assert_eq!(data.op(indirect).opcode, CALLIND);
}

#[test]
fn deindirect_follows_copies_to_a_constant() {
    let mut data = Funcdata::default();
    let block = data.new_block(0x6000);
    let constant = data.new_constant(0x7000, 8);
    let copy = data.new_op(COPY, seq(0x6000, 0), vec![constant]);
    let copied = data.new_unique(8);
    data.op_set_output(copy, Some(copied));
    data.op_insert_end(copy, block);
    let again = data.new_op(COPY, seq(0x6000, 1), vec![copied]);
    let twice = data.new_unique(8);
    data.op_set_output(again, Some(twice));
    data.op_insert_end(again, block);
    let call = data.new_op(CALLIND, seq(0x6004, 0), vec![twice]);
    data.op_insert_end(call, block);
    assert_eq!(ActionDeindirect.apply(&mut data), 1);
    assert_eq!(data.op(call).opcode, CALL);
}

#[test]
fn constant_pointer_targets_report_load_constants_not_registers() {
    let mut data = Funcdata::default();
    let block = data.new_block(0x7000);
    let space = data.new_constant(RAM_SPACE as u64, 4);
    let address = data.new_constant(0x9000, 8);
    let load = data.new_op(LOAD, seq(0x7000, 0), vec![space, address]);
    let output = data.new_unique(4);
    data.op_set_output(load, Some(output));
    data.op_insert_end(load, block);
    let register_address = data.new_varnode(REGISTER_SPACE, 0x20, 8);
    data.mark_input(register_address);
    let register_load = data.new_op(LOAD, seq(0x7004, 0), vec![space, register_address]);
    let register_output = data.new_unique(4);
    data.op_set_output(register_load, Some(register_output));
    data.op_insert_end(register_load, block);

    let targets = constant_pointer_targets(&data);
    assert_eq!(targets.iter().find(|(v, _)| *v == address).map(|(_, a)| *a), Some(0x9000));
    assert_eq!(targets.len(), 1);
    assert_eq!(ActionConstantPtr.apply(&mut data), 1);
}

#[test]
fn constant_pointer_action_declines_register_address() {
    let mut data = Funcdata::default();
    let block = data.new_block(0x7100);
    let space = data.new_constant(RAM_SPACE as u64, 4);
    let register_address = data.new_varnode(REGISTER_SPACE, 0x28, 8);
    data.mark_input(register_address);
    let load = data.new_op(LOAD, seq(0x7100, 0), vec![space, register_address]);
    let output = data.new_unique(4);
    data.op_set_output(load, Some(output));
    data.op_insert_end(load, block);

    assert_eq!(constant_pointer_targets(&data), Vec::new());
    assert_eq!(ActionConstantPtr.apply(&mut data), 0);
}

#[test]
fn one_address_read_by_two_loads_is_listed_once_in_order() {
    let mut data = Funcdata::default();
    let block = data.new_block(0x7200);
    let space = data.new_constant(RAM_SPACE as u64, 4);
    let high = data.new_constant(0xa000, 8);
    let low = data.new_constant(0x9000, 8);
    for (order, address) in [(0u32, high), (1, low), (2, high)] {
        let load = data.new_op(LOAD, seq(0x7200, order), vec![space, address]);
        let output = data.new_unique(4);
        data.op_set_output(load, Some(output));
        data.op_insert_end(load, block);
    }
    let targets = constant_pointer_targets(&data);
    assert_eq!(targets, vec![(high, 0xa000), (low, 0x9000)]);
    assert_eq!(ActionConstantPtr.apply(&mut data), 2);
}
