use lib::alias::{AddBase, AliasChecker};
use lib::graph::{Funcdata, GraphBlockId, SeqNum, VarnodeId};
use lib::pcode::{Location, INT_ADD, INT_SUB, RAM_SPACE, REGISTER_SPACE, STORE};

fn seq(address: u64, order: u32) -> SeqNum {
    SeqNum { address, order }
}

fn frame_pointer(data: &mut Funcdata) -> VarnodeId {
    let pointer = data.new_varnode(REGISTER_SPACE, 0x1d0, 4);
    data.spacebase = Some(Location { space: REGISTER_SPACE, offset: 0x1d0, size: 4 });
    pointer
}

fn add_constant(data: &mut Funcdata, block: GraphBlockId, base: VarnodeId, offset: u64) -> VarnodeId {
    let constant = data.new_constant(offset, 4);
    let operation = data.new_op(INT_ADD, seq(0x1000 + data.op_count() as u64 * 4, 0), vec![base, constant]);
    let output = data.new_unique(4);
    data.op_set_output(operation, Some(output));
    data.op_insert_end(operation, block);
    output
}

#[test]
fn indirect_store_escape_marks_stack_location_aliased() {
    let mut data = Funcdata::default();
    let block = data.new_block(0x1000);
    let stackbase = frame_pointer(&mut data);
    let address = add_constant(&mut data, block, stackbase, 0xffff_fff0);

    let external_target = data.new_varnode(RAM_SPACE, 0x5000, 4);
    let store_space = data.new_constant(RAM_SPACE as u64, 4);
    let store = data.new_op(STORE, seq(0x1010, 0), vec![store_space, external_target, address]);
    data.op_insert_end(store, block);

    let mut checker = AliasChecker::default();
    checker.gather(&data, RAM_SPACE, false);
    assert_eq!(checker.get_add_base(), &[AddBase { base: address, index: None }]);
    assert_eq!(checker.get_alias(), &[0xffff_fff0]);
    assert!(checker.has_local_alias(&data, Location { space: RAM_SPACE, offset: 0xffff_fff0, size: 4 }));
}

#[test]
fn dead_frame_pointer_has_no_alias() {
    let mut data = Funcdata::default();
    let block = data.new_block(0x2000);
    let stackbase = frame_pointer(&mut data);
    let _private_address = add_constant(&mut data, block, stackbase, 0xffff_ffc0);

    let mut checker = AliasChecker::default();
    checker.gather(&data, RAM_SPACE, false);
    assert!(checker.get_add_base().is_empty());
    assert!(checker.get_alias().is_empty());
    assert!(!checker.has_local_alias(&data, Location { space: RAM_SPACE, offset: 0xffff_ffc0, size: 4 }));
}

#[test]
fn additive_chain_preserves_index_and_sort_alias_offsets() {
    let mut data = Funcdata::default();
    let block = data.new_block(0x3000);
    let stackbase = frame_pointer(&mut data);
    let first = add_constant(&mut data, block, stackbase, 0xffff_ff00);
    let index = data.new_varnode(REGISTER_SPACE, 0x20, 4);
    data.mark_input(index);
    let operation = data.new_op(INT_ADD, seq(0x3010, 0), vec![first, index]);
    let indexed = data.new_unique(4);
    data.op_set_output(operation, Some(indexed));
    data.op_insert_end(operation, block);

    let store_space = data.new_constant(RAM_SPACE as u64, 4);
    let target = data.new_varnode(RAM_SPACE, 0x6000, 4);
    let store = data.new_op(STORE, seq(0x3020, 0), vec![store_space, target, indexed]);
    data.op_insert_end(store, block);

    let mut checker = AliasChecker::default();
    checker.gather(&data, RAM_SPACE, false);
    assert_eq!(checker.get_add_base()[0].index, Some(index));
    assert_eq!(checker.get_alias(), &[0xffff_ff00]);

    let second = add_constant(&mut data, block, stackbase, 0xffff_ff80);
    let store = data.new_op(STORE, seq(0x3030, 0), vec![store_space, target, second]);
    data.op_insert_end(store, block);
    checker.gather(&data, RAM_SPACE, false);
    checker.sort_alias();
    assert_eq!(checker.get_alias(), &[0xffff_ff00, 0xffff_ff80]);
}

#[test]
fn deferred_gather_calculates_on_first_query() {
    let mut data = Funcdata::default();
    let block = data.new_block(0x4000);
    let stackbase = frame_pointer(&mut data);
    let address = add_constant(&mut data, block, stackbase, 0xffff_ffd0);
    let store_space = data.new_constant(RAM_SPACE as u64, 4);
    let target = data.new_varnode(RAM_SPACE, 0x7000, 4);
    let store = data.new_op(STORE, seq(0x4010, 0), vec![store_space, target, address]);
    data.op_insert_end(store, block);

    let mut checker = AliasChecker::default();
    checker.gather(&data, RAM_SPACE, true);
    assert!(checker.get_alias().is_empty());
    assert!(checker.has_local_alias(&data, Location { space: RAM_SPACE, offset: 0xffff_ffd0, size: 4 }));
    assert_eq!(checker.get_alias(), &[0xffff_ffd0]);
}

#[test]
fn subtracting_the_pointer_ends_the_chain_and_offsets_subtract() {
    let mut data = Funcdata::default();
    let block = data.new_block(0x5000);
    let stackbase = frame_pointer(&mut data);
    let sixteen = data.new_constant(0x10, 4);
    let sub = data.new_op(INT_SUB, seq(0x5000, 0), vec![stackbase, sixteen]);
    let lowered = data.new_unique(4);
    data.op_set_output(sub, Some(lowered));
    data.op_insert_end(sub, block);
    let store_space = data.new_constant(RAM_SPACE as u64, 4);
    let target = data.new_varnode(RAM_SPACE, 0x8000, 4);
    let store = data.new_op(STORE, seq(0x5004, 0), vec![store_space, target, lowered]);
    data.op_insert_end(store, block);

    let mut checker = AliasChecker::default();
    checker.gather_with_layout(&data, RAM_SPACE, true, 0x100, u64::MAX, false);
    assert_eq!(checker.get_alias(), &[0xffff_fff0]);
    assert!(checker.has_local_alias(&data, Location { space: RAM_SPACE, offset: 0xffff_fff8, size: 4 }));
    assert!(!checker.has_local_alias(&data, Location { space: RAM_SPACE, offset: 0xffff_ffe0, size: 4 }));
    assert!(!checker.has_local_alias(&data, Location { space: REGISTER_SPACE, offset: 0xffff_fff8, size: 4 }));

    let mut upward = AliasChecker::default();
    upward.gather_with_layout(&data, RAM_SPACE, false, 0x100, 0x100, false);
    assert!(!upward.has_local_alias(&data, Location { space: RAM_SPACE, offset: 0xffff_fff8, size: 4 }));
}
