use lib::action::Action;
use lib::actiondb::{
    merge_multi_entry, ActionAssignHigh, ActionMarkIndirectOnly, ActionMergeMultiEntry, ActionStart,
    ActionStartCleanUp, ActionStartTypes, ActionStop,
};
use lib::graph::{Funcdata, SeqNum};
use lib::pcode::{COPY, INDIRECT, REGISTER_SPACE};

fn seq(address: u64, order: u32) -> SeqNum {
    SeqNum { address, order }
}

#[test]
fn start_marks_processing_started() {
    let mut data = Funcdata::default();
    assert!(!data.is_proc_started());
    assert_eq!(ActionStart.apply(&mut data), 0);
    assert!(data.processing_started);
    assert!(data.is_proc_started());
}

#[test]
fn stop_marks_processing_complete() {
    let mut data = Funcdata::default();
    ActionStart.apply(&mut data);
    assert!(!data.is_proc_complete());
    assert_eq!(ActionStop.apply(&mut data), 0);
    assert!(data.processing_complete);
    assert!(data.is_proc_complete());
}

#[test]
fn start_types_reset_enables_and_apply_starts_recovery() {
    let mut data = Funcdata::default();
    let action = ActionStartTypes;
    action.reset(&mut data);
    assert!(data.type_recovery_on);
    assert!(data.is_type_recovery_on());
    assert!(!data.type_recovery_started);
    assert_eq!(action.apply(&mut data), 0);
    assert!(data.type_recovery_started);
    assert!(data.has_type_recovery_started());
    assert!(!data.start_type_recovery());
}

#[test]
fn start_cleanup_records_the_current_creation_boundary() {
    let mut data = Funcdata::default();
    data.new_varnode(REGISTER_SPACE, 0, 4);
    data.new_varnode(REGISTER_SPACE, 4, 4);
    assert_eq!(ActionStartCleanUp.apply(&mut data), 0);
    assert_eq!(data.clean_up_index, 2);
    data.new_varnode(REGISTER_SPACE, 8, 4);
    assert_eq!(data.clean_up_index, 2);
}

#[test]
fn assign_high_records_the_high_level_boundary_once() {
    let mut data = Funcdata::default();
    data.new_varnode(REGISTER_SPACE, 0, 4);
    assert_eq!(ActionAssignHigh.apply(&mut data), 0);
    assert!(data.high_level_on);
    assert!(data.is_high_on());
    assert_eq!(data.high_level_index, 1);
    data.new_varnode(REGISTER_SPACE, 4, 4);
    ActionAssignHigh.apply(&mut data);
    assert_eq!(data.high_level_index, 1);
}

#[test]
fn mark_indirect_only_marks_only_abnormal_inputs_with_indirect_uses() {
    let mut data = Funcdata::default();
    let block = data.new_block(0x1000);

    let indirect_input = data.new_varnode(REGISTER_SPACE, 0, 4);
    data.mark_input(indirect_input);
    let indirect = data.new_op(INDIRECT, seq(0x1000, 0), vec![indirect_input]);
    let indirect_output = data.new_varnode(REGISTER_SPACE, 0, 4);
    data.op_set_output(indirect, Some(indirect_output));
    data.op_insert_end(indirect, block);

    let ordinary_input = data.new_varnode(REGISTER_SPACE, 4, 4);
    data.mark_input(ordinary_input);
    let copy = data.new_op(COPY, seq(0x1004, 0), vec![ordinary_input]);
    let copy_output = data.new_varnode(REGISTER_SPACE, 4, 4);
    data.op_set_output(copy, Some(copy_output));
    data.op_insert_end(copy, block);

    assert_eq!(ActionMarkIndirectOnly.apply(&mut data), 0);
    assert!(data.varnode(indirect_input).flags.indirect_only);
    assert!(!data.varnode(ordinary_input).flags.indirect_only);
}

#[test]
fn merge_multi_entry_is_explicitly_unavailable_without_symbol_links() {
    let mut data = Funcdata::default();
    let block = data.new_block(0x2000);
    let input = data.new_constant(1, 4);
    let operation = data.new_op(COPY, seq(0x2000, 0), vec![input]);
    data.op_insert_end(operation, block);
    let before = data.clone();
    assert_eq!(ActionMergeMultiEntry.apply(&mut data), 0);
    assert_eq!(data, before);
    assert_eq!(merge_multi_entry(&mut data), 0);
    assert_eq!(data.block(block).ops, vec![operation]);
}

#[test]
fn an_input_read_through_a_merge_into_an_indirect_is_marked() {
    let mut data = Funcdata::default();
    let block = data.new_block(0x1000);
    let input = data.new_varnode(REGISTER_SPACE, 0, 4);
    data.mark_input(input);
    let other = data.new_constant(0, 4);
    let merge = data.new_op(lib::pcode::MULTIEQUAL, seq(0x1000, 0), vec![input, other]);
    let merged = data.new_varnode(REGISTER_SPACE, 0, 4);
    data.op_set_output(merge, Some(merged));
    data.op_insert_end(merge, block);
    let indirect = data.new_op(INDIRECT, seq(0x1000, 1), vec![merged]);
    let out = data.new_varnode(REGISTER_SPACE, 0, 4);
    data.op_set_output(indirect, Some(out));
    data.op_insert_end(indirect, block);
    assert_eq!(data.mark_indirect_only(), 1);
    assert!(data.varnode(input).flags.indirect_only);
    assert_eq!(data.mark_indirect_only(), 0);
}
