use lib::graph::{Funcdata, GraphBlockId};
use lib::lifted::{block_leaders, LiftedFunction, LiftedInstruction, LiftedOp};
use lib::pcode::{Location, CALL, CBRANCH, CONST_SPACE, COPY, INT_ADD, RAM_SPACE, REGISTER_SPACE, RETURN};

fn loc(space: u32, offset: u64, size: u32) -> Location {
    Location { space, offset, size }
}

fn op(opcode: i32, output: Option<Location>, inputs: Vec<Location>) -> LiftedOp {
    LiftedOp { opcode, output, inputs }
}

fn instruction(address: u64, ops: Vec<LiftedOp>) -> LiftedInstruction {
    LiftedInstruction { address, len: 4, embedded_delay_slot_bytes: 0, ops }
}

/// `v0 = 1; v0 = v0 + 1; return`
fn lifted() -> LiftedFunction {
    LiftedFunction {
        entry: 0x1000,
        instructions: vec![instruction(
            0x1000,
            vec![
                op(COPY, Some(loc(REGISTER_SPACE, 8, 4)), vec![loc(CONST_SPACE, 1, 4)]),
                op(
                    INT_ADD,
                    Some(loc(REGISTER_SPACE, 8, 4)),
                    vec![loc(REGISTER_SPACE, 8, 4), loc(CONST_SPACE, 1, 4)],
                ),
            ],
        )],
        edges: vec![],
    }
}

fn block_at(data: &Funcdata, order: u32) -> GraphBlockId {
    *data
        .blocks()
        .iter()
        .find(|id| data.block(**id).start_order == order)
        .expect("the block exists")
}

#[test]
fn an_embedded_delay_slot_is_not_executed_a_second_time() {
    let slot = || {
        op(
            INT_ADD,
            Some(loc(REGISTER_SPACE, 8, 4)),
            vec![loc(REGISTER_SPACE, 16, 4), loc(CONST_SPACE, 0x40, 4)],
        )
    };
    // The call carries its slot's operation, and names one byte of slot.
    let call = LiftedInstruction {
        address: 0x1000,
        len: 4,
        embedded_delay_slot_bytes: 1,
        ops: vec![slot(), op(CALL, None, vec![loc(RAM_SPACE, 0x2000, 4)])],
    };
    let function = LiftedFunction {
        entry: 0x1000,
        instructions: vec![
            call,
            // The same instruction, still present in the listing.
            instruction(0x1004, vec![slot()]),
            instruction(0x1008, vec![op(RETURN, None, vec![loc(REGISTER_SPACE, 496, 4)])]),
        ],
        edges: vec![],
    };
    let data = Funcdata::from_lifted(&function);
    let adds = data.live_ops().iter().filter(|id| data.op(**id).opcode == INT_ADD).count();
    assert_eq!(adds, 1, "the delay slot runs once, before the call");
}

#[test]
fn each_definition_of_a_location_gets_its_own_value() {
    let data = Funcdata::from_lifted(&lifted());
    let versions = data.at_location(REGISTER_SPACE, 8, 4);
    let written = versions.iter().filter(|value| data.varnode(**value).flags.written).count();
    assert_eq!(written, 2, "one varnode per definition");
    assert_eq!(versions.len() - written, 1, "the read is its own free varnode, unlinked until renaming");
}

#[test]
fn a_straight_run_of_instructions_is_a_single_block() {
    let function = LiftedFunction {
        entry: 0x1000,
        instructions: [0x1000u64, 0x1004, 0x1008, 0x100c, 0x1010]
            .iter()
            .map(|address| instruction(*address, Vec::new()))
            .collect(),
        // The back edge makes 0x1004 a join; 0x1010 is the branch's other
        // destination.
        edges: vec![(0x1000, 0x1004), (0x1004, 0x1008), (0x1008, 0x100c), (0x100c, 0x1004), (0x100c, 0x1010)],
    };
    assert_eq!(
        block_leaders(&function),
        vec![(0x1000, 0), (0x1004, 0), (0x1010, 0)],
        "0x1008 and 0x100c continue their block, and nothing branches inside an instruction"
    );
}

#[test]
fn a_branch_inside_one_instruction_splits_it() {
    let condition = loc(REGISTER_SPACE, 8, 1);
    // op 0 computes, op 1 skips op 2, op 2 is guarded, op 3 always runs.
    let ops = vec![
        op(COPY, Some(condition), vec![condition]),
        op(CBRANCH, None, vec![loc(CONST_SPACE, 2, 4), condition]),
        op(COPY, Some(condition), vec![condition]),
        op(COPY, Some(condition), vec![condition]),
    ];
    let function = LiftedFunction { entry: 0x1000, instructions: vec![instruction(0x1000, ops)], edges: vec![] };

    assert_eq!(
        block_leaders(&function),
        vec![(0x1000, 0), (0x1000, 2), (0x1000, 3)],
        "the branch ends a block and both destinations begin one"
    );

    let data = Funcdata::from_lifted(&function);
    let blocks: Vec<(u64, u32, usize)> = data
        .blocks()
        .iter()
        .map(|id| {
            let block = data.block(*id);
            (block.start, block.start_order, block.ops.len())
        })
        .collect();
    assert_eq!(
        blocks,
        vec![(0x1000, 0, 2), (0x1000, 2, 1), (0x1000, 3, 1)],
        "one instruction became three blocks: {blocks:?}"
    );
    assert_eq!(
        data.block(block_at(&data, 0)).successors.len(),
        2,
        "the guard reaches both the skipped body and the join"
    );
    assert_eq!(
        data.block(block_at(&data, 2)).successors,
        vec![block_at(&data, 3)],
        "the guarded body falls through to the join rather than dead-ending"
    );
    let branch = *data.block(block_at(&data, 0)).ops.last().expect("the guard ends in the branch");
    assert_eq!(
        data.branch_target(branch),
        Some(block_at(&data, 3)),
        "the branch is taken to the join, skipping the guarded body"
    );
    assert_eq!(
        data.block_starting_at(0x1000),
        Some(block_at(&data, 0)),
        "only the block at p-code index zero begins at the address"
    );
}

#[test]
fn a_conditional_return_inside_one_instruction_splits_it() {
    let condition = loc(REGISTER_SPACE, 8, 1);
    // `if (!cond) goto 0x1004; return;`
    let function = LiftedFunction {
        entry: 0x1000,
        instructions: vec![
            instruction(
                0x1000,
                vec![
                    op(CBRANCH, None, vec![loc(RAM_SPACE, 0x1008, 4), condition]),
                    op(RETURN, None, vec![condition]),
                ],
            ),
            instruction(0x1004, vec![op(RETURN, None, vec![condition])]),
            instruction(0x1008, vec![op(RETURN, None, vec![condition])]),
        ],
        edges: vec![(0x1000, 0x1004)],
    };

    assert_eq!(
        block_leaders(&function),
        vec![(0x1000, 0), (0x1000, 1), (0x1008, 0)],
        "the conditional ends a block, the return after it begins one, and so does the address it names"
    );
    let data = Funcdata::from_lifted(&function);
    let guard = data.block_starting_at(0x1000).expect("the conditional begins a block");
    assert_eq!(
        data.block(guard).successors.len(),
        2,
        "it reaches both the next instruction and its own return: {:?}",
        data.block(guard).successors
    );
    let returning = *data
        .blocks()
        .iter()
        .find(|id| data.block(**id).start == 0x1000 && data.block(**id).start_order == 1)
        .expect("the guarded return is its own block");
    let first = data.block(returning).ops[0];
    assert_eq!(data.op(first).opcode, RETURN, "and it begins with the guarded return");
}

#[test]
fn a_relative_branch_past_the_last_operation_reaches_the_next_instruction() {
    let condition = loc(REGISTER_SPACE, 8, 1);
    // Two operations, and the branch at index 1 targets index 4 - past the
    // end, so it leaves for 0x1004.
    let function = LiftedFunction {
        entry: 0x1000,
        instructions: vec![
            instruction(
                0x1000,
                vec![
                    op(COPY, Some(condition), vec![condition]),
                    op(CBRANCH, None, vec![loc(CONST_SPACE, 3, 4), condition]),
                ],
            ),
            instruction(0x1004, vec![op(RETURN, None, vec![condition])]),
        ],
        edges: vec![(0x1000, 0x1004)],
    };

    let data = Funcdata::from_lifted(&function);
    let first = data.block_starting_at(0x1000).expect("the first instruction begins a block");
    let next = data.block_starting_at(0x1004).expect("the second instruction begins a block");
    assert!(
        data.block(first).successors.contains(&next),
        "the branch out of the instruction reaches the next one: {:?}",
        data.block(first).successors
    );
    let branch = *data.block(first).ops.last().expect("the block ends in the branch");
    assert_eq!(data.branch_target(branch), Some(next), "and its destination resolves as an ordinary address");
}

#[test]
fn every_read_of_a_built_graph_is_a_free_value_at_its_location() {
    let data = Funcdata::from_lifted(&lifted());
    let add = *data.live_ops().iter().find(|id| data.op(**id).opcode == INT_ADD).expect("the add is built");
    let inputs = data.op(add).inputs.clone();
    assert_eq!(inputs.len(), 2);
    let read = data.varnode(inputs[0]);
    assert_eq!((read.space, read.offset, read.size), (REGISTER_SPACE, 8, 4));
    assert!(read.def.is_none());
    assert_eq!(read.descendants, vec![add]);
    let constant = data.varnode(inputs[1]);
    assert!(constant.flags.constant);
    assert_eq!(constant.offset, 1);
    let output = data.op(add).output.expect("the add writes v0");
    assert_eq!(data.varnode(output).def, Some(add));
}

#[test]
fn a_branch_past_the_instruction_reads_the_next_address() {
    let condition = loc(REGISTER_SPACE, 8, 1);
    let function = LiftedFunction {
        entry: 0x1000,
        instructions: vec![
            instruction(0x1000, vec![op(CBRANCH, None, vec![loc(CONST_SPACE, 5, 4), condition])]),
            instruction(0x1004, vec![op(RETURN, None, vec![condition])]),
        ],
        edges: vec![(0x1000, 0x1004)],
    };
    let data = Funcdata::from_lifted(&function);
    let branch = *data.live_ops().iter().find(|id| data.op(**id).opcode == CBRANCH).expect("the branch is built");
    let destination = data.varnode(data.op(branch).inputs[0]);
    assert_eq!((destination.space, destination.offset, destination.size), (RAM_SPACE, 0x1004, 4));
}

#[test]
fn a_built_block_lists_each_operation_once_in_lifted_order() {
    let condition = loc(REGISTER_SPACE, 8, 1);
    let function = LiftedFunction {
        entry: 0x1000,
        instructions: vec![
            instruction(0x1000, vec![op(COPY, Some(condition), vec![condition]), op(COPY, Some(condition), vec![condition])]),
            instruction(0x1004, vec![op(RETURN, None, vec![condition])]),
        ],
        edges: vec![],
    };
    let data = Funcdata::from_lifted(&function);
    let block = data.block_starting_at(0x1000).expect("the entry begins a block");
    let positions: Vec<(u64, u32)> = data
        .block(block)
        .ops
        .iter()
        .map(|id| (data.op(*id).seq.address, data.op(*id).seq.order))
        .collect();
    assert_eq!(positions, vec![(0x1000, 0), (0x1000, 1), (0x1004, 0)]);
}

#[test]
fn a_built_graph_has_exactly_the_edges_the_function_makes() {
    let condition = loc(REGISTER_SPACE, 8, 1);
    let function = LiftedFunction {
        entry: 0x1000,
        instructions: vec![
            instruction(0x1000, vec![op(CBRANCH, None, vec![loc(RAM_SPACE, 0x1008, 4), condition])]),
            instruction(0x1004, vec![op(COPY, Some(condition), vec![condition])]),
            instruction(0x1008, vec![op(RETURN, None, vec![condition])]),
        ],
        edges: vec![(0x1000, 0x1004), (0x1000, 0x1008), (0x1004, 0x1008)],
    };
    let data = Funcdata::from_lifted(&function);
    let first = data.block_starting_at(0x1000).expect("the entry begins a block");
    let middle = data.block_starting_at(0x1004).expect("the fall-through side begins a block");
    let last = data.block_starting_at(0x1008).expect("the target begins a block");
    assert_eq!(data.block(first).successors, vec![middle, last]);
    assert_eq!(data.block(middle).successors, vec![last]);
    assert!(data.block(last).successors.is_empty());
}
