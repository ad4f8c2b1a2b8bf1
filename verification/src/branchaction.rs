//! Control-flow cleanup actions on the p-code graph.
//!
//! A branch edge is part of the SSA contract: removing it also removes the
//! matching `MULTIEQUAL` operand. The graph owns that bookkeeping in
//! `Funcdata::remove_edge` and `Funcdata::remove_unreachable_blocks`; the
//! actions here do not duplicate it.

use vstd::prelude::*;

use crate::action::{Action, arenas_grow, fold_constant};
use crate::graph::{
    Funcdata, GraphBlock, GraphBlockId, GraphOp, OpId, VarnodeId, block_begins, drop_all, first_block_at, lemma_live_blocks_below, lemma_live_blocks_complete,
    lemma_resolves_unique, first_index_or, phi_run, same_but_edges,
    live_blocks, removed_unreached, resolves_to, same_but_readers, unreached_blocks, vns_below,
};
use crate::pcode::{
    BOOL_NEGATE, BRANCH, CBRANCH, CONST_SPACE, MULTIEQUAL, FLOAT_EQUAL, FLOAT_NOTEQUAL, INT_EQUAL, INT_LESS, INT_LESSEQUAL, INT_NOTEQUAL, INT_SLESS,
    INT_SLESSEQUAL, RAM_SPACE,
};

verus! {

/// Removes blocks unreachable from the entry, including the merge operands
/// they fed.
pub struct ActionUnreachable;

impl Action for ActionUnreachable {
    open spec fn title(&self) -> Seq<char> {
        "unreachable"@
    }

    fn name(&self) -> (r: &'static str) {
        "unreachable"
    }

    open spec fn reports(&self, pre: Funcdata, post: Funcdata, changes: usize) -> bool {
        changes == unreached_blocks(&pre, pre.bls().len() as int).len()
    }

    fn apply(&self, data: &mut Funcdata) -> (changes: usize)
        ensures
            removed_unreached(&*old(data), &*final(data)),
            changes == unreached_blocks(&*old(data), old(data).bls().len() as int).len(),
    {
        data.remove_unreachable_blocks()
    }
}

/// The last operation of `ops[..n]` not yet destroyed.
pub open spec fn last_live(d: &Funcdata, ops: Seq<OpId>, n: int) -> Option<OpId>
    decreases n,
{
    if n <= 0 {
        None
    } else if !d.opn(ops[n - 1]).dead {
        Some(ops[n - 1])
    } else {
        last_live(d, ops, n - 1)
    }
}

/// The terminator of `block`: its last live operation.
pub open spec fn terminator(d: &Funcdata, block: GraphBlockId) -> Option<OpId> {
    last_live(d, d.blk(block).ops@, d.blk(block).ops@.len() as int)
}

proof fn lemma_last_live_in(d: &Funcdata, ops: Seq<OpId>, n: int)
    requires
        0 <= n <= ops.len(),
    ensures
        last_live(d, ops, n) matches Some(o) ==> ops.contains(o) && !d.opn(o).dead,
    decreases n,
{
    if n > 0 {
        lemma_last_live_in(d, ops, n - 1);
        if !d.opn(ops[n - 1]).dead {
            assert(ops[n - 1] == ops[n - 1]);
        }
    }
}

pub(crate) fn last_live_op(data: &Funcdata, block: GraphBlockId) -> (r: Option<OpId>)
    requires
        data.wf(),
        data.valid_block(block),
    ensures
        r == terminator(data, block),
        r matches Some(o) ==> data.valid_op(o) && !data.opn(o).dead,
{
    let ops = &data.block(block).ops;
    proof {
        assert(data.block_wf(block));
        lemma_last_live_in(data, ops@, ops@.len() as int);
    }
    let mut i: usize = ops.len();
    while i > 0
        invariant
            i <= ops@.len(),
            *ops == data.blk(block).ops,
            crate::graph::ops_below(ops@, data.opv().len() as int),
            last_live(data, ops@, ops@.len() as int) == last_live(data, ops@, i as int),
        decreases i,
    {
        let id = ops[i - 1];
        proof {
            assert(ops@[i - 1].0 < data.opv().len());
        }
        if data.opcode_of(id).is_some() {
            proof {
                lemma_last_live_in(data, ops@, ops@.len() as int);
            }
            return Some(id);
        }
        i -= 1;
    }
    None
}

/// The value `set_branch_target` names a block by: the branch's own
/// destination when it already names the block's address, else a new
/// memory location at that address.
pub open spec fn keeps_destination(d: &Funcdata, branch: OpId, target: GraphBlockId) -> bool {
    d.opn(branch).inputs@.len() > 0 && d.vn(d.opn(branch).inputs@[0]).offset == d.blk(target).start
}

/// The condition operand a branch keeps when its destination changes.
pub open spec fn kept_condition(o: GraphOp) -> Seq<VarnodeId> {
    if o.opcode == CBRANCH && o.inputs@.len() > 1 {
        seq![o.inputs@[1]]
    } else {
        Seq::empty()
    }
}

/// Points `branch` at `target`, keeping a conditional branch's condition.
fn set_branch_target(data: &mut Funcdata, branch: OpId, target: GraphBlockId, size: u32)
    requires
        old(data).wf(),
        old(data).valid_op(branch),
        old(data).valid_block(target),
        old(data).vns().len() < u32::MAX,
    ensures
        final(data).wf(),
        final(data).opv().len() == old(data).opv().len(),
        final(data).bls() == old(data).bls(),
        final(data).same_header(&*old(data)),
        keeps_destination(&*old(data), branch, target) ==> final(data).vns().len() == old(data).vns().len()
            && final(data).opn(branch).inputs@[0] == old(data).opn(branch).inputs@[0],
        !keeps_destination(&*old(data), branch, target) ==> final(data).vns().len() == old(data).vns().len() + 1
            && final(data).opn(branch).inputs@[0].0 == old(data).vns().len()
            && final(data).vn(final(data).opn(branch).inputs@[0]).space == RAM_SPACE
            && final(data).vn(final(data).opn(branch).inputs@[0]).size == (if size == 0 { 1 } else { size }),
        final(data).opn(branch).inputs@ == seq![final(data).opn(branch).inputs@[0]] + kept_condition(old(data).opn(branch)),
        final(data).vn(final(data).opn(branch).inputs@[0]).offset == old(data).blk(target).start,
        final(data).opn(branch) == (GraphOp { inputs: final(data).opn(branch).inputs, ..old(data).opn(branch) }),
        forall|o: OpId| #![trigger final(data).opn(o)] final(data).valid_op(o) && o != branch ==> final(data).opn(o) == old(data).opn(o),
        forall|v: VarnodeId| #![trigger old(data).vn(v)] old(data).valid_vn(v) ==> same_but_readers(final(data).vn(v), old(data).vn(v)),
{
    let ghost pre = *data;
    proof {
        assert(data.op_wf(branch));
    }
    let operation = data.op(branch);
    let mut reuse: Option<VarnodeId> = None;
    if operation.inputs.len() > 0 {
        let first = operation.inputs[0];
        proof {
            assert(operation.inputs@[0].0 < data.vns().len());
        }
        if data.varnode(first).offset == data.block(target).start {
            reuse = Some(first);
        }
    }
    let condition: Option<VarnodeId> = if operation.opcode == CBRANCH && operation.inputs.len() > 1 {
        Some(operation.inputs[1])
    } else {
        None
    };
    proof {
        if operation.inputs@.len() > 1 {
            assert(operation.inputs@[1].0 < data.vns().len());
        }
    }
    let target_value = match reuse {
        Some(value) => value,
        None => {
            let start = data.block(target).start;
            let width: u32 = if size == 0 { 1 } else { size };
            data.new_varnode(RAM_SPACE, start, width)
        },
    };
    let mut inputs: Vec<VarnodeId> = Vec::new();
    inputs.push(target_value);
    if let Some(value) = condition {
        inputs.push(value);
    }
    proof {
        assert(vns_below(inputs@, data.vns().len() as int));
        assert(data.opn(branch) == pre.opn(branch));
        assert(inputs@ =~= seq![target_value] + kept_condition(pre.opn(branch)));
    }
    let ghost mid = *data;
    proof {
        assert forall|v: VarnodeId| #![trigger pre.vn(v)] pre.valid_vn(v) implies same_but_readers(mid.vn(v), pre.vn(v)) by {
            assert(mid.vns().take(pre.vns().len() as int)[v.0 as int] == mid.vn(v));
        }
    }
    data.op_set_inputs(branch, inputs);
    proof {
        assert(data.opn(branch).inputs@[0] == target_value);
        assert(same_but_readers(data.vn(target_value), data.vn(target_value)));
        assert forall|v: VarnodeId| #![trigger pre.vn(v)] pre.valid_vn(v) implies same_but_readers(data.vn(v), pre.vn(v)) by {
            assert(same_but_readers(mid.vn(v), pre.vn(v)));
            assert(same_but_readers(data.vn(v), mid.vn(v)));
        }
    }
}

/// The block a branch resolves to.
pub open spec fn resolved(d: &Funcdata, branch: OpId) -> Option<GraphBlockId> {
    choose|r: Option<GraphBlockId>| resolves_to(d, branch, r)
}

proof fn lemma_resolved(d: &Funcdata, branch: OpId, r: Option<GraphBlockId>)
    requires
        resolves_to(d, branch, r),
    ensures
        resolved(d, branch) == r,
{
    lemma_resolves_unique(d, branch, r, resolved(d, branch));
}

/// The first entry of `s` from position `i` on that is not `t`.
pub open spec fn first_other(s: Seq<GraphBlockId>, t: GraphBlockId, i: int) -> Option<GraphBlockId>
    decreases s.len() - i,
{
    if i < 0 || i >= s.len() {
        None
    } else if s[i] != t {
        Some(s[i])
    } else {
        first_other(s, t, i + 1)
    }
}

proof fn lemma_first_other(s: Seq<GraphBlockId>, t: GraphBlockId, i: int)
    requires
        0 <= i,
    ensures
        first_other(s, t, i) matches Some(x) ==> s.contains(x) && x != t,
    decreases s.len() - i,
{
    if i < s.len() {
        lemma_first_other(s, t, i + 1);
        if s[i] != t {
            assert(s[i] == s[i]);
        }
    }
}

fn first_other_exec(s: &Vec<GraphBlockId>, t: GraphBlockId) -> (r: Option<GraphBlockId>)
    ensures
        r == first_other(s@, t, 0),
        r matches Some(x) ==> s@.contains(x) && x != t,
{
    proof {
        lemma_first_other(s@, t, 0);
    }
    let mut i: usize = 0;
    while i < s.len()
        invariant
            i <= s@.len(),
            first_other(s@, t, 0) == first_other(s@, t, i as int),
        decreases s@.len() - i,
    {
        if s[i] != t {
            return Some(s[i]);
        }
        i += 1;
    }
    None
}

/// The edge a constant condition decides: `(keep, drop)`, when the branch
/// resolves and the block has another successor.
pub open spec fn decided_edges(d: &Funcdata, block: GraphBlockId, branch: OpId) -> Option<(GraphBlockId, GraphBlockId)> {
    let o = d.opn(branch);
    match resolved(d, branch) {
        Some(target) => match first_other(d.blk(block).successors@, target, 0) {
            Some(other) => if d.vn(o.inputs@[1]).offset != 0 {
                Some((target, other))
            } else {
                Some((other, target))
            },
            None => None,
        },
        None => None,
    }
}

/// A conditional branch of `block` with a constant condition, at least two
/// successors and a resolvable destination whose untaken edge exists.
pub open spec fn folds(d: &Funcdata, block: GraphBlockId, branch: OpId) -> bool {
    let o = d.opn(branch);
    &&& o.inputs@.len() >= 2
    &&& d.vn(o.inputs@[1]).flags.constant
    &&& d.blk(block).successors@.len() >= 2
    &&& decided_edges(d, block, branch) matches Some((keep, drop)) && d.blk(block).successors@.contains(drop)
}

/// Opcodes only change from a conditional branch to a branch.
pub open spec fn only_branches_fold(pre: &Funcdata, post: &Funcdata) -> bool {
    &&& post.opv().len() >= pre.opv().len()
    &&& forall|o: OpId|
        #![trigger post.opn(o)]
        pre.valid_op(o) ==> post.opn(o).opcode == pre.opn(o).opcode || (pre.opn(o).opcode == CBRANCH && post.opn(o).opcode
            == BRANCH)
}

/// Folds one conditional branch whose condition is a constant: the edge it
/// cannot take goes, with the merge operands it fed, and the branch becomes
/// an unconditional one naming the block it does take.
fn fold_determined(data: &mut Funcdata, block: GraphBlockId, branch: OpId) -> (changed: bool)
    requires
        old(data).wf(),
        old(data).valid_block(block),
        old(data).valid_op(branch),
        old(data).vns().len() < u32::MAX,
    ensures
        final(data).wf(),
        arenas_grow(&*old(data), &*final(data)),
        final(data).vns().len() <= old(data).vns().len() + 1,
        final(data).opv().len() == old(data).opv().len(),
        final(data).bls().len() == old(data).bls().len(),
        changed == folds(&*old(data), block, branch),
        !changed ==> final(data).same_graph(&*old(data)) && final(data).same_header(&*old(data)),
        changed ==> ({
            let (keep, drop) = decided_edges(&*old(data), block, branch).unwrap();
            &&& final(data).opn(branch).opcode == BRANCH
            &&& final(data).opn(branch).inputs@.len() == 1
            &&& final(data).vn(final(data).opn(branch).inputs@[0]).offset == old(data).blk(keep).start
            &&& final(data).blk(block).successors@ == drop_all(old(data).blk(block).successors@, drop)
        }),
        forall|o: OpId|
            #![trigger final(data).opn(o)]
            final(data).valid_op(o) && o != branch ==> final(data).opn(o).opcode == old(data).opn(o).opcode,
        final(data).opn(branch).opcode == old(data).opn(branch).opcode || final(data).opn(branch).opcode == BRANCH,
        forall|o: OpId|
            #![trigger final(data).opn(o)]
            old(data).valid_op(o) && o != branch && old(data).opn(o).opcode != MULTIEQUAL ==> same_op(final(data).opn(o), old(data).opn(o)),
        forall|v: VarnodeId| #![trigger old(data).vn(v)] old(data).valid_vn(v) ==> same_but_readers(final(data).vn(v), old(data).vn(v)),
        forall|x: GraphBlockId|
            #![trigger final(data).blk(x)]
            old(data).valid_block(x) ==> same_but_edges(final(data).blk(x), old(data).blk(x))
                && (x != block ==> final(data).blk(x).successors@ == old(data).blk(x).successors@),
{
    let ghost pre = *data;
    proof {
        assert(data.op_wf(branch));
        assert(data.block_wf(block));
    }
    let operation = data.op(branch);
    if operation.inputs.len() < 2 {
        return false;
    }
    let condition = operation.inputs[1];
    let target_size = data.varnode(operation.inputs[0]).size;
    proof {
        assert(operation.inputs@[1].0 < data.vns().len());
        assert(operation.inputs@[0].0 < data.vns().len());
    }
    let successors = data.block(block).successors.clone();
    if !data.varnode(condition).flags.constant || successors.len() < 2 {
        return false;
    }
    let resolved_target = data.branch_target(branch);
    proof {
        lemma_resolved(data, branch, resolved_target);
    }
    let target = match resolved_target {
        Some(t) => t,
        None => {
            return false;
        },
    };
    let other = match first_other_exec(&successors, target) {
        Some(x) => x,
        None => {
            return false;
        },
    };
    let taken = data.varnode(condition).offset != 0;
    let keep = if taken { target } else { other };
    let drop = if taken { other } else { target };
    proof {
        assert(decided_edges(&pre, block, branch) == Some((keep, drop)));
        let k = choose|k: int| 0 <= k < successors@.len() && successors@[k] == other;
        assert(successors@[k].0 < data.bls().len());
        lemma_resolved_valid(&pre, branch, target);
    }
    if !data.remove_edge(block, drop) {
        return false;
    }
    let ghost s1 = *data;
    data.op_set_opcode(branch, BRANCH);
    let ghost s2 = *data;
    proof {
        assert(s2.opn(branch).opcode == BRANCH);
        assert(kept_condition(s2.opn(branch)) =~= Seq::<VarnodeId>::empty());
    }
    set_branch_target(data, branch, keep, target_size);
    proof {
        assert(data.opn(branch).inputs@ =~= seq![data.opn(branch).inputs@[0]]);
        assert forall|o: OpId|
            #![trigger data.opn(o)]
            data.valid_op(o) && o != branch implies data.opn(o).opcode == pre.opn(o).opcode by {
            assert(data.opn(o) == s2.opn(o));
            assert(s2.opn(o) == s1.opn(o));
        }
        assert(data.blk(block).successors@ == s1.blk(block).successors@);
        assert(crate::graph::same_but_edges(s1.blk(keep), pre.blk(keep)));
        assert(data.blk(keep).start == pre.blk(keep).start);
        assert forall|o: OpId|
            #![trigger data.opn(o)]
            pre.valid_op(o) && o != branch && pre.opn(o).opcode != MULTIEQUAL implies same_op(data.opn(o), pre.opn(o)) by {
            assert(data.opn(o) == s2.opn(o));
            assert(s2.opn(o) == s1.opn(o));
            assert(pre.block_wf(drop));
            lemma_not_leading_phi(pre.opv(), pre.blk(drop).ops@, o);
            lemma_stripped_other(
                pre.opn(o).inputs@,
                crate::graph::leading_phis(pre.opv(), pre.blk(drop).ops@),
                o,
                first_index_or(pre.blk(drop).predecessors@, block, 0),
            );
        }
        assert forall|v: VarnodeId| #![trigger pre.vn(v)] pre.valid_vn(v) implies same_but_readers(data.vn(v), pre.vn(v)) by {
            assert(same_but_readers(s1.vn(v), pre.vn(v)));
            assert(s2.vn(v) == s1.vn(v));
            assert(same_but_readers(data.vn(v), s2.vn(v)));
        }
        assert forall|x: GraphBlockId|
            #![trigger data.blk(x)]
            pre.valid_block(x) implies same_but_edges(data.blk(x), pre.blk(x)) && (x != block ==> data.blk(x).successors@
                == pre.blk(x).successors@) by {
            assert(data.blk(x) == s1.blk(x));
        }
    }
    true
}

/// Two operations agree in every field, their operand lists as sequences.
pub open spec fn same_op(a: GraphOp, b: GraphOp) -> bool {
    &&& a.opcode == b.opcode
    &&& a.seq == b.seq
    &&& a.output == b.output
    &&& a.inputs@ == b.inputs@
    &&& a.parent == b.parent
    &&& a.dead == b.dead
}

proof fn lemma_phi_run_merges(opv: Seq<GraphOp>, ops: Seq<OpId>, i: int)
    requires
        0 <= i <= ops.len(),
    ensures
        i <= phi_run(opv, ops, i) <= ops.len(),
        forall|k: int| i <= k < phi_run(opv, ops, i) ==> (#[trigger] ops[k].0 as int) < opv.len() && opv[ops[k].0 as int].opcode
            == MULTIEQUAL,
    decreases ops.len() - i,
{
    if 0 <= i < ops.len() && (ops[i].0 as int) < opv.len() && opv[ops[i].0 as int].opcode == MULTIEQUAL {
        lemma_phi_run_merges(opv, ops, i + 1);
    }
}

/// An operation that is not a merge is not among a block's leading merges.
proof fn lemma_not_leading_phi(opv: Seq<GraphOp>, ops: Seq<OpId>, o: OpId)
    requires
        (o.0 as int) < opv.len(),
        opv[o.0 as int].opcode != MULTIEQUAL,
    ensures
        !crate::graph::leading_phis(opv, ops).contains(o),
{
    lemma_phi_run_merges(opv, ops, 0);
    let phis = crate::graph::leading_phis(opv, ops);
    if phis.contains(o) {
        let k = choose|k: int| 0 <= k < phis.len() && phis[k] == o;
        assert(phis[k] == ops[k]);
        assert((ops[k].0 as int) < opv.len());
    }
}

/// Stripping merge operands leaves an operation outside the merges alone.
proof fn lemma_stripped_other(inputs: Seq<VarnodeId>, phis: Seq<OpId>, o: OpId, slot: int)
    requires
        !phis.contains(o),
    ensures
        crate::graph::stripped(inputs, phis, o, slot) == inputs,
    decreases phis.len(),
{
    if phis.len() > 0 {
        assert(!phis.drop_last().contains(o)) by {
            if phis.drop_last().contains(o) {
                let k = choose|k: int| 0 <= k < phis.drop_last().len() && phis.drop_last()[k] == o;
                assert(phis[k] == o);
            }
        }
        lemma_stripped_other(inputs, phis.drop_last(), o, slot);
        assert(phis[phis.len() - 1] == phis.last());
    }
}

/// A resolved branch names a block of the graph.
proof fn lemma_resolved_valid(d: &Funcdata, branch: OpId, target: GraphBlockId)
    requires
        resolves_to(d, branch, Some(target)),
    ensures
        d.valid_block(target),
{
}

/// Folds a constant conditional transfer and drops the edge that cannot
/// run.
pub struct ActionDeterminedBranch;

impl Action for ActionDeterminedBranch {
    open spec fn title(&self) -> Seq<char> {
        "determined-branch"@
    }

    fn name(&self) -> (r: &'static str) {
        "determined-branch"
    }

    open spec fn reports(&self, pre: Funcdata, post: Funcdata, changes: usize) -> bool {
        &&& changes <= pre.bls().len()
        &&& distinct_branches(conditional_list(&pre)) && pre.vns().len() + pre.bls().len() < 0xFFFF_FFFE ==> changes
            == fold_count(&pre, conditional_list(&pre), conditional_list(&pre).len() as int)
    }

    fn apply(&self, data: &mut Funcdata) -> (changes: usize)
        ensures
            only_branches_fold(&*old(data), &*final(data)),
            changes <= old(data).bls().len(),
            final(data).bls().len() == old(data).bls().len(),
            forall|o: OpId|
                #![trigger final(data).opn(o)]
                old(data).valid_op(o) && old(data).opn(o).opcode != MULTIEQUAL && !branches_of(conditional_list(&*old(data))).contains(o)
                    ==> same_op(final(data).opn(o), old(data).opn(o)),
            distinct_branches(conditional_list(&*old(data))) && old(data).vns().len() + old(data).bls().len()
                < 0xFFFF_FFFE ==> changes == fold_count(&*old(data), conditional_list(&*old(data)), conditional_list(
                &*old(data),
            ).len() as int),
            distinct_branches(conditional_list(&*old(data))) && old(data).vns().len() + old(data).bls().len()
                < 0xFFFF_FFFE ==> forall|k: int|
                0 <= k < conditional_list(&*old(data)).len() ==> #[trigger] fold_outcome(
                    &*old(data),
                    &*final(data),
                    conditional_list(&*old(data))[k],
                ),
    {
        let ghost pre = *data;
        let candidates = conditional_terminators(data);
        let ghost list = candidates@;
        let ghost distinct = distinct_branches(list);
        proof {
            lemma_conditional_list_blocks(&pre);
        }
        let mut changed: usize = 0;
        let mut i: usize = 0;
        while i < candidates.len() && data.varnode_count() < 0xFFFF_FFFE
            invariant
                pre.wf(),
                data.wf(),
                arenas_grow(&pre, data),
                only_branches_fold(&pre, data),
                data.bls().len() == pre.bls().len(),
                data.opv().len() == pre.opv().len(),
                candidates@ == list,
                list == conditional_list(&pre),
                distinct == distinct_branches(list),
                forall|a: int, b: int| 0 <= a < b < list.len() ==> (#[trigger] list[a]).0.0 < (#[trigger] list[b]).0.0,
                candidates@.len() <= pre.bls().len(),
                forall|k: int| 0 <= k < candidates@.len() ==> #[trigger] conditional_terminator(&pre, candidates@[k]),
                i <= candidates@.len(),
                changed <= i,
                data.vns().len() <= pre.vns().len() + i,
                forall|x: GraphBlockId| #![trigger data.blk(x)] pre.valid_block(x) ==> same_but_edges(data.blk(x), pre.blk(x)),
                forall|k: int| i <= k < list.len() ==> data.blk((#[trigger] list[k]).0).successors@ == pre.blk(list[k].0).successors@,
                forall|v: VarnodeId| #![trigger pre.vn(v)] pre.valid_vn(v) ==> same_but_readers(data.vn(v), pre.vn(v)),
                forall|o: OpId|
                    #![trigger data.opn(o)]
                    pre.valid_op(o) && pre.opn(o).opcode != MULTIEQUAL && !branches_of(list).take(i as int).contains(o) ==> same_op(
                        data.opn(o),
                        pre.opn(o),
                    ),
                distinct ==> changed == fold_count(&pre, list, i as int),
                distinct ==> forall|k: int| 0 <= k < i ==> #[trigger] fold_outcome(&pre, &*data, list[k]),
            decreases candidates@.len() - i,
        {
            let (block, branch) = candidates[i];
            proof {
                assert(conditional_terminator(&pre, candidates@[i as int]));
                assert(branches_of(list)[i as int] == branch);
            }
            let ghost before = *data;
            proof {
                if distinct {
                    assert(!branches_of(list).take(i as int).contains(branch)) by {
                        if branches_of(list).take(i as int).contains(branch) {
                            let j = choose|j: int| 0 <= j < i && branches_of(list).take(i as int)[j] == branch;
                            assert(list[j].1 == list[i as int].1);
                        }
                    }
                    assert(same_op(before.opn(branch), pre.opn(branch)));
                    assert(before.blk(block).successors@ == pre.blk(block).successors@);
                    lemma_folds_frame(&pre, &before, block, branch);
                }
            }
            let folded = fold_determined(data, block, branch);
            if folded {
                changed += 1;
            }
            proof {
                assert forall|o: OpId|
                    #![trigger data.opn(o)]
                    pre.valid_op(o) implies data.opn(o).opcode == pre.opn(o).opcode || (pre.opn(o).opcode == CBRANCH
                        && data.opn(o).opcode == BRANCH) by {
                    assert(before.opn(o).opcode == pre.opn(o).opcode || (pre.opn(o).opcode == CBRANCH && before.opn(o).opcode
                        == BRANCH));
                    if o == branch && data.opn(o).opcode != before.opn(o).opcode {
                        assert(data.opn(o).opcode == BRANCH);
                        assert(before.opn(o).opcode == CBRANCH) by {
                            assert(before.opn(o).opcode == pre.opn(o).opcode || before.opn(o).opcode == BRANCH);
                        }
                    }
                }
                assert forall|x: GraphBlockId| #![trigger data.blk(x)] pre.valid_block(x) implies same_but_edges(data.blk(x), pre.blk(x)) by {
                    assert(same_but_edges(before.blk(x), pre.blk(x)));
                    assert(before.valid_block(x));
                }
                assert forall|k: int| i + 1 <= k < list.len() implies data.blk((#[trigger] list[k]).0).successors@ == pre.blk(
                    list[k].0,
                ).successors@ by {
                    assert(list[i as int].0.0 < list[k].0.0);
                    assert(conditional_terminator(&pre, candidates@[k]));
                    assert(before.valid_block(list[k].0));
                }
                assert forall|v: VarnodeId| #![trigger pre.vn(v)] pre.valid_vn(v) implies same_but_readers(data.vn(v), pre.vn(v)) by {
                    assert(same_but_readers(before.vn(v), pre.vn(v)));
                    assert(before.valid_vn(v));
                    assert(same_but_readers(data.vn(v), before.vn(v)));
                }
                assert(branches_of(list).take(i as int + 1) =~= branches_of(list).take(i as int).push(branch));
                assert forall|o: OpId|
                    #![trigger data.opn(o)]
                    pre.valid_op(o) && pre.opn(o).opcode != MULTIEQUAL && !branches_of(list).take(i as int + 1).contains(o) implies same_op(
                        data.opn(o),
                        pre.opn(o),
                    ) by {
                    assert(branches_of(list).take(i as int + 1)[i as int] == branch);
                    assert(o != branch);
                    if branches_of(list).take(i as int).contains(o) {
                        let j = choose|j: int| 0 <= j < i && branches_of(list).take(i as int)[j] == o;
                        assert(branches_of(list).take(i as int + 1)[j] == o);
                    }
                    assert(same_op(before.opn(o), pre.opn(o)));
                    assert(before.opn(o).opcode != MULTIEQUAL);
                }
                if distinct {
                    if folds(&pre, block, branch) {
                        let (keep, drop) = decided_edges(&pre, block, branch).unwrap();
                        assert(pre.valid_block(keep));
                        assert(same_but_edges(data.blk(keep), pre.blk(keep)));
                        assert(same_but_edges(before.blk(keep), pre.blk(keep)));
                    }
                    assert(fold_outcome(&pre, &*data, list[i as int]));
                    assert forall|k: int| 0 <= k < i + 1 implies #[trigger] fold_outcome(&pre, &*data, list[k]) by {
                        if k < i {
                            assert(conditional_terminator(&pre, candidates@[k]));
                            assert(fold_outcome(&pre, &before, list[k]));
                            assert(list[k].1 != branch) by {
                                assert(branches_of(list)[k] == list[k].1);
                            }
                            assert(list[k].0.0 < list[i as int].0.0);
                            lemma_fold_outcome_frame(&pre, &before, &*data, list[k], block, branch);
                        }
                    }
                }
            }
            i += 1;
        }
        proof {
            if pre.vns().len() + pre.bls().len() < 0xFFFF_FFFE {
                assert(i == candidates@.len());
                assert(branches_of(list).take(i as int) =~= branches_of(list));
            } else {
                assert forall|o: OpId|
                    #![trigger data.opn(o)]
                    pre.valid_op(o) && pre.opn(o).opcode != MULTIEQUAL && !branches_of(list).contains(o) implies same_op(
                        data.opn(o),
                        pre.opn(o),
                    ) by {
                    if branches_of(list).take(i as int).contains(o) {
                        let j = choose|j: int| 0 <= j < i && branches_of(list).take(i as int)[j] == o;
                        assert(branches_of(list)[j] == o);
                    }
                }
            }
        }
        changed
    }
}

/// How many of the first `k` terminators of `list` fold a constant condition.
pub open spec fn fold_count(d: &Funcdata, list: Seq<(GraphBlockId, OpId)>, k: int) -> nat
    decreases k,
{
    if k <= 0 {
        0
    } else {
        fold_count(d, list, k - 1) + if folds(d, list[k - 1].0, list[k - 1].1) { 1nat } else { 0nat }
    }
}

/// What folding a constant condition leaves of a terminator `e` of `pre`:
/// when it folds, the block loses the edge it cannot take and its branch
/// becomes an unconditional one naming the block it does take; otherwise
/// both are untouched.
pub open spec fn fold_outcome(pre: &Funcdata, post: &Funcdata, e: (GraphBlockId, OpId)) -> bool {
    let (block, branch) = e;
    if folds(pre, block, branch) {
        let (keep, drop) = decided_edges(pre, block, branch).unwrap();
        &&& post.opn(branch).opcode == BRANCH
        &&& post.opn(branch).inputs@.len() == 1
        &&& post.vn(post.opn(branch).inputs@[0]).offset == pre.blk(keep).start
        &&& post.blk(block).successors@ == drop_all(pre.blk(block).successors@, drop)
    } else {
        &&& same_op(post.opn(branch), pre.opn(branch))
        &&& post.blk(block).successors@ == pre.blk(block).successors@
    }
}

proof fn lemma_fold_outcome_frame(
    pre: &Funcdata,
    a: &Funcdata,
    b: &Funcdata,
    e: (GraphBlockId, OpId),
    block: GraphBlockId,
    branch: OpId,
)
    requires
        a.wf(),
        pre.valid_op(e.1),
        pre.valid_block(e.0),
        a.opv().len() == pre.opv().len(),
        a.bls().len() == pre.bls().len(),
        fold_outcome(pre, a, e),
        e.1 != branch,
        e.0 != block,
        pre.opn(e.1).opcode == CBRANCH,
        a.opn(e.1).opcode == CBRANCH || a.opn(e.1).opcode == BRANCH,
        forall|o: OpId|
            #![trigger b.opn(o)]
            a.valid_op(o) && o != branch && a.opn(o).opcode != MULTIEQUAL ==> same_op(b.opn(o), a.opn(o)),
        forall|v: VarnodeId| #![trigger a.vn(v)] a.valid_vn(v) ==> same_but_readers(b.vn(v), a.vn(v)),
        forall|x: GraphBlockId|
            #![trigger b.blk(x)]
            a.valid_block(x) ==> same_but_edges(b.blk(x), a.blk(x)) && (x != block ==> b.blk(x).successors@ == a.blk(x).successors@),
    ensures
        fold_outcome(pre, b, e),
{
    assert(a.valid_op(e.1));
    assert(same_op(b.opn(e.1), a.opn(e.1)));
    assert(a.valid_block(e.0));
    assert(b.blk(e.0).successors@ == a.blk(e.0).successors@);
    if folds(pre, e.0, e.1) {
        assert(a.op_wf(e.1));
        let x = a.opn(e.1).inputs@[0];
        assert(a.valid_vn(x));
        assert(same_but_readers(b.vn(x), a.vn(x)));
    }
}

/// Folding a constant condition is decided the same way in a graph that
/// differs only in other blocks' edges, in merge operands, in reader lists
/// and in values appended since.
proof fn lemma_folds_frame(a: &Funcdata, b: &Funcdata, block: GraphBlockId, branch: OpId)
    requires
        a.wf(),
        a.valid_op(branch),
        a.valid_block(block),
        b.bls().len() == a.bls().len(),
        b.opv().len() == a.opv().len(),
        same_op(b.opn(branch), a.opn(branch)),
        b.blk(block).successors@ == a.blk(block).successors@,
        forall|v: VarnodeId| #![trigger a.vn(v)] a.valid_vn(v) ==> same_but_readers(b.vn(v), a.vn(v)),
        forall|x: GraphBlockId| #![trigger b.blk(x)] a.valid_block(x) ==> same_but_edges(b.blk(x), a.blk(x)),
    ensures
        folds(b, block, branch) == folds(a, block, branch),
        a.opn(branch).inputs@.len() >= 2 ==> decided_edges(b, block, branch) == decided_edges(a, block, branch),
        decided_edges(a, block, branch) matches Some((keep, drop)) ==> a.valid_block(keep),
{
    assert(a.op_wf(branch));
    let r = lemma_resolves_exists(a, branch);
    assert forall|k: int| 0 <= k < a.bls().len() implies #[trigger] b.bls()[k] == b.bls()[k] && same_but_edges(
        b.bls()[k],
        a.bls()[k],
    ) by {
        assert(a.valid_block(GraphBlockId(k as u32)));
        assert(b.blk(GraphBlockId(k as u32)) == b.bls()[k]);
    }
    if a.opn(branch).inputs@.len() > 0 {
        let x = a.opn(branch).inputs@[0];
        assert(a.valid_vn(x));
        assert(same_but_readers(b.vn(x), a.vn(x)));
    }
    assert(resolves_to(b, branch, r));
    lemma_resolved(a, branch, r);
    lemma_resolved(b, branch, r);
    if a.opn(branch).inputs@.len() >= 2 {
        let c = a.opn(branch).inputs@[1];
        assert(a.valid_vn(c));
        assert(same_but_readers(b.vn(c), a.vn(c)));
    }
    if let Some(target) = r {
        lemma_resolved_valid(a, branch, target);
        assert(a.block_wf(block));
        lemma_first_other(a.blk(block).successors@, target, 0);
    }
}

/// The blocks of the conditional terminators come in increasing order.
proof fn lemma_conditional_list_blocks(d: &Funcdata)
    requires
        d.bls().len() <= u32::MAX,
    ensures
        forall|a: int, b: int|
            0 <= a < b < conditional_list(d).len() ==> (#[trigger] conditional_list(d)[a]).0.0 < (#[trigger] conditional_list(
                d,
            )[b]).0.0,
{
    let live = live_blocks(d.bls(), d.bls().len() as int);
    lemma_live_blocks_increasing(d.bls(), d.bls().len() as int);
    lemma_cond_list_increasing(d, live, live.len() as int);
}

proof fn lemma_live_blocks_increasing(bls: Seq<GraphBlock>, n: int)
    requires
        0 <= n <= bls.len(),
        bls.len() <= u32::MAX,
    ensures
        forall|a: int, b: int|
            0 <= a < b < live_blocks(bls, n).len() ==> (#[trigger] live_blocks(bls, n)[a]).0 < (#[trigger] live_blocks(bls, n)[b]).0,
        forall|a: int| 0 <= a < live_blocks(bls, n).len() ==> (#[trigger] live_blocks(bls, n)[a]).0 < n,
    decreases n,
{
    if n > 0 {
        lemma_live_blocks_increasing(bls, n - 1);
        let prev = live_blocks(bls, n - 1);
        let cur = live_blocks(bls, n);
        if !bls[n - 1].dead {
            assert forall|a: int| 0 <= a < cur.len() implies (#[trigger] cur[a]).0 < n by {
                if a < prev.len() {
                    assert(cur[a] == prev[a]);
                }
            }
            assert forall|a: int, b: int| 0 <= a < b < cur.len() implies (#[trigger] cur[a]).0 < (#[trigger] cur[b]).0 by {
                assert(cur[a] == prev[a]);
                if b < prev.len() {
                    assert(cur[b] == prev[b]);
                }
            }
        }
    }
}

proof fn lemma_cond_list_increasing(d: &Funcdata, blocks: Seq<GraphBlockId>, i: int)
    requires
        0 <= i <= blocks.len(),
        forall|a: int, b: int| 0 <= a < b < blocks.len() ==> (#[trigger] blocks[a]).0 < (#[trigger] blocks[b]).0,
    ensures
        forall|a: int, b: int|
            0 <= a < b < cond_list(d, blocks, i).len() ==> (#[trigger] cond_list(d, blocks, i)[a]).0.0 < (#[trigger] cond_list(
                d,
                blocks,
                i,
            )[b]).0.0,
        forall|a: int| 0 <= a < cond_list(d, blocks, i).len() ==> exists|m: int| 0 <= m < i && #[trigger] blocks[m] == (
        #[trigger] cond_list(d, blocks, i)[a]).0,
    decreases i,
{
    if i > 0 {
        lemma_cond_list_increasing(d, blocks, i - 1);
        let prev = cond_list(d, blocks, i - 1);
        let cur = cond_list(d, blocks, i);
        if cur.len() > prev.len() {
            assert forall|a: int| 0 <= a < cur.len() implies exists|m: int| 0 <= m < i && #[trigger] blocks[m] == (
            #[trigger] cur[a]).0 by {
                if a < prev.len() {
                    assert(cur[a] == prev[a]);
                    let m = choose|m: int| 0 <= m < i - 1 && #[trigger] blocks[m] == prev[a].0;
                    assert(blocks[m] == cur[a].0);
                } else {
                    assert(blocks[i - 1] == cur[a].0);
                }
            }
            assert forall|a: int, b: int| 0 <= a < b < cur.len() implies (#[trigger] cur[a]).0.0 < (#[trigger] cur[b]).0.0 by {
                assert(cur[a] == prev[a]);
                if b < prev.len() {
                    assert(cur[b] == prev[b]);
                } else {
                    let m = choose|m: int| 0 <= m < i - 1 && #[trigger] blocks[m] == prev[a].0;
                    assert(blocks[m].0 < blocks[i - 1].0);
                }
            }
        } else {
            assert forall|a: int| 0 <= a < cur.len() implies exists|m: int| 0 <= m < i && #[trigger] blocks[m] == (
            #[trigger] cur[a]).0 by {
                let m = choose|m: int| 0 <= m < i - 1 && #[trigger] blocks[m] == prev[a].0;
                assert(blocks[m] == cur[a].0);
            }
        }
    }
}

/// `e.1` is the conditional branch that ends block `e.0`.
pub open spec fn conditional_terminator(d: &Funcdata, e: (GraphBlockId, OpId)) -> bool {
    &&& d.valid_block(e.0)
    &&& d.valid_op(e.1)
    &&& terminator(d, e.0) == Some(e.1)
    &&& d.opn(e.1).opcode == CBRANCH
}

/// Among the first `i` of `blocks`, those whose terminator is a conditional
/// branch, with that branch.
pub open spec fn cond_list(d: &Funcdata, blocks: Seq<GraphBlockId>, i: int) -> Seq<(GraphBlockId, OpId)>
    decreases i,
{
    if i <= 0 {
        Seq::empty()
    } else {
        let r = cond_list(d, blocks, i - 1);
        match terminator(d, blocks[i - 1]) {
            Some(o) => if d.opn(o).opcode == CBRANCH {
                r.push((blocks[i - 1], o))
            } else {
                r
            },
            None => r,
        }
    }
}

/// The live blocks whose terminator is a conditional branch, with that
/// branch, in block order.
pub open spec fn conditional_list(d: &Funcdata) -> Seq<(GraphBlockId, OpId)> {
    let live = live_blocks(d.bls(), d.bls().len() as int);
    cond_list(d, live, live.len() as int)
}

/// The live blocks whose terminator is a conditional branch, with that
/// branch.
pub(crate) fn conditional_terminators(data: &Funcdata) -> (r: Vec<(GraphBlockId, OpId)>)
    requires
        data.wf(),
    ensures
        r@ == conditional_list(data),
        r@.len() <= data.bls().len(),
        forall|k: int| 0 <= k < r@.len() ==> #[trigger] conditional_terminator(data, r@[k]),
        forall|b: GraphBlockId, o: OpId|
            #![trigger conditional_terminator(data, (b, o))]
            conditional_terminator(data, (b, o)) && !data.blk(b).dead ==> r@.contains((b, o)),
{
    let blocks = data.blocks();
    proof {
        lemma_live_blocks_below(data.bls(), data.bls().len() as int);
    }
    let mut r: Vec<(GraphBlockId, OpId)> = Vec::new();
    let mut i: usize = 0;
    while i < blocks.len()
        invariant
            data.wf(),
            blocks@ == live_blocks(data.bls(), data.bls().len() as int),
            blocks@.len() <= data.bls().len(),
            forall|k: int| 0 <= k < blocks@.len() ==> data.valid_block(#[trigger] blocks@[k]),
            i <= blocks@.len(),
            r@.len() <= i,
            r@ == cond_list(data, blocks@, i as int),
            forall|k: int| 0 <= k < r@.len() ==> #[trigger] conditional_terminator(data, r@[k]),
            forall|m: int| 0 <= m < i && (#[trigger] terminator(data, blocks@[m])) is Some
                && data.opn(terminator(data, blocks@[m]).unwrap()).opcode == CBRANCH ==> r@.contains(
                (blocks@[m], terminator(data, blocks@[m]).unwrap()),
            ),
        decreases blocks@.len() - i,
    {
        let block = blocks[i];
        proof {
            assert(data.valid_block(blocks@[i as int]));
        }
        let ghost r0 = r@;
        if let Some(branch) = last_live_op(data, block) {
            if data.op(branch).opcode == CBRANCH {
                r.push((block, branch));
                proof {
                    assert(conditional_terminator(data, (block, branch)));
                    assert forall|k: int| 0 <= k < r@.len() implies #[trigger] conditional_terminator(data, r@[k]) by {
                        if k < r0.len() {
                            assert(r@[k] == r0[k]);
                        }
                    }
                    assert(r@[r0.len() as int] == (block, branch));
                }
            }
        }
        proof {
            assert forall|m: int| 0 <= m < i + 1 && (#[trigger] terminator(data, blocks@[m])) is Some
                && data.opn(terminator(data, blocks@[m]).unwrap()).opcode == CBRANCH implies r@.contains(
                (blocks@[m], terminator(data, blocks@[m]).unwrap()),
            ) by {
                if m < i {
                    let pair = (blocks@[m], terminator(data, blocks@[m]).unwrap());
                    assert(r0.contains(pair));
                    let k = choose|k: int| 0 <= k < r0.len() && r0[k] == pair;
                    assert(r@[k] == r0[k]);
                }
            }
        }
        i += 1;
    }
    proof {
        assert forall|b: GraphBlockId, o: OpId|
            #![trigger conditional_terminator(data, (b, o))]
            conditional_terminator(data, (b, o)) && !data.blk(b).dead implies r@.contains((b, o)) by {
            lemma_live_blocks_complete(data.bls(), data.bls().len() as int, b);
            let m = choose|m: int| 0 <= m < blocks@.len() && blocks@[m] == b;
            assert(terminator(data, blocks@[m]) == Some(o));
        }
    }
    r
}

/// A conditional branch of a two-way block whose condition is a
/// `BOOL_NEGATE` of some value, with a resolvable destination and another
/// successor.
pub open spec fn flips(d: &Funcdata, block: GraphBlockId, branch: OpId) -> bool {
    let o = d.opn(branch);
    let succ = d.blk(block).successors@;
    &&& succ.len() == 2
    &&& o.inputs@.len() >= 2
    &&& d.vn(o.inputs@[1]).def matches Some(def) && d.opn(def).opcode == BOOL_NEGATE && d.opn(def).inputs@.len() > 0
    &&& resolved(d, branch) matches Some(target) && first_other(succ, target, 0) is Some
}

/// Folds a branch's negated condition into the branch: it tests the value
/// itself and jumps to the other successor.
fn flip_negated(data: &mut Funcdata, block: GraphBlockId, branch: OpId) -> (changed: bool)
    requires
        old(data).wf(),
        old(data).valid_block(block),
        old(data).valid_op(branch),
        old(data).opn(branch).opcode == CBRANCH,
        old(data).vns().len() < u32::MAX,
    ensures
        final(data).wf(),
        arenas_grow(&*old(data), &*final(data)),
        final(data).vns().len() <= old(data).vns().len() + 1,
        final(data).opv().len() == old(data).opv().len(),
        final(data).bls() == old(data).bls(),
        changed == flips(&*old(data), block, branch),
        !changed ==> final(data).same_graph(&*old(data)),
        changed ==> ({
            let def = old(data).vn(old(data).opn(branch).inputs@[1]).def.unwrap();
            let other = first_other(old(data).blk(block).successors@, resolved(&*old(data), branch).unwrap(), 0).unwrap();
            &&& final(data).opn(branch).inputs@.len() == 2
            &&& final(data).opn(branch).inputs@[1] == old(data).opn(def).inputs@[0]
            &&& final(data).vn(final(data).opn(branch).inputs@[0]).offset == old(data).blk(other).start
        }),
        forall|o: OpId| #![trigger final(data).opn(o)] final(data).valid_op(o) ==> final(data).opn(o).opcode == old(data).opn(o).opcode,
        forall|o: OpId| #![trigger final(data).opn(o)] final(data).valid_op(o) && o != branch ==> final(data).opn(o) == old(data).opn(o),
        final(data).opn(branch) == (GraphOp { inputs: final(data).opn(branch).inputs, ..old(data).opn(branch) }),
        forall|v: VarnodeId| #![trigger old(data).vn(v)] old(data).valid_vn(v) ==> same_but_readers(final(data).vn(v), old(data).vn(v)),
{
    let ghost pre = *data;
    proof {
        assert(data.op_wf(branch));
        assert(data.block_wf(block));
    }
    if data.block(block).successors.len() != 2 {
        return false;
    }
    let operation = data.op(branch);
    if operation.inputs.len() < 2 {
        return false;
    }
    let condition = operation.inputs[1];
    let size = data.varnode(operation.inputs[0]).size;
    proof {
        assert(operation.inputs@[1].0 < data.vns().len());
        assert(operation.inputs@[0].0 < data.vns().len());
        assert(data.vn_wf(condition));
    }
    let def = match data.varnode(condition).def {
        Some(d) => d,
        None => {
            return false;
        },
    };
    proof {
        assert(data.op_wf(def));
    }
    if data.op(def).opcode != BOOL_NEGATE {
        return false;
    }
    let resolved_target = data.branch_target(branch);
    proof {
        lemma_resolved(data, branch, resolved_target);
    }
    let target = match resolved_target {
        Some(t) => t,
        None => {
            return false;
        },
    };
    let successors = data.block(block).successors.clone();
    let other = match first_other_exec(&successors, target) {
        Some(x) => x,
        None => {
            return false;
        },
    };
    if data.op(def).inputs.len() == 0 {
        return false;
    }
    let source = data.op(def).inputs[0];
    proof {
        assert(data.opn(def).inputs@[0].0 < data.vns().len());
        let k = choose|k: int| 0 <= k < successors@.len() && successors@[k] == other;
        assert(successors@[k].0 < data.bls().len());
    }
    data.op_set_input(branch, source, 1);
    let ghost s1 = *data;
    proof {
        assert(s1.opn(branch).inputs@ == pre.opn(branch).inputs@.update(1, source));
        assert(kept_condition(s1.opn(branch)) =~= seq![source]);
    }
    set_branch_target(data, branch, other, size);
    proof {
        assert(data.opn(branch).inputs@.len() == 2);
        assert forall|o: OpId| #![trigger data.opn(o)] data.valid_op(o) implies data.opn(o).opcode == pre.opn(o).opcode by {
            if o != branch {
                assert(data.opn(o) == s1.opn(o));
            }
        }
        assert forall|o: OpId| #![trigger data.opn(o)] data.valid_op(o) && o != branch implies data.opn(o) == pre.opn(o) by {
            assert(data.opn(o) == s1.opn(o));
        }
        assert forall|v: VarnodeId| #![trigger pre.vn(v)] pre.valid_vn(v) implies same_but_readers(data.vn(v), pre.vn(v)) by {
            assert(same_but_readers(s1.vn(v), pre.vn(v)));
            assert(same_but_readers(data.vn(v), s1.vn(v)));
        }
    }
    true
}

/// Folds a branch's negated condition into the branch itself.
pub struct ActionCbranchFlip;

impl Action for ActionCbranchFlip {
    open spec fn title(&self) -> Seq<char> {
        "cbranch-flip"@
    }

    fn name(&self) -> (r: &'static str) {
        "cbranch-flip"
    }

    open spec fn reports(&self, pre: Funcdata, post: Funcdata, changes: usize) -> bool {
        &&& changes <= pre.bls().len()
        &&& distinct_branches(conditional_list(&pre)) && pre.vns().len() + pre.bls().len() < 0xFFFF_FFFE ==> changes
            == flip_count(&pre, conditional_list(&pre), conditional_list(&pre).len() as int)
    }

    fn apply(&self, data: &mut Funcdata) -> (changes: usize)
        ensures
            forall|o: OpId|
                #![trigger final(data).opn(o)]
                old(data).valid_op(o) ==> final(data).opn(o).opcode == old(data).opn(o).opcode,
            final(data).bls() == old(data).bls(),
            changes <= old(data).bls().len(),
            forall|o: OpId|
                #![trigger final(data).opn(o)]
                old(data).valid_op(o) && !branches_of(conditional_list(&*old(data))).contains(o) ==> final(data).opn(o)
                    == old(data).opn(o),
            distinct_branches(conditional_list(&*old(data))) && old(data).vns().len() + old(data).bls().len()
                < 0xFFFF_FFFE ==> changes == flip_count(&*old(data), conditional_list(&*old(data)), conditional_list(
                &*old(data),
            ).len() as int),
            distinct_branches(conditional_list(&*old(data))) && old(data).vns().len() + old(data).bls().len()
                < 0xFFFF_FFFE ==> forall|k: int|
                0 <= k < conditional_list(&*old(data)).len() ==> #[trigger] flip_outcome(
                    &*old(data),
                    &*final(data),
                    conditional_list(&*old(data))[k],
                ),
    {
        let ghost pre = *data;
        let candidates = conditional_terminators(data);
        let ghost list = candidates@;
        let ghost distinct = distinct_branches(list);
        let mut changed: usize = 0;
        let mut i: usize = 0;
        while i < candidates.len() && data.varnode_count() < 0xFFFF_FFFE
            invariant
                pre.wf(),
                data.wf(),
                arenas_grow(&pre, data),
                data.bls() == pre.bls(),
                candidates@ == list,
                list == conditional_list(&pre),
                distinct == distinct_branches(list),
                data.vns().len() <= pre.vns().len() + i,
                data.opv().len() == pre.opv().len(),
                forall|o: OpId| #![trigger data.opn(o)] pre.valid_op(o) ==> data.opn(o).opcode == pre.opn(o).opcode,
                forall|o: OpId| #![trigger data.opn(o)] pre.valid_op(o) && pre.opn(o).opcode != CBRANCH ==> data.opn(o) == pre.opn(o),
                forall|o: OpId|
                    #![trigger data.opn(o)]
                    pre.valid_op(o) && !branches_of(list).take(i as int).contains(o) ==> data.opn(o) == pre.opn(o),
                forall|v: VarnodeId| #![trigger pre.vn(v)] pre.valid_vn(v) ==> same_but_readers(data.vn(v), pre.vn(v)),
                candidates@.len() <= pre.bls().len(),
                forall|k: int| 0 <= k < candidates@.len() ==> #[trigger] conditional_terminator(&pre, candidates@[k]),
                i <= candidates@.len(),
                changed <= i,
                distinct ==> changed == flip_count(&pre, list, i as int),
                distinct ==> forall|k: int| 0 <= k < i ==> #[trigger] flip_outcome(&pre, &*data, list[k]),
            decreases candidates@.len() - i,
        {
            let (block, branch) = candidates[i];
            proof {
                assert(conditional_terminator(&pre, candidates@[i as int]));
                assert(branches_of(list)[i as int] == branch);
            }
            let ghost before = *data;
            proof {
                assert(before.opn(branch).opcode == CBRANCH);
                if distinct {
                    assert(!branches_of(list).take(i as int).contains(branch)) by {
                        if branches_of(list).take(i as int).contains(branch) {
                            let j = choose|j: int| 0 <= j < i && branches_of(list).take(i as int)[j] == branch;
                            assert(list[j].1 == list[i as int].1);
                        }
                    }
                    assert(before.opn(branch) == pre.opn(branch));
                    lemma_flips_frame(&pre, &before, block, branch);
                }
            }
            let flipped = flip_negated(data, block, branch);
            if flipped {
                changed += 1;
            }
            proof {
                assert forall|o: OpId| #![trigger data.opn(o)] pre.valid_op(o) implies data.opn(o).opcode == pre.opn(o).opcode by {
                    assert(before.opn(o).opcode == pre.opn(o).opcode);
                }
                assert forall|o: OpId| #![trigger data.opn(o)] pre.valid_op(o) && pre.opn(o).opcode != CBRANCH implies data.opn(o)
                    == pre.opn(o) by {
                    assert(before.opn(o) == pre.opn(o));
                    assert(o != branch);
                }
                assert(branches_of(list).take(i as int + 1) =~= branches_of(list).take(i as int).push(branch));
                assert forall|o: OpId|
                    #![trigger data.opn(o)]
                    pre.valid_op(o) && !branches_of(list).take(i as int + 1).contains(o) implies data.opn(o) == pre.opn(o) by {
                    assert(branches_of(list).take(i as int + 1)[i as int] == branch);
                    assert(o != branch);
                    if branches_of(list).take(i as int).contains(o) {
                        let j = choose|j: int| 0 <= j < i && branches_of(list).take(i as int)[j] == o;
                        assert(branches_of(list).take(i as int + 1)[j] == o);
                    }
                }
                assert forall|v: VarnodeId| #![trigger pre.vn(v)] pre.valid_vn(v) implies same_but_readers(data.vn(v), pre.vn(v)) by {
                    assert(same_but_readers(before.vn(v), pre.vn(v)));
                    assert(before.valid_vn(v));
                    assert(same_but_readers(data.vn(v), before.vn(v)));
                }
                if distinct {
                    assert(flip_outcome(&pre, &*data, list[i as int]));
                    assert forall|k: int| 0 <= k < i + 1 implies #[trigger] flip_outcome(&pre, &*data, list[k]) by {
                        if k < i {
                            assert(conditional_terminator(&pre, candidates@[k]));
                            assert(flip_outcome(&pre, &before, list[k]));
                            assert(list[k].1 != branch) by {
                                assert(branches_of(list)[k] == list[k].1);
                            }
                            lemma_flip_outcome_frame(&pre, &before, &*data, list[k]);
                        }
                    }
                }
            }
            i += 1;
        }
        proof {
            if pre.vns().len() + pre.bls().len() < 0xFFFF_FFFE {
                assert(i == candidates@.len());
                assert(branches_of(list).take(i as int) =~= branches_of(list));
            } else {
                assert forall|o: OpId|
                    #![trigger data.opn(o)]
                    pre.valid_op(o) && !branches_of(list).contains(o) implies data.opn(o) == pre.opn(o) by {
                    if branches_of(list).take(i as int).contains(o) {
                        let j = choose|j: int| 0 <= j < i && branches_of(list).take(i as int)[j] == o;
                        assert(branches_of(list)[j] == o);
                    }
                }
            }
        }
        changed
    }
}

/// The branches of a list of terminators.
pub open spec fn branches_of(list: Seq<(GraphBlockId, OpId)>) -> Seq<OpId> {
    list.map_values(|p: (GraphBlockId, OpId)| p.1)
}

/// No branch terminates two listed blocks.
pub open spec fn distinct_branches(list: Seq<(GraphBlockId, OpId)>) -> bool {
    forall|a: int, b: int| 0 <= a < b < list.len() ==> (#[trigger] list[a]).1 != (#[trigger] list[b]).1
}

/// How many of the first `k` terminators of `list` fold a negated condition.
pub open spec fn flip_count(d: &Funcdata, list: Seq<(GraphBlockId, OpId)>, k: int) -> nat
    decreases k,
{
    if k <= 0 {
        0
    } else {
        flip_count(d, list, k - 1) + if flips(d, list[k - 1].0, list[k - 1].1) { 1nat } else { 0nat }
    }
}

/// What folding a negated condition leaves of a terminator `e` of `pre`: when
/// it folds, the branch tests the value under the negation and jumps to the
/// other successor; otherwise it is untouched.
pub open spec fn flip_outcome(pre: &Funcdata, post: &Funcdata, e: (GraphBlockId, OpId)) -> bool {
    let (block, branch) = e;
    if flips(pre, block, branch) {
        let def = pre.vn(pre.opn(branch).inputs@[1]).def.unwrap();
        let other = first_other(pre.blk(block).successors@, resolved(pre, branch).unwrap(), 0).unwrap();
        &&& post.opn(branch).inputs@.len() == 2
        &&& post.opn(branch).inputs@[1] == pre.opn(def).inputs@[0]
        &&& post.vn(post.opn(branch).inputs@[0]).offset == pre.blk(other).start
        &&& post.opn(branch) == (GraphOp { inputs: post.opn(branch).inputs, ..pre.opn(branch) })
    } else {
        post.opn(branch) == pre.opn(branch)
    }
}

proof fn lemma_flip_outcome_frame(pre: &Funcdata, a: &Funcdata, b: &Funcdata, e: (GraphBlockId, OpId))
    requires
        a.wf(),
        pre.valid_op(e.1),
        a.opv().len() == pre.opv().len(),
        flip_outcome(pre, a, e),
        b.opn(e.1) == a.opn(e.1),
        forall|v: VarnodeId| #![trigger a.vn(v)] a.valid_vn(v) ==> same_but_readers(b.vn(v), a.vn(v)),
    ensures
        flip_outcome(pre, b, e),
{
    if flips(pre, e.0, e.1) {
        assert(a.op_wf(e.1));
        let x = a.opn(e.1).inputs@[0];
        assert(a.valid_vn(x));
        assert(same_but_readers(b.vn(x), a.vn(x)));
    }
}

/// Scanning the blocks from `i`, the first that begins at `address`/`order`.
proof fn lemma_first_begin_from(bls: Seq<GraphBlock>, address: u64, order: u32, i: int) -> (r: Option<GraphBlockId>)
    requires
        0 <= i <= bls.len(),
        bls.len() <= u32::MAX,
        forall|k: int| 0 <= k < i ==> !block_begins(#[trigger] bls[k], address, order),
    ensures
        first_block_at(bls, address, order, r),
    decreases bls.len() - i,
{
    if i >= bls.len() {
        None
    } else if block_begins(bls[i], address, order) {
        Some(GraphBlockId(i as u32))
    } else {
        lemma_first_begin_from(bls, address, order, i + 1)
    }
}

/// Every branch resolves to some block or to none.
proof fn lemma_resolves_exists(d: &Funcdata, branch: OpId) -> (r: Option<GraphBlockId>)
    requires
        d.bls().len() <= u32::MAX,
    ensures
        resolves_to(d, branch, r),
{
    if d.opn(branch).inputs@.len() == 0 {
        None
    } else {
        let target = d.vn(d.opn(branch).inputs@[0]);
        let seq = d.opn(branch).seq;
        let order = seq.order + crate::graph::as_signed(target.offset);
        if target.space == CONST_SPACE {
            if 0 <= order <= u32::MAX {
                lemma_first_begin_from(d.bls(), seq.address, order as u32, 0)
            } else {
                None
            }
        } else {
            lemma_first_begin_from(d.bls(), target.offset, 0, 0)
        }
    }
}

/// Folding a negated condition is decided the same way in a graph that
/// differs only in the operands of other conditional branches, in reader
/// lists and in values appended since.
proof fn lemma_flips_frame(a: &Funcdata, b: &Funcdata, block: GraphBlockId, branch: OpId)
    requires
        a.wf(),
        a.valid_op(branch),
        b.bls() == a.bls(),
        b.opv().len() == a.opv().len(),
        b.opn(branch) == a.opn(branch),
        forall|v: VarnodeId| #![trigger a.vn(v)] a.valid_vn(v) ==> same_but_readers(b.vn(v), a.vn(v)),
        forall|o: OpId| #![trigger b.opn(o)] a.valid_op(o) ==> b.opn(o).opcode == a.opn(o).opcode,
        forall|o: OpId| #![trigger b.opn(o)] a.valid_op(o) && a.opn(o).opcode != CBRANCH ==> b.opn(o) == a.opn(o),
    ensures
        flips(b, block, branch) == flips(a, block, branch),
        resolved(b, branch) == resolved(a, branch),
        flips(a, block, branch) ==> b.opn(b.vn(b.opn(branch).inputs@[1]).def.unwrap()) == a.opn(
            a.vn(a.opn(branch).inputs@[1]).def.unwrap(),
        ),
{
    assert(a.op_wf(branch));
    let r = lemma_resolves_exists(a, branch);
    if a.opn(branch).inputs@.len() > 0 {
        let x = a.opn(branch).inputs@[0];
        assert(a.valid_vn(x));
        assert(same_but_readers(b.vn(x), a.vn(x)));
    }
    assert(resolves_to(b, branch, r));
    lemma_resolved(a, branch, r);
    lemma_resolved(b, branch, r);
    if a.opn(branch).inputs@.len() >= 2 {
        let c = a.opn(branch).inputs@[1];
        assert(a.valid_vn(c));
        assert(same_but_readers(b.vn(c), a.vn(c)));
        assert(a.vn_wf(c));
        if let Some(df) = a.vn(c).def {
            assert(a.valid_op(df));
            assert(b.opn(df).opcode == a.opn(df).opcode);
            if a.opn(df).opcode == BOOL_NEGATE {
                assert(b.opn(df) == a.opn(df));
            }
        }
    }
}

/// The opposite comparison a branch-only test is flipped to; operand order
/// is swapped for the ordering comparisons.
pub open spec fn inverse_opcode(opcode: i32) -> i32 {
    if opcode == INT_NOTEQUAL {
        INT_EQUAL
    } else if opcode == FLOAT_NOTEQUAL {
        FLOAT_EQUAL
    } else if opcode == INT_SLESS {
        INT_SLESSEQUAL
    } else if opcode == INT_LESS {
        INT_LESSEQUAL
    } else if opcode == INT_SLESSEQUAL {
        INT_SLESS
    } else if opcode == INT_LESSEQUAL {
        INT_LESS
    } else {
        opcode
    }
}

/// Whether the comparison `opcode` holds of `a` against `b`, the operands
/// read as numbers (two's-complement values for the signed comparisons).
pub open spec fn comparison_holds(opcode: i32, a: int, b: int) -> bool {
    if opcode == INT_LESS || opcode == INT_SLESS {
        a < b
    } else if opcode == INT_LESSEQUAL || opcode == INT_SLESSEQUAL {
        a <= b
    } else if opcode == INT_EQUAL || opcode == FLOAT_EQUAL {
        a == b
    } else {
        a != b
    }
}

/// Inverting a test is negating it: for every test a branch may be flipped
/// on, the inverse comparison with its operands swapped holds exactly when
/// the original does not, for all operand values; on constant unsigned
/// operands the folded inverse is one minus the folded original.
pub proof fn lemma_inverse_negates(opcode: i32, a: int, b: int, l: u64, r: u64)
    requires
        opcode == INT_NOTEQUAL || opcode == FLOAT_NOTEQUAL || opcode == INT_SLESS || opcode == INT_LESS || opcode
            == INT_SLESSEQUAL || opcode == INT_LESSEQUAL,
    ensures
        comparison_holds(inverse_opcode(opcode), b, a) == !comparison_holds(opcode, a, b),
        opcode == INT_NOTEQUAL || opcode == INT_LESS || opcode == INT_LESSEQUAL ==> (fold_constant(
            inverse_opcode(opcode),
            r,
            l,
        ) matches Some(w) && fold_constant(opcode, l, r) matches Some(v) && w + v == 1),
{
}

/// Whether operation `o`'s test may be inverted in place: inequality always,
/// an ordering when the operand that becomes the constant side after the
/// swap is a constant. Equality is left alone.
pub open spec fn invertible(d: &Funcdata, o: GraphOp) -> bool {
    let first_constant = o.inputs@.len() > 0 && d.vn(o.inputs@[0]).flags.constant;
    let second_constant = o.inputs@.len() > 1 && d.vn(o.inputs@[1]).flags.constant;
    ||| o.opcode == INT_NOTEQUAL
    ||| o.opcode == FLOAT_NOTEQUAL
    ||| ((o.opcode == INT_SLESS || o.opcode == INT_LESS) && first_constant)
    ||| ((o.opcode == INT_SLESSEQUAL || o.opcode == INT_LESSEQUAL) && second_constant)
}

/// The inverted test of `operation`, when it has one.
fn inverse_test(data: &Funcdata, operation: OpId) -> (r: Option<i32>)
    requires
        data.wf(),
        data.valid_op(operation),
    ensures
        r == (if invertible(data, data.opn(operation)) { Some(inverse_opcode(data.opn(operation).opcode)) } else { None }),
{
    proof {
        assert(data.op_wf(operation));
    }
    let o = data.op(operation);
    let opcode = o.opcode;
    proof {
        if o.inputs@.len() > 0 {
            assert(o.inputs@[0].0 < data.vns().len());
        }
        if o.inputs@.len() > 1 {
            assert(o.inputs@[1].0 < data.vns().len());
        }
    }
    let first_constant = o.inputs.len() > 0 && data.varnode(o.inputs[0]).flags.constant;
    let second_constant = o.inputs.len() > 1 && data.varnode(o.inputs[1]).flags.constant;
    if opcode == INT_NOTEQUAL {
        Some(INT_EQUAL)
    } else if opcode == FLOAT_NOTEQUAL {
        Some(FLOAT_EQUAL)
    } else if opcode == INT_SLESS && first_constant {
        Some(INT_SLESSEQUAL)
    } else if opcode == INT_LESS && first_constant {
        Some(INT_LESSEQUAL)
    } else if opcode == INT_SLESSEQUAL && second_constant {
        Some(INT_SLESS)
    } else if opcode == INT_LESSEQUAL && second_constant {
        Some(INT_LESS)
    } else {
        None
    }
}

/// A two-way branch whose condition is computed by an invertible test read
/// by nothing else, with a resolvable destination and another successor.
pub open spec fn normalizes(d: &Funcdata, block: GraphBlockId, branch: OpId) -> bool {
    let o = d.opn(branch);
    let succ = d.blk(block).successors@;
    &&& succ.len() == 2
    &&& o.inputs@.len() >= 2
    &&& d.vn(o.inputs@[1]).def matches Some(def) && invertible(d, d.opn(def))
    &&& d.vn(o.inputs@[1]).descendants@ == seq![branch]
    &&& resolved(d, branch) matches Some(target) && first_other(succ, target, 0) is Some
}

/// Whether the operand order of a test is swapped when it is inverted.
pub open spec fn swaps_operands(opcode: i32) -> bool {
    opcode == INT_SLESS || opcode == INT_SLESSEQUAL || opcode == INT_LESS || opcode == INT_LESSEQUAL
}

/// What normalizing one branch did: the test is inverted (ordering
/// operands swapped), the branch names the other successor and keeps its
/// condition, and nothing else changed but reader lists and one new value.
pub open spec fn normalized_by(pre: &Funcdata, post: &Funcdata, block: GraphBlockId, branch: OpId) -> bool {
    let def = pre.vn(pre.opn(branch).inputs@[1]).def.unwrap();
    let other = first_other(pre.blk(block).successors@, resolved(pre, branch).unwrap(), 0).unwrap();
    let tested = pre.opn(def).inputs@;
    &&& post.opn(def).opcode == inverse_opcode(pre.opn(def).opcode)
    &&& post.opn(def).inputs@ == (if swaps_operands(pre.opn(def).opcode) && tested.len() >= 2 {
        tested.update(0, tested[1]).update(1, tested[0])
    } else {
        tested
    })
    &&& post.vn(post.opn(branch).inputs@[0]).offset == pre.blk(other).start
    &&& post.opn(branch).inputs@[1] == pre.opn(branch).inputs@[1]
    &&& forall|o: OpId|
        #![trigger post.opn(o)]
        post.valid_op(o) && o != def ==> post.opn(o).opcode == pre.opn(o).opcode
    &&& forall|o: OpId|
        #![trigger post.opn(o)]
        post.valid_op(o) && o != def && o != branch ==> post.opn(o) == pre.opn(o)
    &&& post.opn(branch).inputs@.len() == 2
    &&& (post.opn(branch).inputs@[0] == pre.opn(branch).inputs@[0] || post.opn(branch).inputs@[0].0
        >= pre.vns().len())
    &&& post.opn(branch) == (GraphOp { inputs: post.opn(branch).inputs, ..pre.opn(branch) })
    &&& post.opn(def) == (GraphOp {
        opcode: post.opn(def).opcode,
        inputs: post.opn(def).inputs,
        ..pre.opn(def)
    })
    &&& def != branch
}

/// Inverts a branch-only test and points the branch at the other
/// successor, which keeps the branch's meaning.
fn normalize_branch(data: &mut Funcdata, block: GraphBlockId, branch: OpId) -> (changed: bool)
    requires
        old(data).wf(),
        old(data).valid_block(block),
        old(data).valid_op(branch),
        old(data).opn(branch).opcode == CBRANCH,
        old(data).vns().len() < u32::MAX,
    ensures
        final(data).wf(),
        arenas_grow(&*old(data), &*final(data)),
        final(data).opv().len() == old(data).opv().len(),
        final(data).bls() == old(data).bls(),
        changed == normalizes(&*old(data), block, branch),
        !changed ==> final(data).same_graph(&*old(data)),
        changed ==> normalized_by(&*old(data), &*final(data), block, branch),
        final(data).vns().len() <= old(data).vns().len() + 1,
        forall|v: VarnodeId| #![trigger old(data).vn(v)] old(data).valid_vn(v) ==> same_but_readers(final(data).vn(v), old(data).vn(v)),
{
    let ghost pre = *data;
    proof {
        assert(data.op_wf(branch));
        assert(data.block_wf(block));
    }
    if data.block(block).successors.len() != 2 {
        return false;
    }
    let operation = data.op(branch);
    if operation.inputs.len() < 2 {
        return false;
    }
    let condition = operation.inputs[1];
    let size = data.varnode(operation.inputs[0]).size;
    proof {
        assert(operation.inputs@[1].0 < data.vns().len());
        assert(operation.inputs@[0].0 < data.vns().len());
        assert(data.vn_wf(condition));
    }
    let def = match data.varnode(condition).def {
        Some(d) => d,
        None => {
            return false;
        },
    };
    proof {
        assert(data.op_wf(def));
    }
    match data.lone_descend(condition) {
        Some(reader) => {
            if reader != branch {
                return false;
            }
        },
        None => {
            return false;
        },
    }
    proof {
        assert(data.vn(condition).descendants@ =~= seq![branch]);
    }
    let resolved_target = data.branch_target(branch);
    proof {
        lemma_resolved(data, branch, resolved_target);
    }
    let target = match resolved_target {
        Some(t) => t,
        None => {
            return false;
        },
    };
    let successors = data.block(block).successors.clone();
    let other = match first_other_exec(&successors, target) {
        Some(x) => x,
        None => {
            return false;
        },
    };
    let inverse = match inverse_test(data, def) {
        Some(x) => x,
        None => {
            return false;
        },
    };
    proof {
        let k = choose|k: int| 0 <= k < successors@.len() && successors@[k] == other;
        assert(successors@[k].0 < data.bls().len());
        assert(def != branch);
    }
    let test_opcode = data.op(def).opcode;
    let ghost tested = data.opn(def).inputs@;
    if test_opcode == INT_SLESS || test_opcode == INT_SLESSEQUAL || test_opcode == INT_LESS || test_opcode == INT_LESSEQUAL {
        let mut inputs = data.op(def).inputs.clone();
        if inputs.len() >= 2 {
            let first = inputs[0];
            let second = inputs[1];
            inputs.set(0, second);
            inputs.set(1, first);
            proof {
                assert(vns_below(inputs@, data.vns().len() as int)) by {
                    assert forall|k: int| 0 <= k < inputs@.len() implies (#[trigger] inputs@[k]).0 < data.vns().len() by {
                        if k > 1 {
                            assert(inputs@[k] == tested[k]);
                        }
                    }
                }
            }
            data.op_set_inputs(def, inputs);
        }
    }
    let ghost s1 = *data;
    proof {
        assert(s1.opn(branch) == pre.opn(branch));
    }
    data.op_set_opcode(def, inverse);
    let ghost s2 = *data;
    proof {
        assert(s2.opv() == s1.opv().update(def.0 as int, GraphOp { opcode: inverse, ..s1.opn(def) }));
        assert(branch.0 != def.0);
        assert(s2.opn(branch) == s1.opn(branch));
    }
    set_branch_target(data, branch, other, size);
    proof {
        assert(data.opn(def) == s2.opn(def));
        assert(kept_condition(s2.opn(branch)) =~= seq![pre.opn(branch).inputs@[1]]) by {
            assert(pre.opn(branch).opcode == s2.opn(branch).opcode);
        }
        assert(data.opn(branch).inputs@[1] == pre.opn(branch).inputs@[1]);
        assert forall|o: OpId|
            #![trigger data.opn(o)]
            data.valid_op(o) && o != def implies data.opn(o).opcode == pre.opn(o).opcode by {
            if o != branch {
                assert(data.opn(o) == s2.opn(o));
                assert(s2.opn(o) == s1.opn(o));
            }
        }
        assert forall|o: OpId|
            #![trigger data.opn(o)]
            data.valid_op(o) && o != def && o != branch implies data.opn(o) == pre.opn(o) by {
            assert(data.opn(o) == s2.opn(o));
            assert(s2.opn(o) == s1.opn(o));
        }
        assert forall|v: VarnodeId| #![trigger pre.vn(v)] pre.valid_vn(v) implies same_but_readers(data.vn(v), pre.vn(v)) by {
            assert(same_but_readers(s1.vn(v), pre.vn(v)));
            assert(s2.vn(v) == s1.vn(v));
            assert(same_but_readers(data.vn(v), s2.vn(v)));
        }
    }
    true
}

/// Normalizes a branch by inverting a branch-only comparison and its
/// target.
pub struct ActionNormalizeBranches;

impl Action for ActionNormalizeBranches {
    open spec fn title(&self) -> Seq<char> {
        "normalize-branches"@
    }

    fn name(&self) -> (r: &'static str) {
        "normalize-branches"
    }

    open spec fn reports(&self, pre: Funcdata, post: Funcdata, changes: usize) -> bool {
        &&& changes <= pre.bls().len()
        &&& separate_conditions(&pre, conditional_list(&pre)) && pre.vns().len() + pre.bls().len() < 0xFFFF_FFFE ==> changes
            == normalize_count(&pre, conditional_list(&pre), conditional_list(&pre).len() as int)
    }

    fn apply(&self, data: &mut Funcdata) -> (changes: usize)
        ensures
            forall|o: OpId|
                #![trigger final(data).opn(o)]
                old(data).valid_op(o) ==> final(data).opn(o).opcode == old(data).opn(o).opcode || final(data).opn(o).opcode
                    == inverse_opcode(old(data).opn(o).opcode),
            final(data).bls() == old(data).bls(),
            changes <= old(data).bls().len(),
            separate_conditions(&*old(data), conditional_list(&*old(data))) && old(data).vns().len() + old(data).bls().len()
                < 0xFFFF_FFFE ==> changes == normalize_count(&*old(data), conditional_list(&*old(data)), conditional_list(
                &*old(data),
            ).len() as int),
            separate_conditions(&*old(data), conditional_list(&*old(data))) && old(data).vns().len() + old(data).bls().len()
                < 0xFFFF_FFFE ==> forall|k: int|
                0 <= k < conditional_list(&*old(data)).len() ==> #[trigger] normalize_outcome(
                    &*old(data),
                    &*final(data),
                    conditional_list(&*old(data))[k],
                ),
    {
        let ghost pre = *data;
        let candidates = conditional_terminators(data);
        let ghost list = candidates@;
        let ghost apart = separate_conditions(&pre, list);
        let mut changed: usize = 0;
        let mut i: usize = 0;
        while i < candidates.len() && data.varnode_count() < 0xFFFF_FFFE
            invariant
                pre.wf(),
                data.wf(),
                arenas_grow(&pre, data),
                data.bls() == pre.bls(),
                data.opv().len() == pre.opv().len(),
                data.vns().len() <= pre.vns().len() + i,
                candidates@ == list,
                list == conditional_list(&pre),
                apart == separate_conditions(&pre, list),
                forall|o: OpId|
                    #![trigger data.opn(o)]
                    pre.valid_op(o) ==> data.opn(o).opcode == pre.opn(o).opcode || data.opn(o).opcode == inverse_opcode(
                        pre.opn(o).opcode,
                    ),
                forall|v: VarnodeId| #![trigger pre.vn(v)] pre.valid_vn(v) ==> same_but_readers(data.vn(v), pre.vn(v)),
                candidates@.len() <= pre.bls().len(),
                forall|k: int| 0 <= k < candidates@.len() ==> #[trigger] conditional_terminator(&pre, candidates@[k]),
                i <= candidates@.len(),
                changed <= i,
                apart ==> forall|j: int| i <= j < list.len() ==> #[trigger] untouched_candidate(&pre, &*data, list[j]),
                apart ==> changed == normalize_count(&pre, list, i as int),
                apart ==> forall|k: int| 0 <= k < i ==> #[trigger] normalize_outcome(&pre, &*data, list[k]),
            decreases candidates@.len() - i,
        {
            let (block, branch) = candidates[i];
            proof {
                assert(conditional_terminator(&pre, candidates@[i as int]));
            }
            let ghost before = *data;
            proof {
                assert(before.opn(branch).opcode == CBRANCH) by {
                    assert(before.opn(branch).opcode == pre.opn(branch).opcode || before.opn(branch).opcode
                        == inverse_opcode(pre.opn(branch).opcode));
                }
                if apart {
                    assert(untouched_candidate(&pre, &before, list[i as int]));
                    lemma_normalizes_frame(&pre, &before, block, branch);
                }
            }
            let fired = normalize_branch(data, block, branch);
            if fired {
                changed += 1;
            }
            proof {
                assert forall|o: OpId|
                    #![trigger data.opn(o)]
                    pre.valid_op(o) implies data.opn(o).opcode == pre.opn(o).opcode || data.opn(o).opcode == inverse_opcode(
                        pre.opn(o).opcode,
                    ) by {
                    if fired {
                        let def = before.vn(before.opn(branch).inputs@[1]).def.unwrap();
                        if o == def {
                            assert(invertible(&before, before.opn(def)));
                            let b = before.opn(o).opcode;
                            assert(b == pre.opn(o).opcode || b == inverse_opcode(pre.opn(o).opcode));
                        }
                    }
                }
                assert forall|v: VarnodeId| #![trigger pre.vn(v)] pre.valid_vn(v) implies same_but_readers(data.vn(v), pre.vn(v)) by {
                    assert(same_but_readers(before.vn(v), pre.vn(v)));
                    assert(before.valid_vn(v));
                    assert(same_but_readers(data.vn(v), before.vn(v)));
                }
                if apart {
                    lemma_normalize_step(&pre, &before, &*data, list, i as int, fired);
                }
            }
            i += 1;
        }
        proof {
            if pre.vns().len() + pre.bls().len() < 0xFFFF_FFFE {
                assert(i == candidates@.len());
            }
        }
        changed
    }
}

/// No terminator's condition is an operand of another listed terminator.
pub open spec fn separate_conditions(d: &Funcdata, list: Seq<(GraphBlockId, OpId)>) -> bool {
    forall|j: int, k: int|
        0 <= j < list.len() && 0 <= k < list.len() && j != k && d.opn((#[trigger] list[j]).1).inputs@.len() >= 2 ==> !d.opn(
            (#[trigger] list[k]).1,
        ).inputs@.contains(d.opn(list[j].1).inputs@[1])
}

/// How many of the first `k` terminators of `list` normalize.
pub open spec fn normalize_count(d: &Funcdata, list: Seq<(GraphBlockId, OpId)>, k: int) -> nat
    decreases k,
{
    if k <= 0 {
        0
    } else {
        normalize_count(d, list, k - 1) + if normalizes(d, list[k - 1].0, list[k - 1].1) { 1nat } else { 0nat }
    }
}

/// What normalizing leaves of a terminator `e` of `pre`: when it normalizes,
/// the test is inverted (ordering operands swapped) and the branch names the
/// other successor; otherwise the branch is untouched.
pub open spec fn normalize_outcome(pre: &Funcdata, post: &Funcdata, e: (GraphBlockId, OpId)) -> bool {
    let (block, branch) = e;
    if normalizes(pre, block, branch) {
        let def = pre.vn(pre.opn(branch).inputs@[1]).def.unwrap();
        let other = first_other(pre.blk(block).successors@, resolved(pre, branch).unwrap(), 0).unwrap();
        let tested = pre.opn(def).inputs@;
        &&& post.opn(def).opcode == inverse_opcode(pre.opn(def).opcode)
        &&& post.opn(def).inputs@ == (if swaps_operands(pre.opn(def).opcode) && tested.len() >= 2 {
            tested.update(0, tested[1]).update(1, tested[0])
        } else {
            tested
        })
        &&& post.vn(post.opn(branch).inputs@[0]).offset == pre.blk(other).start
        &&& post.opn(branch).inputs@.len() == 2
        &&& post.opn(branch).inputs@[1] == pre.opn(branch).inputs@[1]
    } else {
        post.opn(branch) == pre.opn(branch)
    }
}

/// Every operation of `a` reads `c` in `b` exactly when it does in `a`.
pub open spec fn same_readers(a: &Funcdata, b: &Funcdata, c: VarnodeId) -> bool {
    forall|x: OpId| #[trigger] a.valid_op(x) ==> (b.opn(x).inputs@.contains(c) == a.opn(x).inputs@.contains(c))
}

/// Terminator `e` of `pre`, its condition's definition and the readers of
/// its condition are as they were in `pre`.
pub open spec fn untouched_candidate(pre: &Funcdata, d: &Funcdata, e: (GraphBlockId, OpId)) -> bool {
    &&& d.opn(e.1) == pre.opn(e.1)
    &&& pre.opn(e.1).inputs@.len() >= 2 ==> {
        let c = pre.opn(e.1).inputs@[1];
        &&& (pre.vn(c).def matches Some(df) ==> (d.opn(df) == pre.opn(df) || (d.opn(df).opcode == CBRANCH && pre.opn(
            df,
        ).opcode == CBRANCH)))
        &&& same_readers(pre, d, c)
    }
}

proof fn lemma_swap_contains(s: Seq<VarnodeId>, v: VarnodeId)
    requires
        s.len() >= 2,
    ensures
        s.update(0, s[1]).update(1, s[0]).contains(v) == s.contains(v),
{
    let t = s.update(0, s[1]).update(1, s[0]);
    if s.contains(v) {
        let k = choose|k: int| 0 <= k < s.len() && s[k] == v;
        if k == 0 {
            assert(t[1] == v);
        } else if k == 1 {
            assert(t[0] == v);
        } else {
            assert(t[k] == v);
        }
    }
    if t.contains(v) {
        let k = choose|k: int| 0 <= k < t.len() && t[k] == v;
        if k == 0 {
            assert(s[1] == v);
        } else if k == 1 {
            assert(s[0] == v);
        } else {
            assert(s[k] == v);
        }
    }
}

/// One normalizing step keeps what earlier steps established and leaves
/// the later terminators as they were.
proof fn lemma_normalize_step(
    pre: &Funcdata,
    before: &Funcdata,
    after: &Funcdata,
    list: Seq<(GraphBlockId, OpId)>,
    i: int,
    fired: bool,
)
    requires
        pre.wf(),
        before.wf(),
        after.wf(),
        list == conditional_list(pre),
        separate_conditions(pre, list),
        forall|k: int| 0 <= k < list.len() ==> #[trigger] conditional_terminator(pre, list[k]),
        0 <= i < list.len(),
        before.opv().len() == pre.opv().len(),
        after.opv().len() == pre.opv().len(),
        before.bls() == pre.bls(),
        after.bls() == before.bls(),
        before.vns().len() >= pre.vns().len(),
        forall|v: VarnodeId| #![trigger pre.vn(v)] pre.valid_vn(v) ==> same_but_readers(before.vn(v), pre.vn(v)),
        forall|v: VarnodeId| #![trigger before.vn(v)] before.valid_vn(v) ==> same_but_readers(after.vn(v), before.vn(v)),
        forall|j: int| i <= j < list.len() ==> #[trigger] untouched_candidate(pre, before, list[j]),
        forall|k: int| 0 <= k < i ==> #[trigger] normalize_outcome(pre, before, list[k]),
        fired == normalizes(before, list[i].0, list[i].1),
        normalizes(before, list[i].0, list[i].1) == normalizes(pre, list[i].0, list[i].1),
        resolved(before, list[i].1) == resolved(pre, list[i].1),
        normalizes(pre, list[i].0, list[i].1) ==> before.opn(pre.vn(pre.opn(list[i].1).inputs@[1]).def.unwrap()) == pre.opn(
            pre.vn(pre.opn(list[i].1).inputs@[1]).def.unwrap(),
        ),
        !fired ==> after.same_graph(before),
        fired ==> normalized_by(before, after, list[i].0, list[i].1),
    ensures
        forall|j: int| i + 1 <= j < list.len() ==> #[trigger] untouched_candidate(pre, after, list[j]),
        forall|k: int| 0 <= k < i + 1 ==> #[trigger] normalize_outcome(pre, after, list[k]),
{
    let (block, branch) = list[i];
    assert(conditional_terminator(pre, list[i]));
    assert(untouched_candidate(pre, before, list[i]));
    assert(before.opn(branch) == pre.opn(branch));
    assert(pre.op_wf(branch));
    if fired {
        let c = pre.opn(branch).inputs@[1];
        assert(pre.valid_vn(c));
        assert(same_but_readers(before.vn(c), pre.vn(c)));
        assert(pre.vn_wf(c));
        let def = pre.vn(c).def.unwrap();
        assert(before.vn(before.opn(branch).inputs@[1]).def.unwrap() == def);
        assert(pre.valid_op(def));
        assert(pre.op_wf(def));
        assert(invertible(pre, pre.opn(def)));
        // The step's own outcome.
        assert(normalize_outcome(pre, after, list[i]));
        // Earlier outcomes survive.
        assert forall|k: int| 0 <= k < i + 1 implies #[trigger] normalize_outcome(pre, after, list[k]) by {
            if k < i {
                let (bk, ok) = list[k];
                assert(conditional_terminator(pre, list[k]));
                assert(ok != branch) by {
                    if ok == branch {
                        assert(pre.opn(list[i].1).inputs@.len() >= 2);
                        assert(pre.opn(list[k].1).inputs@[1] == c);
                        assert(pre.opn(list[k].1).inputs@.contains(c));
                    }
                }
                assert(ok != def);
                assert(after.opn(ok) == before.opn(ok));
                assert(normalize_outcome(pre, before, list[k]));
                if normalizes(pre, bk, ok) {
                    let ck = pre.opn(ok).inputs@[1];
                    assert(pre.op_wf(ok));
                    assert(pre.valid_vn(ck));
                    assert(pre.vn_wf(ck));
                    let dk = pre.vn(ck).def.unwrap();
                    assert(pre.valid_op(dk));
                    assert(invertible(pre, pre.opn(dk)));
                    assert(dk != branch);
                    assert(dk != def) by {
                        if dk == def {
                            assert(pre.opn(def).output == Some(c));
                            assert(pre.opn(dk).output == Some(ck));
                            assert(pre.opn(list[i].1).inputs@[1] == ck);
                            assert(pre.opn(list[i].1).inputs@.contains(ck));
                        }
                    }
                    assert(after.opn(dk) == before.opn(dk));
                    assert(normalize_outcome(pre, before, list[k]));
                    assert(before.valid_op(ok));
                    assert(before.op_wf(ok));
                    assert(before.opn(ok).inputs@.len() == 2);
                    let x = before.opn(ok).inputs@[0];
                    assert(x.0 < before.vns().len());
                    assert(before.valid_vn(x));
                    assert(same_but_readers(after.vn(x), before.vn(x)));
                }
            }
        }
        // Later terminators stay untouched.
        assert forall|j: int| i + 1 <= j < list.len() implies #[trigger] untouched_candidate(pre, after, list[j]) by {
            let (bj, oj) = list[j];
            assert(conditional_terminator(pre, list[j]));
            assert(untouched_candidate(pre, before, list[j]));
            assert(oj != branch) by {
                if oj == branch {
                    assert(pre.opn(list[j].1).inputs@[1] == c);
                    assert(pre.opn(list[i].1).inputs@.contains(c));
                }
            }
            assert(oj != def);
            assert(after.opn(oj) == before.opn(oj));
            if pre.opn(oj).inputs@.len() >= 2 {
                let cj = pre.opn(oj).inputs@[1];
                assert(pre.op_wf(oj));
                assert(pre.valid_vn(cj));
                assert(!pre.opn(list[i].1).inputs@.contains(cj));
                assert(cj != c) by {
                    if cj == c {
                        assert(pre.opn(list[i].1).inputs@[1] == cj);
                    }
                }
                if let Some(df) = pre.vn(cj).def {
                    assert(pre.vn_wf(cj));
                    assert(df != def) by {
                        if df == def {
                            assert(pre.opn(def).output == Some(c));
                            assert(pre.opn(df).output == Some(cj));
                        }
                    }
                    if df != branch {
                        assert(after.opn(df) == before.opn(df));
                    }
                }
                assert forall|x: OpId| #[trigger] pre.valid_op(x) implies (after.opn(x).inputs@.contains(cj) == pre.opn(
                    x,
                ).inputs@.contains(cj)) by {
                    assert(same_readers(pre, before, cj));
                    assert(before.opn(x).inputs@.contains(cj) == pre.opn(x).inputs@.contains(cj));
                    if x == def {
                        let tested = before.opn(def).inputs@;
                        if swaps_operands(before.opn(def).opcode) && tested.len() >= 2 {
                            lemma_swap_contains(tested, cj);
                        }
                    } else if x == branch {
                        let ins = after.opn(branch).inputs@;
                        assert(ins.len() == 2);
                        assert(ins[1] == c);
                        assert(pre.opn(branch).inputs@[0] != cj) by {
                            assert(pre.opn(branch).inputs@.contains(pre.opn(branch).inputs@[0]));
                        }
                        assert(ins[0] != cj);
                        assert(!ins.contains(cj)) by {
                            if ins.contains(cj) {
                                let k = choose|k: int| 0 <= k < ins.len() && ins[k] == cj;
                                assert(k == 0 || k == 1);
                            }
                        }
                    } else {
                        assert(after.opn(x) == before.opn(x));
                    }
                }
            }
        }
    } else {
        assert(after.opv() == before.opv());
        assert forall|k: int| 0 <= k < i + 1 implies #[trigger] normalize_outcome(pre, after, list[k]) by {
            if k < i {
                assert(conditional_terminator(pre, list[k]));
                assert(normalize_outcome(pre, before, list[k]));
                assert(after.vns() == before.vns());
            }
        }
        assert forall|j: int| i + 1 <= j < list.len() implies #[trigger] untouched_candidate(pre, after, list[j]) by {
            assert(untouched_candidate(pre, before, list[j]));
        }
    }
}

/// A value's readers are exactly `o` when every operation reads it exactly
/// when it is `o`.
proof fn lemma_sole_reader(d: &Funcdata, v: VarnodeId, o: OpId)
    requires
        d.wf(),
        d.valid_vn(v),
        d.valid_op(o),
    ensures
        (d.vn(v).descendants@ == seq![o]) == (forall|x: OpId| #[trigger] d.valid_op(x) ==> (d.opn(x).inputs@.contains(v) == (x
            == o))),
{
    assert(d.vn_wf(v));
    let desc = d.vn(v).descendants@;
    if desc == seq![o] {
        assert forall|x: OpId| #[trigger] d.valid_op(x) implies (d.opn(x).inputs@.contains(v) == (x == o)) by {
            assert(d.read_by(v, x) == d.reads(x, v));
            if x == o {
                assert(desc[0] == o);
            }
        }
    }
    if forall|x: OpId| #[trigger] d.valid_op(x) ==> (d.opn(x).inputs@.contains(v) == (x == o)) {
        assert(d.read_by(v, o) == d.reads(o, v));
        assert(desc.contains(o));
        assert forall|k: int| 0 <= k < desc.len() implies desc[k] == o by {
            let x = desc[k];
            assert(x.0 < d.opv().len());
            assert(d.valid_op(x));
            assert(desc.contains(x));
            assert(d.read_by(v, x));
            assert(d.read_by(v, x) == d.reads(x, v));
            assert(d.opn(x).inputs@.contains(v) == (x == o));
        }
        if desc.len() >= 2 {
            assert(desc[0] == o && desc[1] == o);
        }
        assert(desc =~= seq![o]);
    }
}

/// Normalizing is decided the same way in a graph where the terminator,
/// its condition's definition and the readers of its condition are as they
/// were.
proof fn lemma_normalizes_frame(a: &Funcdata, b: &Funcdata, block: GraphBlockId, branch: OpId)
    requires
        a.wf(),
        b.wf(),
        a.valid_op(branch),
        a.valid_block(block),
        b.bls() == a.bls(),
        b.opv().len() == a.opv().len(),
        b.vns().len() >= a.vns().len(),
        forall|v: VarnodeId| #![trigger a.vn(v)] a.valid_vn(v) ==> same_but_readers(b.vn(v), a.vn(v)),
        untouched_candidate(a, b, (block, branch)),
    ensures
        normalizes(b, block, branch) == normalizes(a, block, branch),
        resolved(b, branch) == resolved(a, branch),
        normalizes(a, block, branch) ==> b.opn(a.vn(a.opn(branch).inputs@[1]).def.unwrap()) == a.opn(
            a.vn(a.opn(branch).inputs@[1]).def.unwrap(),
        ),
{
    assert(a.op_wf(branch));
    let r = lemma_resolves_exists(a, branch);
    if a.opn(branch).inputs@.len() > 0 {
        let x = a.opn(branch).inputs@[0];
        assert(a.valid_vn(x));
        assert(same_but_readers(b.vn(x), a.vn(x)));
    }
    assert(resolves_to(b, branch, r));
    lemma_resolved(a, branch, r);
    lemma_resolved(b, branch, r);
    if a.opn(branch).inputs@.len() >= 2 {
        let c = a.opn(branch).inputs@[1];
        assert(a.valid_vn(c));
        assert(same_but_readers(b.vn(c), a.vn(c)));
        lemma_sole_reader(a, c, branch);
        lemma_sole_reader(b, c, branch);
        assert forall|x: OpId| #[trigger] b.valid_op(x) implies (b.opn(x).inputs@.contains(c) == a.opn(x).inputs@.contains(c)) by {
            assert(a.valid_op(x));
        }
        if forall|x: OpId| #[trigger] a.valid_op(x) ==> (a.opn(x).inputs@.contains(c) == (x == branch)) {
            assert forall|x: OpId| #[trigger] b.valid_op(x) implies (b.opn(x).inputs@.contains(c) == (x == branch)) by {
                assert(a.valid_op(x));
            }
        }
        if forall|x: OpId| #[trigger] b.valid_op(x) ==> (b.opn(x).inputs@.contains(c) == (x == branch)) {
            assert forall|x: OpId| #[trigger] a.valid_op(x) implies (a.opn(x).inputs@.contains(c) == (x == branch)) by {
                assert(b.valid_op(x));
            }
        }
        assert(a.vn_wf(c));
        if let Some(df) = a.vn(c).def {
            assert(a.op_wf(df));
            let oa = a.opn(df);
            if b.opn(df) != oa {
                assert(!invertible(a, oa));
                assert(!invertible(b, b.opn(df)));
            } else {
                if oa.inputs@.len() > 0 {
                    assert(oa.inputs@[0].0 < a.vns().len());
                    assert(same_but_readers(b.vn(oa.inputs@[0]), a.vn(oa.inputs@[0])));
                }
                if oa.inputs@.len() > 1 {
                    assert(oa.inputs@[1].0 < a.vns().len());
                    assert(same_but_readers(b.vn(oa.inputs@[1]), a.vn(oa.inputs@[1])));
                }
                assert(invertible(b, b.opn(df)) == invertible(a, oa));
            }
        }
    }
}


} // verus!
