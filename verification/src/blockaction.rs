//! Control-flow block transformations.
//!
//! The graph holds no structured tree of blocks, so these actions work on
//! what [`Funcdata`] represents: basic-block edges and p-code operations.

use vstd::prelude::*;

use crate::action::{Action, arenas_grow};
use crate::branchaction::{conditional_terminator, conditional_terminators, last_live_op, terminator};
use crate::graph::{Funcdata, GraphBlock, GraphBlockId, OpId, SeqNum, VarnodeId, add_unique, drop_all, first_index_or,
    lemma_first_index_block, position_of_block, vns_below};
use crate::pcode::{BRANCH, CBRANCH, COPY, MULTIEQUAL, RETURN};

verus! {

/// The first block, scanning the arena from slot `i`, that is live and
/// starts at `address`.
pub open spec fn first_start_from(bls: Seq<GraphBlock>, address: u64, i: int) -> Option<GraphBlockId>
    decreases bls.len() - i,
{
    if i < 0 || i >= bls.len() {
        None
    } else if !bls[i].dead && bls[i].start == address {
        Some(GraphBlockId(i as u32))
    } else {
        first_start_from(bls, address, i + 1)
    }
}

/// The block a branch names by address: the first live block starting at
/// the offset of its destination operand.
pub open spec fn jump_target(d: &Funcdata, branch: OpId) -> Option<GraphBlockId> {
    if d.opn(branch).inputs@.len() == 0 {
        None
    } else {
        first_start_from(d.bls(), d.vn(d.opn(branch).inputs@[0]).offset, 0)
    }
}

proof fn lemma_first_start_valid(bls: Seq<GraphBlock>, address: u64, i: int)
    requires
        0 <= i,
        bls.len() <= u32::MAX,
    ensures
        first_start_from(bls, address, i) matches Some(b) ==> i <= b.0 < bls.len() && !bls[b.0 as int].dead
            && bls[b.0 as int].start == address,
    decreases bls.len() - i,
{
    if i < bls.len() && !(!bls[i].dead && bls[i].start == address) {
        lemma_first_start_valid(bls, address, i + 1);
    }
}

/// The block a branch names by address.
fn branch_target(data: &Funcdata, branch: OpId) -> (r: Option<GraphBlockId>)
    requires
        data.wf(),
        data.valid_op(branch),
    ensures
        r == jump_target(data, branch),
        r matches Some(b) ==> data.valid_block(b) && !data.blk(b).dead,
{
    let operation = data.op(branch);
    if operation.inputs.len() == 0 {
        return None;
    }
    proof {
        assert(data.op_wf(branch));
    }
    let address = data.varnode(operation.inputs[0]).offset;
    let count = data.block_arena_len();
    proof {
        lemma_first_start_valid(data.bls(), address, 0);
    }
    let mut i: usize = 0;
    while i < count
        invariant
            data.wf(),
            count == data.bls().len(),
            i <= count,
            first_start_from(data.bls(), address, 0) == first_start_from(data.bls(), address, i as int),
            data.opn(branch).inputs@.len() > 0,
            address == data.vn(data.opn(branch).inputs@[0]).offset,
        decreases count - i,
    {
        let block = data.block(GraphBlockId(i as u32));
        proof {
            assert((i as u32) as int == i as int);
            assert(*block == data.bls()[i as int]);
        }
        if !block.dead && block.start == address {
            assert(first_start_from(data.bls(), address, i as int) == Some(GraphBlockId(i as u32)));
            return Some(GraphBlockId(i as u32));
        }
        i += 1;
    }
    None
}

/// One leading merge of an exit block, with the operands the two joined
/// predecessors contribute to it.
#[derive(Clone, Copy, Debug)]
pub struct PhiPlan {
    pub op: OpId,
    pub left: VarnodeId,
    pub right: VarnodeId,
    pub size: u32,
    pub seq: SeqNum,
}

/// The merges that lead `ops` from position `i`, each with its operands in
/// slots `left` and `right`; `None` when one of them lacks either slot or a
/// result.
pub open spec fn phi_plans(d: &Funcdata, ops: Seq<OpId>, i: int, left: int, right: int) -> Option<Seq<PhiPlan>>
    decreases ops.len() - i,
{
    if i < 0 || i >= ops.len() || d.opn(ops[i]).dead || d.opn(ops[i]).opcode != MULTIEQUAL {
        Some(Seq::empty())
    } else {
        let o = d.opn(ops[i]);
        if left < 0 || right < 0 || left >= o.inputs@.len() || right >= o.inputs@.len() || o.output is None {
            None
        } else {
            match phi_plans(d, ops, i + 1, left, right) {
                None => None,
                Some(rest) => Some(
                    seq![PhiPlan {
                        op: ops[i],
                        left: o.inputs@[left],
                        right: o.inputs@[right],
                        size: d.vn(o.output.unwrap()).size,
                        seq: o.seq,
                    }] + rest,
                ),
            }
        }
    }
}

/// Whether planning the merges of `ops` from `i` succeeds does not depend
/// on the order of the two slots.
proof fn lemma_phi_plans_symmetric(d: &Funcdata, ops: Seq<OpId>, i: int, left: int, right: int)
    ensures
        phi_plans(d, ops, i, left, right) is Some <==> phi_plans(d, ops, i, right, left) is Some,
        phi_plans(d, ops, i, left, right) is Some ==> phi_plans(d, ops, i, left, right).unwrap().len() == phi_plans(
            d,
            ops,
            i,
            right,
            left,
        ).unwrap().len(),
    decreases ops.len() - i,
{
    if !(i < 0 || i >= ops.len() || d.opn(ops[i]).dead || d.opn(ops[i]).opcode != MULTIEQUAL) {
        lemma_phi_plans_symmetric(d, ops, i + 1, left, right);
    }
}

/// Every planned merge is a valid operation whose operands are valid values.
pub open spec fn plans_valid(d: &Funcdata, plans: Seq<PhiPlan>) -> bool {
    forall|k: int|
        0 <= k < plans.len() ==> {
            &&& d.valid_op((#[trigger] plans[k]).op)
            &&& d.valid_vn(plans[k].left)
            &&& d.valid_vn(plans[k].right)
        }
}

proof fn lemma_phi_plans_valid(d: &Funcdata, ops: Seq<OpId>, i: int, left: int, right: int)
    requires
        d.wf(),
        crate::graph::ops_below(ops, d.opv().len() as int),
        0 <= i,
    ensures
        phi_plans(d, ops, i, left, right) matches Some(p) ==> plans_valid(d, p) && p.len() <= ops.len(),
    decreases ops.len() - i,
{
    if !(i < 0 || i >= ops.len() || d.opn(ops[i]).dead || d.opn(ops[i]).opcode != MULTIEQUAL) {
        lemma_phi_plans_valid(d, ops, i + 1, left, right);
        let o = d.opn(ops[i]);
        if !(left < 0 || right < 0 || left >= o.inputs@.len() || right >= o.inputs@.len() || o.output is None) {
            if let Some(rest) = phi_plans(d, ops, i + 1, left, right) {
                assert(ops[i].0 < d.opv().len());
                assert(d.op_wf(ops[i]));
                assert(o.inputs@[left].0 < d.vns().len());
                assert(o.inputs@[right].0 < d.vns().len());
                let p = phi_plans(d, ops, i, left, right).unwrap();
                assert forall|k: int| 0 <= k < p.len() implies {
                    &&& d.valid_op((#[trigger] p[k]).op)
                    &&& d.valid_vn(p[k].left)
                    &&& d.valid_vn(p[k].right)
                } by {
                    if k > 0 {
                        assert(p[k] == rest[k - 1]);
                    }
                }
                lemma_phi_plans_len(d, ops, i + 1, left, right);
            }
        }
    }
}

proof fn lemma_phi_plans_len(d: &Funcdata, ops: Seq<OpId>, i: int, left: int, right: int)
    requires
        0 <= i,
    ensures
        phi_plans(d, ops, i, left, right) matches Some(p) ==> p.len() + i <= ops.len() || p.len() == 0,
    decreases ops.len() - i,
{
    if !(i < 0 || i >= ops.len() || d.opn(ops[i]).dead || d.opn(ops[i]).opcode != MULTIEQUAL) {
        lemma_phi_plans_len(d, ops, i + 1, left, right);
    }
}

/// Plans the leading merges of `exit`, reading the operands in slots
/// `left_index` and `right_index`.
fn leading_phi_plans(data: &Funcdata, exit: GraphBlockId, left_index: usize, right_index: usize) -> (r: Option<Vec<PhiPlan>>)
    requires
        data.wf(),
        data.valid_block(exit),
    ensures
        match r {
            Some(p) => phi_plans(data, data.blk(exit).ops@, 0, left_index as int, right_index as int) == Some(p@),
            None => phi_plans(data, data.blk(exit).ops@, 0, left_index as int, right_index as int) is None,
        },
{
    let ops = &data.block(exit).ops;
    proof {
        assert(data.block_wf(exit));
    }
    let mut plans: Vec<PhiPlan> = Vec::new();
    let mut i: usize = 0;
    while i < ops.len()
        invariant
            data.wf(),
            *ops == data.blk(exit).ops,
            crate::graph::ops_below(ops@, data.opv().len() as int),
            i <= ops@.len(),
            phi_plans(data, ops@, 0, left_index as int, right_index as int) == (match phi_plans(
                data,
                ops@,
                i as int,
                left_index as int,
                right_index as int,
            ) {
                None => None,
                Some(rest) => Some(plans@ + rest),
            }),
        decreases ops@.len() - i,
    {
        let id = ops[i];
        proof {
            assert(ops@[i as int].0 < data.opv().len());
        }
        if data.opcode_of(id) != Some(MULTIEQUAL) {
            proof {
                assert(plans@ + Seq::<PhiPlan>::empty() == plans@);
            }
            return Some(plans);
        }
        let operation = data.op(id);
        if left_index >= operation.inputs.len() || right_index >= operation.inputs.len() {
            return None;
        }
        let output = match operation.output {
            Some(v) => v,
            None => return None,
        };
        proof {
            assert(data.op_wf(id));
        }
        let plan = PhiPlan {
            op: id,
            left: operation.inputs[left_index],
            right: operation.inputs[right_index],
            size: data.varnode(output).size,
            seq: operation.seq,
        };
        let ghost before = plans@;
        plans.push(plan);
        proof {
            let rest = phi_plans(data, ops@, i + 1, left_index as int, right_index as int);
            if let Some(tail) = rest {
                assert(before + (seq![plan] + tail) == plans@ + tail);
            }
        }
        i += 1;
    }
    proof {
        assert(plans@ + Seq::<PhiPlan>::empty() == plans@);
    }
    Some(plans)
}

/// The shape two conditional blocks need for a join: one pair of distinct
/// exits in one order, one condition, and one branch destination that is
/// among the exits; both blocks are predecessors of both exits.
pub open spec fn join_shape(d: &Funcdata, b1: GraphBlockId, br1: OpId, b2: GraphBlockId, br2: OpId) -> bool {
    let s1 = d.blk(b1).successors@;
    let s2 = d.blk(b2).successors@;
    let o1 = d.opn(br1);
    let o2 = d.opn(br2);
    &&& b1 != b2
    &&& s1.len() == 2
    &&& s2.len() == 2
    &&& s1[0] != s1[1]
    &&& s1[0] == s2[0]
    &&& s1[1] == s2[1]
    &&& o1.inputs@.len() >= 2
    &&& o2.inputs@.len() >= 2
    &&& o1.inputs@[1] == o2.inputs@[1]
    &&& jump_target(d, br1) == jump_target(d, br2)
    &&& jump_target(d, br1) matches Some(t) && (t == s1[0] || t == s1[1])
    &&& d.blk(s1[0]).predecessors@.contains(b1)
    &&& d.blk(s1[0]).predecessors@.contains(b2)
    &&& d.blk(s1[1]).predecessors@.contains(b1)
    &&& d.blk(s1[1]).predecessors@.contains(b2)
}

/// The merges of `exit` with the operands `b1` and `b2` contribute.
pub open spec fn exit_plans(d: &Funcdata, exit: GraphBlockId, b1: GraphBlockId, b2: GraphBlockId) -> Option<Seq<PhiPlan>> {
    let preds = d.blk(exit).predecessors@;
    phi_plans(d, d.blk(exit).ops@, 0, first_index_or(preds, b1, 0), first_index_or(preds, b2, 0))
}

/// The blocks ending in `br1` and `br2` can be joined: they have the join
/// shape and the leading merges of both exits can be planned.
#[verifier::opaque]
pub open spec fn joinable(d: &Funcdata, b1: GraphBlockId, br1: OpId, b2: GraphBlockId, br2: OpId) -> bool {
    &&& join_shape(d, b1, br1, b2, br2)
    &&& exit_plans(d, d.blk(b1).successors@[0], b1, b2) is Some
    &&& exit_plans(d, d.blk(b1).successors@[1], b1, b2) is Some
}

/// The arenas can take the join of `b1` and `b2`: a block, a merge and a
/// value per planned merge, and the new branch.
#[verifier::opaque]
pub open spec fn join_room(d: &Funcdata, b1: GraphBlockId, b2: GraphBlockId) -> bool {
    let k = exit_plans(d, d.blk(b1).successors@[0], b1, b2).unwrap().len() + exit_plans(
        d,
        d.blk(b1).successors@[1],
        b1,
        b2,
    ).unwrap().len();
    &&& d.bls().len() + 1 < u32::MAX
    &&& d.vns().len() + k < u32::MAX
    &&& d.opv().len() + k + 1 < u32::MAX
}

/// Everything a join of two blocks needs, gathered before the graph changes.
pub struct JoinPlan {
    pub exita: GraphBlockId,
    pub exitb: GraphBlockId,
    pub condition: VarnodeId,
    pub target: VarnodeId,
    pub a_phis: Vec<PhiPlan>,
    pub b_phis: Vec<PhiPlan>,
}

/// The plan `join_plan` gathers for a joinable pair.
pub open spec fn plan_for(d: &Funcdata, b1: GraphBlockId, br1: OpId, b2: GraphBlockId, p: JoinPlan) -> bool {
    &&& p.exita == d.blk(b1).successors@[0]
    &&& p.exitb == d.blk(b1).successors@[1]
    &&& p.condition == d.opn(br1).inputs@[1]
    &&& p.target == d.opn(br1).inputs@[0]
    &&& exit_plans(d, p.exita, b1, b2) == Some(p.a_phis@)
    &&& exit_plans(d, p.exitb, b1, b2) == Some(p.b_phis@)
}

/// Checks whether the blocks ending in `br1` and `br2` can be joined, and
/// gathers what the join needs when they can.
fn join_plan(data: &Funcdata, b1: GraphBlockId, br1: OpId, b2: GraphBlockId, br2: OpId) -> (r: Option<JoinPlan>)
    requires
        data.wf(),
        data.valid_block(b1),
        data.valid_block(b2),
        data.valid_op(br1),
        data.valid_op(br2),
    ensures
        match r {
            Some(p) => joinable(data, b1, br1, b2, br2) && plan_for(data, b1, br1, b2, p),
            None => !joinable(data, b1, br1, b2, br2),
        },
{
    reveal(joinable);
    if b1 == b2 {
        return None;
    }
    let first = data.block(b1);
    let second = data.block(b2);
    if first.successors.len() != 2 || second.successors.len() != 2 || first.successors[0] == first.successors[1]
        || first.successors[0] != second.successors[0] || first.successors[1] != second.successors[1] {
        return None;
    }
    let first_op = data.op(br1);
    let second_op = data.op(br2);
    if first_op.inputs.len() < 2 || second_op.inputs.len() < 2 || first_op.inputs[1] != second_op.inputs[1] {
        return None;
    }
    let target = first_op.inputs[0];
    let first_target = branch_target(data, br1);
    let second_target = branch_target(data, br2);
    if first_target != second_target {
        return None;
    }
    match first_target {
        Some(t) => {
            if !(t == first.successors[0] || t == first.successors[1]) {
                return None;
            }
        },
        None => return None,
    }
    let exita = first.successors[0];
    let exitb = first.successors[1];
    let condition = first_op.inputs[1];
    proof {
        assert(data.block_wf(b1));
        assert(data.blk(b1).successors@[0].0 < data.bls().len());
        assert(data.blk(b1).successors@[1].0 < data.bls().len());
    }
    let a_in1 = position_of_block(&data.block(exita).predecessors, b1);
    let a_in2 = position_of_block(&data.block(exita).predecessors, b2);
    let b_in1 = position_of_block(&data.block(exitb).predecessors, b1);
    let b_in2 = position_of_block(&data.block(exitb).predecessors, b2);
    proof {
        lemma_first_index_block(data.blk(exita).predecessors@, b1, a_in1);
        lemma_first_index_block(data.blk(exita).predecessors@, b2, a_in2);
        lemma_first_index_block(data.blk(exitb).predecessors@, b1, b_in1);
        lemma_first_index_block(data.blk(exitb).predecessors@, b2, b_in2);
    }
    let (a_in1, a_in2, b_in1, b_in2) = match (a_in1, a_in2, b_in1, b_in2) {
        (Some(w), Some(x), Some(y), Some(z)) => (w, x, y, z),
        _ => return None,
    };
    let a_phis = match leading_phi_plans(data, exita, a_in1, a_in2) {
        Some(p) => p,
        None => return None,
    };
    let b_phis = match leading_phi_plans(data, exitb, b_in1, b_in2) {
        Some(p) => p,
        None => return None,
    };
    Some(JoinPlan { exita, exitb, condition, target, a_phis, b_phis })
}

/// Joinability does not depend on which of the two blocks comes first.
proof fn lemma_joinable_symmetric(d: &Funcdata, b1: GraphBlockId, br1: OpId, b2: GraphBlockId, br2: OpId)
    ensures
        joinable(d, b1, br1, b2, br2) ==> joinable(d, b2, br2, b1, br1),
        joinable(d, b1, br1, b2, br2) ==> (join_room(d, b1, b2) == join_room(d, b2, b1)),
{
    reveal(joinable);
    reveal(join_room);
    if joinable(d, b1, br1, b2, br2) {
        let s = d.blk(b1).successors@;
        let t = d.blk(b2).successors@;
        assert(t[0] == s[0] && t[1] == s[1]);
        assert(join_shape(d, b2, br2, b1, br1));
        let pa = d.blk(s[0]).predecessors@;
        let pb = d.blk(s[1]).predecessors@;
        let ia1 = first_index_or(pa, b1, 0);
        let ia2 = first_index_or(pa, b2, 0);
        let ib1 = first_index_or(pb, b1, 0);
        let ib2 = first_index_or(pb, b2, 0);
        lemma_phi_plans_symmetric(d, d.blk(s[0]).ops@, 0, ia1, ia2);
        lemma_phi_plans_symmetric(d, d.blk(s[1]).ops@, 0, ib1, ib2);
        assert(exit_plans(d, s[0], b1, b2) == phi_plans(d, d.blk(s[0]).ops@, 0, ia1, ia2));
        assert(exit_plans(d, s[0], b2, b1) == phi_plans(d, d.blk(s[0]).ops@, 0, ia2, ia1));
        assert(exit_plans(d, s[1], b1, b2) == phi_plans(d, d.blk(s[1]).ops@, 0, ib1, ib2));
        assert(exit_plans(d, s[1], b2, b1) == phi_plans(d, d.blk(s[1]).ops@, 0, ib2, ib1));
    }
}

/// 1 for a block with exactly two successors, else 0.
pub open spec fn two_way(b: GraphBlock) -> nat {
    if b.successors@.len() == 2 {
        1
    } else {
        0
    }
}

/// The number of blocks with exactly two successors.
pub open spec fn two_way_count(bls: Seq<GraphBlock>) -> nat
    decreases bls.len(),
{
    if bls.len() == 0 {
        0
    } else {
        two_way_count(bls.drop_last()) + two_way(bls.last())
    }
}

proof fn lemma_two_way_bound(s: Seq<GraphBlock>)
    ensures
        two_way_count(s) <= s.len(),
    decreases s.len(),
{
    if s.len() > 0 {
        lemma_two_way_bound(s.drop_last());
    }
}

proof fn lemma_two_way_update(s: Seq<GraphBlock>, i: int, x: GraphBlock)
    requires
        0 <= i < s.len(),
    ensures
        two_way_count(s.update(i, x)) + two_way(s[i]) == two_way_count(s) + two_way(x),
    decreases s.len(),
{
    let t = s.update(i, x);
    if i == s.len() - 1 {
        assert(t.drop_last() =~= s.drop_last());
    } else {
        lemma_two_way_update(s.drop_last(), i, x);
        assert(t.drop_last() =~= s.drop_last().update(i, x));
    }
}

proof fn lemma_two_way_same(s: Seq<GraphBlock>, t: Seq<GraphBlock>)
    requires
        s.len() == t.len(),
        forall|i: int| 0 <= i < s.len() ==> two_way(#[trigger] s[i]) == two_way(t[i]),
    ensures
        two_way_count(s) == two_way_count(t),
    decreases s.len(),
{
    if s.len() > 0 {
        lemma_two_way_same(s.drop_last(), t.drop_last());
    }
}

/// A join turns two two-way blocks into one-way blocks and adds one two-way
/// block: the count drops by one.
proof fn lemma_join_count(pre: Seq<GraphBlock>, post: Seq<GraphBlock>, b1: int, b2: int)
    requires
        post.len() == pre.len() + 1,
        0 <= b1 < pre.len(),
        0 <= b2 < pre.len(),
        b1 != b2,
        two_way(pre[b1]) == 1,
        two_way(pre[b2]) == 1,
        two_way(post[b1]) == 0,
        two_way(post[b2]) == 0,
        two_way(post[pre.len() as int]) == 1,
        forall|i: int| 0 <= i < pre.len() && i != b1 && i != b2 ==> two_way(#[trigger] post[i]) == two_way(pre[i]),
    ensures
        two_way_count(post) + 1 == two_way_count(pre),
{
    let m1 = pre.update(b1, post[b1]);
    let m2 = m1.update(b2, post[b2]);
    let m3 = m2.push(post[pre.len() as int]);
    lemma_two_way_update(pre, b1, post[b1]);
    lemma_two_way_update(m1, b2, post[b2]);
    assert(m3.drop_last() =~= m2);
    assert forall|i: int| 0 <= i < m3.len() implies two_way(#[trigger] m3[i]) == two_way(post[i]) by {
        if i < pre.len() && i != b1 && i != b2 {
            assert(m3[i] == pre[i]);
        }
    }
    lemma_two_way_same(m3, post);
}

proof fn lemma_drop_pair(a: GraphBlockId, b: GraphBlockId)
    requires
        a != b,
    ensures
        crate::graph::drop_all(seq![a, b], a) == seq![b],
        crate::graph::drop_all(seq![b], b) == Seq::<GraphBlockId>::empty(),
{
    reveal_with_fuel(crate::graph::drop_all, 3);
    assert(seq![a, b].drop_last() =~= seq![a]);
    assert(seq![a].drop_last() =~= Seq::<GraphBlockId>::empty());
    assert(seq![b].drop_last() =~= Seq::<GraphBlockId>::empty());
    assert(crate::graph::drop_all(seq![a], a) == Seq::<GraphBlockId>::empty());
    assert(Seq::<GraphBlockId>::empty().push(b) =~= seq![b]);
}

/// The `k`-th merge of a join, counting the first exit's merges first.
pub open spec fn plan_at(a: Seq<PhiPlan>, b: Seq<PhiPlan>, k: int) -> PhiPlan {
    if k < a.len() {
        a[k]
    } else {
        b[k - a.len()]
    }
}

fn plan_at_exec(a: &Vec<PhiPlan>, b: &Vec<PhiPlan>, k: usize) -> (r: PhiPlan)
    requires
        k < a@.len() + b@.len(),
    ensures
        r == plan_at(a@, b@, k as int),
{
    if k < a.len() {
        a[k]
    } else {
        b[k - a.len()]
    }
}

/// The value made for the last merge before position `j`, and after `k`,
/// whose operation is `target`; the one made for the `k`-th merge when there
/// is none.
pub open spec fn merged_from(a: Seq<PhiPlan>, b: Seq<PhiPlan>, values: Seq<VarnodeId>, target: OpId, k: int, j: int) -> VarnodeId
    decreases j - k,
{
    if j <= k + 1 {
        values[k]
    } else if plan_at(a, b, j - 1).op == target {
        values[j - 1]
    } else {
        merged_from(a, b, values, target, k, j - 1)
    }
}

proof fn lemma_merged_from_in(a: Seq<PhiPlan>, b: Seq<PhiPlan>, values: Seq<VarnodeId>, target: OpId, k: int, j: int)
    requires
        0 <= k < j <= values.len(),
    ensures
        exists|i: int| k <= i < j && merged_from(a, b, values, target, k, j) == values[i],
    decreases j - k,
{
    if j > k + 1 && plan_at(a, b, j - 1).op != target {
        lemma_merged_from_in(a, b, values, target, k, j - 1);
    } else if j > k + 1 {
        assert(merged_from(a, b, values, target, k, j) == values[j - 1]);
    } else {
        assert(merged_from(a, b, values, target, k, j) == values[k]);
    }
}

/// The value merged for the operation of the `k`-th merge: the one made for
/// its last occurrence among all the merges.
pub open spec fn merged_for(a: Seq<PhiPlan>, b: Seq<PhiPlan>, values: Seq<VarnodeId>, k: int) -> VarnodeId {
    merged_from(a, b, values, plan_at(a, b, k).op, k, (a.len() + b.len()) as int)
}

/// The operands that the first `n` merges add to operation `o`, in order.
pub open spec fn appended_for(a: Seq<PhiPlan>, b: Seq<PhiPlan>, values: Seq<VarnodeId>, o: OpId, n: int) -> Seq<VarnodeId>
    decreases n,
{
    if n <= 0 {
        Seq::empty()
    } else if plan_at(a, b, n - 1).op == o {
        appended_for(a, b, values, o, n - 1).push(merged_for(a, b, values, n - 1))
    } else {
        appended_for(a, b, values, o, n - 1)
    }
}

/// The value merged for the operation of the `k`-th merge: the one made for
/// its last occurrence among the first `n` merges.
fn merged_value(a: &Vec<PhiPlan>, b: &Vec<PhiPlan>, values: &Vec<VarnodeId>, k: usize) -> (r: VarnodeId)
    requires
        k < a@.len() + b@.len(),
        a@.len() + b@.len() <= usize::MAX,
        values@.len() == a@.len() + b@.len(),
    ensures
        r == merged_for(a@, b@, values@, k as int),
        exists|j: int| k <= j < values@.len() && r == values@[j],
{
    let total = a.len() + b.len();
    let target = plan_at_exec(a, b, k).op;
    proof {
        lemma_merged_from_in(a@, b@, values@, target, k as int, total as int);
    }
    let mut j: usize = total;
    while j > k + 1
        invariant
            k < j <= total,
            total == a@.len() + b@.len(),
            values@.len() == total,
            target == plan_at(a@, b@, k as int).op,
            merged_for(a@, b@, values@, k as int) == merged_from(a@, b@, values@, target, k as int, j as int),
        decreases j,
    {
        j -= 1;
        if plan_at_exec(a, b, j).op == target {
            return values[j];
        }
    }
    values[k]
}

/// Every successor list is unchanged from `a` to `b`.
pub open spec fn same_successors(a: &Funcdata, b: &Funcdata) -> bool {
    &&& a.bls().len() == b.bls().len()
    &&& forall|x: GraphBlockId| #![trigger b.blk(x)] b.valid_block(x) ==> b.blk(x).successors == a.blk(x).successors
}

/// Creates, at the end of `join`, a merge of the two operands of every
/// planned merge whose operands differ; returns for each planned merge the
/// value standing for it: its single operand, or the new merge's result.
fn make_merges(data: &mut Funcdata, join: GraphBlockId, a: &Vec<PhiPlan>, b: &Vec<PhiPlan>) -> (values: Vec<VarnodeId>)
    requires
        old(data).wf(),
        old(data).valid_block(join),
        plans_valid(old(data), a@),
        plans_valid(old(data), b@),
        old(data).vns().len() + a@.len() + b@.len() < u32::MAX,
        old(data).opv().len() + a@.len() + b@.len() + 1 < u32::MAX,
    ensures
        final(data).wf(),
        same_successors(&*old(data), &*final(data)),
        old(data).vns().len() <= final(data).vns().len() <= old(data).vns().len() + a@.len() + b@.len(),
        old(data).opv().len() <= final(data).opv().len() <= old(data).opv().len() + a@.len() + b@.len(),
        values@.len() == a@.len() + b@.len(),
        forall|j: int| 0 <= j < values@.len() ==> final(data).valid_vn(#[trigger] values@[j]),
        forall|x: GraphBlockId| #![trigger final(data).blk(x)] final(data).valid_block(x) && x != join ==> final(data).blk(x).ops == old(data).blk(x).ops,
        forall|o: OpId| #![trigger final(data).opn(o)] old(data).valid_op(o) ==> final(data).opn(o).parent == old(data).opn(o).parent,
{
    let ghost pre = *data;
    let total = a.len() + b.len();
    let mut values: Vec<VarnodeId> = Vec::new();
    let mut k: usize = 0;
    while k < total
        invariant
            data.wf(),
            total == a@.len() + b@.len(),
            plans_valid(&pre, a@),
            plans_valid(&pre, b@),
            data.valid_block(join),
            same_successors(&pre, data),
            pre.vns().len() <= data.vns().len() <= pre.vns().len() + k,
            pre.opv().len() <= data.opv().len() <= pre.opv().len() + k,
            pre.vns().len() + total < u32::MAX,
            pre.opv().len() + total + 1 < u32::MAX,
            k <= total,
            values@.len() == k,
            forall|j: int| 0 <= j < k ==> data.valid_vn(#[trigger] values@[j]),
            forall|x: GraphBlockId| #![trigger data.blk(x)] data.valid_block(x) && x != join ==> data.blk(x).ops == pre.blk(x).ops,
            forall|o: OpId| #![trigger data.opn(o)] pre.valid_op(o) ==> data.opn(o).parent == pre.opn(o).parent,
        decreases total - k,
    {
        let p = plan_at_exec(a, b, k);
        proof {
            if k < a@.len() {
                assert(a@[k as int] == p);
            } else {
                assert(b@[k - a@.len()] == p);
            }
        }
        let ghost before = *data;
        let value = if p.left == p.right {
            p.left
        } else {
            let inputs = vec![p.left, p.right];
            proof {
                assert(inputs@ =~= seq![p.left, p.right]);
                assert forall|m: int| 0 <= m < inputs@.len() implies (#[trigger] inputs@[m]).0 < data.vns().len() by {}
            }
            let merge = data.new_op(MULTIEQUAL, p.seq, inputs);
            let ghost m1 = *data;
            let output = data.new_unique(p.size);
            data.op_set_output(merge, Some(output));
            data.op_insert_end(merge, join);
            proof {
                assert forall|o: OpId| #![trigger data.opn(o)] pre.valid_op(o) implies data.opn(o).parent == pre.opn(o).parent by {
                    assert(m1.opv().take(before.opv().len() as int)[o.0 as int] == m1.opv()[o.0 as int]);
                    assert(o != merge);
                    assert(before.opn(o).parent == pre.opn(o).parent);
                }
                assert forall|x: GraphBlockId| #![trigger data.blk(x)] data.valid_block(x) implies data.blk(x).successors
                    == pre.blk(x).successors by {
                    assert(before.blk(x).successors == pre.blk(x).successors);
                }
                assert forall|x: GraphBlockId| #![trigger data.blk(x)] data.valid_block(x) && x != join implies data.blk(x).ops
                    == pre.blk(x).ops by {
                    assert(before.blk(x).ops == pre.blk(x).ops);
                }
            }
            output
        };
        proof {
            assert(data.valid_vn(value));
        }
        let ghost vs = values@;
        values.push(value);
        proof {
            assert forall|j: int| 0 <= j < k + 1 implies data.valid_vn(#[trigger] values@[j]) by {
                if j < k {
                    assert(values@[j] == vs[j]);
                    assert(before.valid_vn(vs[j]));
                }
            }
        }
        k += 1;
    }
    values
}

/// Moves the edges of `b1` and `b2` to the exits onto `join`, and gives both
/// blocks the single successor `join`.
fn rewire_join_edges(
    data: &mut Funcdata,
    b1: GraphBlockId,
    b2: GraphBlockId,
    join: GraphBlockId,
    exita: GraphBlockId,
    exitb: GraphBlockId,
)
    requires
        old(data).wf(),
        old(data).valid_block(b1),
        old(data).valid_block(b2),
        old(data).valid_block(join),
        old(data).valid_block(exita),
        old(data).valid_block(exitb),
        b1 != b2,
        join != b1,
        join != b2,
        exita != exitb,
        old(data).blk(b1).successors@ == seq![exita, exitb],
        old(data).blk(b2).successors@ == seq![exita, exitb],
        old(data).blk(join).successors@.len() == 0,
    ensures
        final(data).wf(),
        final(data).vns().len() == old(data).vns().len(),
        final(data).opv().len() == old(data).opv().len(),
        final(data).bls().len() == old(data).bls().len(),
        final(data).blk(b1).successors@ == seq![join],
        final(data).blk(b2).successors@ == seq![join],
        final(data).blk(join).successors@ == seq![exita, exitb],
        forall|x: GraphBlockId|
            #![trigger final(data).blk(x)]
            final(data).valid_block(x) && x != b1 && x != b2 && x != join ==> final(data).blk(x).successors@ == old(
                data,
            ).blk(x).successors@,
        forall|x: GraphBlockId| #![trigger final(data).blk(x)] final(data).valid_block(x) ==> final(data).blk(x).ops == old(data).blk(x).ops,
        forall|o: OpId| #![trigger final(data).opn(o)] final(data).valid_op(o) ==> final(data).opn(o).parent == old(data).opn(o).parent,
{
    let ghost e0 = *data;
    proof {
        lemma_drop_pair(exita, exitb);
    }
    let r1 = data.remove_edge(b1, exita);
    let ghost e1 = *data;
    let r2 = data.remove_edge(b2, exita);
    let ghost e2 = *data;
    data.add_edge(join, exita);
    let ghost e3 = *data;
    proof {
        assert(r1 && r2);
        assert(e3.blk(b1).successors@ == seq![exitb]);
        assert(e3.blk(b2).successors@ == seq![exitb]);
        assert(e2.blk(join).successors@ == e0.blk(join).successors@);
        assert(e3.blk(join).successors@ =~= seq![exita]);
    }
    let r3 = data.remove_edge(b1, exitb);
    let ghost e4 = *data;
    let r4 = data.remove_edge(b2, exitb);
    let ghost e5 = *data;
    data.add_edge(join, exitb);
    let ghost e6 = *data;
    proof {
        assert(r3 && r4);
        assert(e6.blk(b1).successors@ == Seq::<GraphBlockId>::empty());
        assert(e6.blk(b2).successors@ == Seq::<GraphBlockId>::empty());
        assert(e5.blk(join).successors@ == seq![exita]);
        assert(!seq![exita].contains(exitb));
        assert(e6.blk(join).successors@ =~= seq![exita, exitb]);
    }
    data.add_edge(b1, join);
    let ghost e7 = *data;
    data.add_edge(b2, join);
    proof {
        assert(data.blk(b1).successors@ =~= seq![join]);
        assert(data.blk(b2).successors@ =~= seq![join]);
        assert forall|x: GraphBlockId|
            #![trigger data.blk(x)]
            data.valid_block(x) && x != b1 && x != b2 && x != join implies data.blk(x).successors@ == e0.blk(
                x,
            ).successors@ by {
            assert(e1.blk(x).successors@ == e0.blk(x).successors@);
            assert(e2.blk(x).successors@ == e1.blk(x).successors@);
            assert(e3.blk(x).successors@ == e2.blk(x).successors@);
            assert(e4.blk(x).successors@ == e3.blk(x).successors@);
            assert(e5.blk(x).successors@ == e4.blk(x).successors@);
            assert(e6.blk(x).successors@ == e5.blk(x).successors@);
            assert(e7.blk(x).successors@ == e6.blk(x).successors@);
        }
        assert forall|o: OpId| #![trigger data.opn(o)] data.valid_op(o) implies data.opn(o).parent == e0.opn(o).parent by {
            assert(e1.opn(o).parent == e0.opn(o).parent);
            assert(e2.opn(o).parent == e1.opn(o).parent);
            assert(e3.opn(o).parent == e2.opn(o).parent);
            assert(e4.opn(o).parent == e3.opn(o).parent);
            assert(e5.opn(o).parent == e4.opn(o).parent);
            assert(e6.opn(o).parent == e5.opn(o).parent);
            assert(e7.opn(o).parent == e6.opn(o).parent);
        }
        assert forall|x: GraphBlockId| #![trigger data.blk(x)] data.valid_block(x) implies data.blk(x).ops == e0.blk(x).ops by {
            assert(e1.blk(x).ops == e0.blk(x).ops);
            assert(e2.blk(x).ops == e1.blk(x).ops);
            assert(e3.blk(x).ops == e2.blk(x).ops);
            assert(e4.blk(x).ops == e3.blk(x).ops);
            assert(e5.blk(x).ops == e4.blk(x).ops);
            assert(e6.blk(x).ops == e5.blk(x).ops);
            assert(e7.blk(x).ops == e6.blk(x).ops);
        }
    }
}

/// Gives every planned merge one more operand: the value standing for it on
/// the edge from the join block.
fn extend_merges(data: &mut Funcdata, a: &Vec<PhiPlan>, b: &Vec<PhiPlan>, values: &Vec<VarnodeId>)
    requires
        old(data).wf(),
        plans_valid(old(data), a@),
        plans_valid(old(data), b@),
        a@.len() + b@.len() <= usize::MAX,
        values@.len() == a@.len() + b@.len(),
        forall|j: int| 0 <= j < values@.len() ==> old(data).valid_vn(#[trigger] values@[j]),
    ensures
        final(data).wf(),
        final(data).bls() == old(data).bls(),
        final(data).vns().len() == old(data).vns().len(),
        final(data).opv().len() == old(data).opv().len(),
        forall|o: OpId|
            #![trigger final(data).opn(o)]
            final(data).valid_op(o) ==> {
                &&& final(data).opn(o).opcode == old(data).opn(o).opcode
                &&& final(data).opn(o).seq == old(data).opn(o).seq
                &&& final(data).opn(o).output == old(data).opn(o).output
                &&& final(data).opn(o).parent == old(data).opn(o).parent
                &&& final(data).opn(o).dead == old(data).opn(o).dead
                &&& final(data).opn(o).inputs@ == old(data).opn(o).inputs@ + appended_for(
                    a@,
                    b@,
                    values@,
                    o,
                    (a@.len() + b@.len()) as int,
                )
            },
{
    let ghost pre = *data;
    let total = a.len() + b.len();
    let mut k: usize = 0;
    while k < total
        invariant
            data.wf(),
            total == a@.len() + b@.len(),
            plans_valid(&pre, a@),
            plans_valid(&pre, b@),
            data.bls() == pre.bls(),
            data.vns().len() == pre.vns().len(),
            data.opv().len() == pre.opv().len(),
            values@.len() == total,
            forall|j: int| 0 <= j < total ==> pre.valid_vn(#[trigger] values@[j]),
            forall|o: OpId|
                #![trigger data.opn(o)]
                data.valid_op(o) ==> {
                    &&& data.opn(o).opcode == pre.opn(o).opcode
                    &&& data.opn(o).seq == pre.opn(o).seq
                    &&& data.opn(o).output == pre.opn(o).output
                    &&& data.opn(o).parent == pre.opn(o).parent
                    &&& data.opn(o).dead == pre.opn(o).dead
                    &&& data.opn(o).inputs@ == pre.opn(o).inputs@ + appended_for(a@, b@, values@, o, k as int)
                },
            k <= total,
        decreases total - k,
    {
        let p = plan_at_exec(a, b, k);
        proof {
            if k < a@.len() {
                assert(a@[k as int] == p);
            } else {
                assert(b@[k - a@.len()] == p);
            }
            assert(data.op_wf(p.op));
        }
        let mut rebuilt = crate::graph::copy_vn_ids(&data.op(p.op).inputs);
        let value = merged_value(a, b, values, k);
        rebuilt.push(value);
        proof {
            let j = choose|j: int| k <= j < values@.len() && value == values@[j];
            assert(pre.valid_vn(values@[j]));
            assert forall|m: int| 0 <= m < rebuilt@.len() implies (#[trigger] rebuilt@[m]).0 < data.vns().len() by {
                if m < rebuilt@.len() - 1 {
                    assert(rebuilt@[m] == data.opn(p.op).inputs@[m]);
                }
            }
        }
        let ghost before = *data;
        data.op_set_inputs(p.op, rebuilt);
        proof {
            assert forall|o: OpId| #![trigger data.opn(o)] data.valid_op(o) implies {
                &&& data.opn(o).opcode == pre.opn(o).opcode
                &&& data.opn(o).seq == pre.opn(o).seq
                &&& data.opn(o).output == pre.opn(o).output
                &&& data.opn(o).parent == pre.opn(o).parent
                &&& data.opn(o).dead == pre.opn(o).dead
                &&& data.opn(o).inputs@ == pre.opn(o).inputs@ + appended_for(a@, b@, values@, o, k + 1)
            } by {
                assert(before.opn(o).opcode == pre.opn(o).opcode);
                if o == p.op {
                    assert(pre.opn(o).inputs@ + appended_for(a@, b@, values@, o, k + 1) =~= (pre.opn(o).inputs@
                        + appended_for(a@, b@, values@, o, k as int)).push(value));
                }
            }
        }
        k += 1;
    }
}

/// One join carried out: the two blocks, their branches, the plan, and the
/// branch the joined block ends in.
pub struct JoinStep {
    pub b1: GraphBlockId,
    pub br1: OpId,
    pub b2: GraphBlockId,
    pub br2: OpId,
    pub plan: JoinPlan,
    pub branch: OpId,
}

/// From `pre` to `post` the joinable pair of `s` was joined: both blocks now
/// lead only to a new block, which ends in `s.branch`, a conditional branch
/// on the shared condition towards the old two successors in order; the two
/// old branches are destroyed and no other block's successors change.
pub open spec fn joined(pre: &Funcdata, post: &Funcdata, s: JoinStep) -> bool {
    let j = GraphBlockId(pre.bls().len() as u32);
    &&& joinable(pre, s.b1, s.br1, s.b2, s.br2)
    &&& join_room(pre, s.b1, s.b2)
    &&& plan_for(pre, s.b1, s.br1, s.b2, s.plan)
    &&& post.bls().len() == pre.bls().len() + 1
    &&& post.blk(s.b1).successors@ == seq![j]
    &&& post.blk(s.b2).successors@ == seq![j]
    &&& post.blk(j).successors@ == seq![s.plan.exita, s.plan.exitb]
    &&& forall|x: GraphBlockId|
        #![trigger post.blk(x)]
        pre.valid_block(x) && x != s.b1 && x != s.b2 ==> post.blk(x).successors@ == pre.blk(x).successors@
    &&& post.opn(s.br1).dead
    &&& post.opn(s.br2).dead
    &&& post.valid_op(s.branch)
    &&& post.opn(s.branch).opcode == CBRANCH
    &&& post.opn(s.branch).inputs@ == seq![s.plan.target, s.plan.condition]
    &&& post.opn(s.branch).parent == Some(j)
    &&& !post.opn(s.branch).dead
    &&& forall|x: GraphBlockId|
        #![trigger post.blk(x)]
        pre.valid_block(x) && pre.opn(s.br1).parent != Some(x) && pre.opn(s.br2).parent != Some(x) ==> post.blk(x).ops
            == pre.blk(x).ops
}

/// The joins of `steps` carried out one after another through `states`.
pub open spec fn join_run(states: Seq<Funcdata>, steps: Seq<JoinStep>) -> bool {
    &&& states.len() == steps.len() + 1
    &&& forall|k: int| 0 <= k < steps.len() ==> #[trigger] joined(&states[k], &states[k + 1], steps[k])
}

/// Joins the blocks ending in `br1` and `br2`: a new block takes over their
/// edges to the two exits, holds a merge for every exit merge whose two
/// operands differ, and ends in the shared conditional branch; the two old
/// branches are destroyed.
#[verifier::rlimit(60)]
#[verifier::spinoff_prover]
fn perform_join(data: &mut Funcdata, b1: GraphBlockId, br1: OpId, b2: GraphBlockId, br2: OpId, plan: &JoinPlan) -> (r: (
    GraphBlockId,
    OpId,
))
    requires
        old(data).wf(),
        old(data).valid_block(b1),
        old(data).valid_block(b2),
        old(data).valid_op(br1),
        old(data).valid_op(br2),
        joinable(old(data), b1, br1, b2, br2),
        join_room(old(data), b1, b2),
        plan_for(old(data), b1, br1, b2, *plan),
    ensures
        final(data).wf(),
        arenas_grow(&*old(data), &*final(data)),
        r.0.0 == old(data).bls().len(),
        final(data).bls().len() == old(data).bls().len() + 1,
        final(data).blk(b1).successors@ == seq![r.0],
        final(data).blk(b2).successors@ == seq![r.0],
        final(data).blk(r.0).successors@ == seq![plan.exita, plan.exitb],
        forall|x: GraphBlockId|
            #![trigger final(data).blk(x)]
            old(data).valid_block(x) && x != b1 && x != b2 ==> final(data).blk(x).successors@ == old(data).blk(
                x,
            ).successors@,
        final(data).opn(br1).dead,
        final(data).opn(br2).dead,
        final(data).valid_op(r.1),
        final(data).opn(r.1).opcode == CBRANCH,
        final(data).opn(r.1).inputs@ == seq![plan.target, plan.condition],
        final(data).opn(r.1).parent == Some(r.0),
        !final(data).opn(r.1).dead,
        two_way_count(final(data).bls()) + 1 == two_way_count(old(data).bls()),
        forall|x: GraphBlockId|
            #![trigger final(data).blk(x)]
            old(data).valid_block(x) && old(data).opn(br1).parent != Some(x) && old(data).opn(br2).parent != Some(x)
                ==> final(data).blk(x).ops == old(data).blk(x).ops,
{
    reveal(joinable);
    reveal(join_room);
    let ghost pre = *data;
    let exita = plan.exita;
    let exitb = plan.exitb;
    proof {
        assert(pre.block_wf(b1));
        assert(pre.blk(b1).successors@[0].0 < pre.bls().len());
        assert(pre.blk(b1).successors@[1].0 < pre.bls().len());
        assert(pre.block_wf(exita));
        assert(pre.block_wf(exitb));
        lemma_phi_plans_valid(
            &pre,
            pre.blk(exita).ops@,
            0,
            first_index_or(pre.blk(exita).predecessors@, b1, 0),
            first_index_or(pre.blk(exita).predecessors@, b2, 0),
        );
        lemma_phi_plans_valid(
            &pre,
            pre.blk(exitb).ops@,
            0,
            first_index_or(pre.blk(exitb).predecessors@, b1, 0),
            first_index_or(pre.blk(exitb).predecessors@, b2, 0),
        );
        assert(pre.op_wf(br1));
        assert(pre.blk(b1).successors@ =~= seq![exita, exitb]);
        assert(pre.blk(b2).successors@ =~= seq![exita, exitb]);
    }
    let address = data.op(br1).seq.address;
    let join = data.new_block(address);
    let ghost s0 = *data;
    proof {
        assert(s0.bls().take(pre.bls().len() as int)[b1.0 as int] == s0.bls()[b1.0 as int]);
        assert(s0.bls().take(pre.bls().len() as int)[b2.0 as int] == s0.bls()[b2.0 as int]);
    }
    let values = make_merges(data, join, &plan.a_phis, &plan.b_phis);
    let ghost e0 = *data;
    rewire_join_edges(data, b1, b2, join, exita, exitb);
    let ghost e8 = *data;
    extend_merges(data, &plan.a_phis, &plan.b_phis, &values);
    let ghost f0 = *data;
    let seq = data.op(br1).seq;
    let inputs = vec![plan.target, plan.condition];
    proof {
        assert(plan.target.0 < pre.vns().len());
        assert(plan.condition.0 < pre.vns().len());
        assert(inputs@ =~= seq![plan.target, plan.condition]);
        assert forall|m: int| 0 <= m < inputs@.len() implies (#[trigger] inputs@[m]).0 < data.vns().len() by {}
    }
    let branch = data.new_op(CBRANCH, seq, inputs);
    data.op_insert_end(branch, join);
    let ghost f1 = *data;
    data.op_destroy(br1);
    let ghost f2 = *data;
    data.op_destroy(br2);
    proof {
        assert(branch != br1 && branch != br2);
        assert(data.opn(branch) == f2.opn(branch));
        assert(f2.opn(branch) == f1.opn(branch));
        assert(br1 != br2 ==> data.opn(br1) == f2.opn(br1));
        assert forall|x: GraphBlockId| #![trigger data.blk(x)] data.valid_block(x) implies data.blk(x).successors
            == e8.blk(x).successors by {
            assert(f2.blk(x).successors == f1.blk(x).successors);
            assert(f1.blk(x).successors == f0.blk(x).successors);
        }
        assert forall|x: GraphBlockId| #![trigger data.blk(x)] pre.valid_block(x) && x != b1 && x != b2 implies data.blk(
            x,
        ).successors@ == pre.blk(x).successors@ by {
            assert(data.blk(x).successors == e8.blk(x).successors);
            assert(e8.blk(x).successors@ == e0.blk(x).successors@);
            assert(e0.blk(x).successors == s0.blk(x).successors);
            assert(s0.bls().take(pre.bls().len() as int)[x.0 as int] == s0.bls()[x.0 as int]);
        }
        assert(two_way(data.bls()[b1.0 as int]) == 0) by {
            assert(data.blk(b1).successors == e8.blk(b1).successors);
        }
        assert(two_way(data.bls()[b2.0 as int]) == 0) by {
            assert(data.blk(b2).successors == e8.blk(b2).successors);
        }
        assert(two_way(data.bls()[pre.bls().len() as int]) == 1) by {
            assert(data.blk(join).successors == e8.blk(join).successors);
        }
        assert forall|i: int| 0 <= i < pre.bls().len() && i != b1.0 && i != b2.0 implies two_way(
            #[trigger] data.bls()[i],
        ) == two_way(pre.bls()[i]) by {
            let x = GraphBlockId(i as u32);
            assert(data.blk(x).successors@ == pre.blk(x).successors@);
        }
        lemma_join_count(pre.bls(), data.bls(), b1.0 as int, b2.0 as int);
        assert(f1.opn(br1).parent == pre.opn(br1).parent) by {
            assert(s0.opn(br1) == pre.opn(br1));
            assert(e0.opn(br1).parent == s0.opn(br1).parent);
            assert(e8.opn(br1).parent == e0.opn(br1).parent);
            assert(f0.opn(br1).parent == e8.opn(br1).parent);
        }
        assert(br1 != br2 ==> f2.opn(br2).parent == pre.opn(br2).parent) by {
            if br1 != br2 {
                assert(s0.opn(br2) == pre.opn(br2));
                assert(e0.opn(br2).parent == s0.opn(br2).parent);
                assert(e8.opn(br2).parent == e0.opn(br2).parent);
                assert(f0.opn(br2).parent == e8.opn(br2).parent);
                assert(f2.opn(br2) == f1.opn(br2));
            }
        }
        assert forall|x: GraphBlockId|
            #![trigger data.blk(x)]
            pre.valid_block(x) && pre.opn(br1).parent != Some(x) && pre.opn(br2).parent != Some(x) implies data.blk(x).ops
                == pre.blk(x).ops by {
            assert(x != join);
            assert(s0.bls().take(pre.bls().len() as int)[x.0 as int] == s0.bls()[x.0 as int]);
            assert(e0.blk(x).ops == s0.blk(x).ops);
            assert(e8.blk(x).ops == e0.blk(x).ops);
            assert(f0.blk(x).ops == e8.blk(x).ops);
            assert(f1.blk(x).ops == f0.blk(x).ops);
            assert(f2.blk(x).ops == f1.blk(x).ops);
        }
    }
    (join, branch)
}

/// Whether the arenas can take the join `plan` describes.
fn has_room(data: &Funcdata, b1: GraphBlockId, br1: OpId, b2: GraphBlockId, plan: &JoinPlan) -> (r: bool)
    requires
        data.wf(),
        plan_for(data, b1, br1, b2, *plan),
    ensures
        r == join_room(data, b1, b2),
{
    reveal(join_room);
    let ka = plan.a_phis.len();
    let kb = plan.b_phis.len();
    if ka >= 0xFFFF_FFFF || kb >= 0xFFFF_FFFF {
        return false;
    }
    let k = ka as u64 + kb as u64;
    let blocks = data.block_arena_len() as u64;
    let values = data.varnode_count() as u64;
    let ops = data.op_arena_len() as u64;
    blocks + 1 < 0xFFFF_FFFF && values + k < 0xFFFF_FFFF && ops + k + 1 < 0xFFFF_FFFF
}

/// The first pair of candidates, in candidate order, that can be joined and
/// that the arenas have room for.
fn find_join(data: &Funcdata, candidates: &Vec<(GraphBlockId, OpId)>) -> (r: Option<
    (GraphBlockId, OpId, GraphBlockId, OpId, JoinPlan),
>)
    requires
        data.wf(),
        forall|k: int| 0 <= k < candidates@.len() ==> #[trigger] conditional_terminator(data, candidates@[k]),
    ensures
        match r {
            Some((b1, br1, b2, br2, p)) => {
                &&& data.valid_block(b1)
                &&& data.valid_block(b2)
                &&& data.valid_op(br1)
                &&& data.valid_op(br2)
                &&& joinable(data, b1, br1, b2, br2)
                &&& join_room(data, b1, b2)
                &&& plan_for(data, b1, br1, b2, p)
            },
            None => forall|k: int, j: int|
                #![trigger candidates@[k], candidates@[j]]
                0 <= k < j < candidates@.len() ==> !(joinable(
                    data,
                    candidates@[k].0,
                    candidates@[k].1,
                    candidates@[j].0,
                    candidates@[j].1,
                ) && join_room(data, candidates@[k].0, candidates@[j].0)),
        },
{
    let mut index: usize = 0;
    while index < candidates.len()
        invariant
            data.wf(),
            forall|k: int| 0 <= k < candidates@.len() ==> #[trigger] conditional_terminator(data, candidates@[k]),
            index <= candidates@.len(),
            forall|k: int, j: int|
                #![trigger candidates@[k], candidates@[j]]
                0 <= k < index && k < j < candidates@.len() ==> !(joinable(
                    data,
                    candidates@[k].0,
                    candidates@[k].1,
                    candidates@[j].0,
                    candidates@[j].1,
                ) && join_room(data, candidates@[k].0, candidates@[j].0)),
        decreases candidates@.len() - index,
    {
        let mut j: usize = index + 1;
        while j < candidates.len()
            invariant
                data.wf(),
                forall|k: int| 0 <= k < candidates@.len() ==> #[trigger] conditional_terminator(data, candidates@[k]),
                index < candidates@.len(),
                index + 1 <= j <= candidates@.len(),
                forall|k: int, m: int|
                    #![trigger candidates@[k], candidates@[m]]
                    0 <= k < index && k < m < candidates@.len() ==> !(joinable(
                        data,
                        candidates@[k].0,
                        candidates@[k].1,
                        candidates@[m].0,
                        candidates@[m].1,
                    ) && join_room(data, candidates@[k].0, candidates@[m].0)),
                forall|m: int|
                    #![trigger candidates@[m]]
                    index < m < j ==> !(joinable(
                        data,
                        candidates@[index as int].0,
                        candidates@[index as int].1,
                        candidates@[m].0,
                        candidates@[m].1,
                    ) && join_room(data, candidates@[index as int].0, candidates@[m].0)),
            decreases candidates@.len() - j,
        {
            let (block1, branch1) = candidates[index];
            let (block2, branch2) = candidates[j];
            proof {
                assert(conditional_terminator(data, candidates@[index as int]));
                assert(conditional_terminator(data, candidates@[j as int]));
            }
            if block1 != block2 {
                if let Some(plan) = join_plan(data, block1, branch1, block2, branch2) {
                    if has_room(data, block1, branch1, block2, &plan) {
                        return Some((block1, branch1, block2, branch2, plan));
                    }
                }
            } else {
                proof {
                    reveal(joinable);
                }
            }
            j += 1;
        }
        index += 1;
    }
    None
}

/// No two live blocks ending in conditional branches can be joined, unless
/// the arenas lack room for the join.
pub open spec fn no_join_left(d: &Funcdata) -> bool {
    forall|b1: GraphBlockId, o1: OpId, b2: GraphBlockId, o2: OpId|
        #![trigger conditional_terminator(d, (b1, o1)), conditional_terminator(d, (b2, o2))]
        conditional_terminator(d, (b1, o1)) && !d.blk(b1).dead && conditional_terminator(d, (b2, o2)) && !d.blk(
            b2,
        ).dead ==> !(joinable(d, b1, o1, b2, o2) && join_room(d, b1, b2))
}

/// Joins two basic blocks that end in the same conditional branch: one
/// condition, one destination, one pair of exits. A new block takes both
/// branches' place; the merges of the exits get one operand for it, merged in
/// the new block where the two blocks contributed different values.
pub struct ActionNodeJoin;

impl Action for ActionNodeJoin {
    open spec fn title(&self) -> Seq<char> {
        "nodejoin"@
    }

    fn name(&self) -> (r: &'static str) {
        "nodejoin"
    }

    open spec fn reports(&self, pre: Funcdata, post: Funcdata, changes: usize) -> bool {
        &&& changes + two_way_count(post.bls()) == two_way_count(pre.bls())
        &&& no_join_left(&post)
        &&& exists|states: Seq<Funcdata>, steps: Seq<JoinStep>|
            #![trigger join_run(states, steps)]
            join_run(states, steps) && states[0] == pre && states.last() == post && steps.len() == changes
    }

    fn apply(&self, data: &mut Funcdata) -> (changes: usize)
        ensures
            changes + two_way_count(final(data).bls()) == two_way_count(old(data).bls()),
            no_join_left(&*final(data)),
            exists|states: Seq<Funcdata>, steps: Seq<JoinStep>|
                #![trigger join_run(states, steps)]
                join_run(states, steps) && states[0] == *old(data) && states.last() == *final(data) && steps.len()
                    == changes,
    {
        let ghost pre = *data;
        proof {
            lemma_two_way_bound(pre.bls());
        }
        let mut changed: usize = 0;
        let ghost mut states: Seq<Funcdata> = seq![pre];
        let ghost mut steps: Seq<JoinStep> = Seq::empty();
        loop
            invariant
                pre.wf(),
                data.wf(),
                arenas_grow(&pre, data),
                changed + two_way_count(data.bls()) == two_way_count(pre.bls()),
                two_way_count(pre.bls()) <= u32::MAX,
                join_run(states, steps),
                states[0] == pre,
                states.last() == *data,
                steps.len() == changed,
            ensures
                data.wf(),
                arenas_grow(&pre, data),
                changed + two_way_count(data.bls()) == two_way_count(pre.bls()),
                no_join_left(data),
                join_run(states, steps),
                states[0] == pre,
                states.last() == *data,
                steps.len() == changed,
            decreases two_way_count(data.bls()),
        {
            let candidates = conditional_terminators(data);
            match find_join(data, &candidates) {
                None => {
                    proof {
                        assert forall|b1: GraphBlockId, o1: OpId, b2: GraphBlockId, o2: OpId|
                            #![trigger conditional_terminator(&*data, (b1, o1)), conditional_terminator(&*data, (b2, o2))]
                            conditional_terminator(&*data, (b1, o1)) && !data.blk(b1).dead && conditional_terminator(
                                &*data,
                                (b2, o2),
                            ) && !data.blk(b2).dead implies !(joinable(&*data, b1, o1, b2, o2) && join_room(
                                &*data,
                                b1,
                                b2,
                            )) by {
                            let k1 = choose|k: int| 0 <= k < candidates@.len() && candidates@[k] == (b1, o1);
                            let k2 = choose|k: int| 0 <= k < candidates@.len() && candidates@[k] == (b2, o2);
                            lemma_joinable_symmetric(&*data, b2, o2, b1, o1);
                            lemma_joinable_symmetric(&*data, b1, o1, b2, o2);
                            if k1 == k2 {
                                reveal(joinable);
                            }
                            if k1 < k2 {
                                assert(candidates@[k1] == (b1, o1));
                            } else if k2 < k1 {
                                assert(candidates@[k2] == (b2, o2));
                            }
                        }
                    }
                    break;
                },
                Some((b1, br1, b2, br2, plan)) => {
                    let ghost before = *data;
                    let (_, branch) = perform_join(data, b1, br1, b2, br2, &plan);
                    proof {
                        let step = JoinStep { b1, br1, b2, br2, plan, branch };
                        assert(joined(&before, &*data, step));
                        let s0 = states;
                        let t0 = steps;
                        states = states.push(*data);
                        steps = steps.push(step);
                        assert forall|k: int| 0 <= k < steps.len() implies #[trigger] joined(&states[k], &states[k + 1], steps[k]) by {
                            if k < t0.len() {
                                assert(states[k] == s0[k] && states[k + 1] == s0[k + 1] && steps[k] == t0[k]);
                                assert(joined(&s0[k], &s0[k + 1], t0[k]));
                            } else {
                                assert(states[k] == before);
                            }
                        }
                    }
                    changed += 1;
                },
            }
        }
        changed
    }
}

/// A value a cloned epilogue can read as it is: a constant, a function
/// input, or a value some operation writes.
pub open spec fn clonable_value(d: &Funcdata, v: VarnodeId) -> bool {
    d.vn(v).flags.constant || d.vn(v).flags.input || d.vn(v).flags.written
}

/// An operation a return epilogue may hold and still be cloned: a destroyed
/// one, a merge, or a copy or return reading only clonable values.
pub open spec fn splittable_op(d: &Funcdata, o: OpId) -> bool {
    ||| d.opn(o).dead
    ||| d.opn(o).opcode == MULTIEQUAL
    ||| (d.opn(o).opcode == COPY || d.opn(o).opcode == RETURN) && forall|k: int|
        0 <= k < d.opn(o).inputs@.len() ==> clonable_value(d, #[trigger] d.opn(o).inputs@[k])
}

/// Every operation of the block can be cloned.
pub open spec fn splittable(d: &Funcdata, b: GraphBlockId) -> bool {
    forall|k: int| 0 <= k < d.blk(b).ops@.len() ==> splittable_op(d, #[trigger] d.blk(b).ops@[k])
}

fn is_splittable_return(data: &Funcdata, block: GraphBlockId) -> (r: bool)
    requires
        data.wf(),
        data.valid_block(block),
    ensures
        r == splittable(data, block),
{
    let ops = &data.block(block).ops;
    proof {
        assert(data.block_wf(block));
    }
    let mut i: usize = 0;
    while i < ops.len()
        invariant
            data.wf(),
            *ops == data.blk(block).ops,
            crate::graph::ops_below(ops@, data.opv().len() as int),
            i <= ops@.len(),
            forall|k: int| 0 <= k < i ==> splittable_op(data, #[trigger] ops@[k]),
        decreases ops@.len() - i,
    {
        let id = ops[i];
        proof {
            assert(ops@[i as int].0 < data.opv().len());
            assert(data.op_wf(id));
        }
        let operation = data.op(id);
        if !operation.dead && operation.opcode != MULTIEQUAL {
            if operation.opcode == COPY || operation.opcode == RETURN {
                let mut j: usize = 0;
                while j < operation.inputs.len()
                    invariant
                        data.wf(),
                        i < ops@.len(),
                        *ops == data.blk(block).ops,
                        id == ops@[i as int],
                        !operation.dead,
                        operation.opcode != MULTIEQUAL,
                        *operation == data.opn(id),
                        vns_below(operation.inputs@, data.vns().len() as int),
                        j <= operation.inputs@.len(),
                        forall|k: int| 0 <= k < j ==> clonable_value(data, #[trigger] operation.inputs@[k]),
                    decreases operation.inputs@.len() - j,
                {
                    let value = operation.inputs[j];
                    proof {
                        assert(operation.inputs@[j as int].0 < data.vns().len());
                    }
                    let flags = data.varnode(value).flags;
                    if !(flags.constant || flags.input || flags.written) {
                        proof {
                            assert(!splittable_op(data, ops@[i as int]));
                        }
                        return false;
                    }
                    j += 1;
                }
            } else {
                proof {
                    assert(!splittable_op(data, ops@[i as int]));
                }
                return false;
            }
        }
        i += 1;
    }
    true
}

/// The live operations among `ops[..n]`, in order.
pub open spec fn live_ids(d: &Funcdata, ops: Seq<OpId>, n: int) -> Seq<OpId>
    decreases n,
{
    if n <= 0 {
        Seq::empty()
    } else if d.opn(ops[n - 1]).dead {
        live_ids(d, ops, n - 1)
    } else {
        live_ids(d, ops, n - 1).push(ops[n - 1])
    }
}

/// The value recorded last for `v` among the first `n` keys, or `v` itself.
pub open spec fn mapped_in(keys: Seq<VarnodeId>, values: Seq<VarnodeId>, v: VarnodeId, n: int) -> VarnodeId
    decreases n,
{
    if n <= 0 {
        v
    } else if keys[n - 1] == v {
        values[n - 1]
    } else {
        mapped_in(keys, values, v, n - 1)
    }
}

/// The clone of `v` made so far: the value recorded last for it, or `v`
/// itself.
fn mapped_value(keys: &Vec<VarnodeId>, values: &Vec<VarnodeId>, v: VarnodeId) -> (r: VarnodeId)
    requires
        keys@.len() == values@.len(),
    ensures
        r == mapped_in(keys@, values@, v, keys@.len() as int),
        r == v || values@.contains(r),
{
    let mut j: usize = keys.len();
    while j > 0
        invariant
            j <= keys@.len(),
            keys@.len() == values@.len(),
            mapped_in(keys@, values@, v, keys@.len() as int) == mapped_in(keys@, values@, v, j as int),
        decreases j,
    {
        j -= 1;
        if keys[j] == v {
            proof {
                assert(values@[j as int] == values@[j as int]);
            }
            return values[j];
        }
    }
    v
}

/// Operation `c` of `d` is the clone in block `dup` of operation `o` of
/// `pre`: a live operation there, of the same address, and of the same
/// opcode, except that a merge becomes a copy.
pub open spec fn cloned_as(d: &Funcdata, c: OpId, pre: &Funcdata, o: OpId, dup: GraphBlockId) -> bool {
    &&& d.valid_op(c)
    &&& c.0 >= pre.opv().len()
    &&& !d.opn(c).dead
    &&& d.opn(c).parent == Some(dup)
    &&& d.opn(c).seq == pre.opn(o).seq
    &&& d.opn(c).opcode == (if pre.opn(o).opcode == MULTIEQUAL {
        COPY
    } else {
        pre.opn(o).opcode
    })
}

/// The edge from `predecessor` into the epilogue `parent` was split off: a
/// new block starting where `parent` starts holds a clone of each live
/// operation of `parent`, in order, and has `predecessor` as its only
/// predecessor; `parent` loses that predecessor, and `predecessor` leads to
/// the new block in place of `parent`.
pub open spec fn split_done(pre: &Funcdata, post: &Funcdata, parent: GraphBlockId, predecessor: GraphBlockId) -> bool {
    let dup = GraphBlockId(pre.bls().len() as u32);
    let live = live_ids(pre, pre.blk(parent).ops@, pre.blk(parent).ops@.len() as int);
    &&& post.bls().len() == pre.bls().len() + 1
    &&& post.blk(dup).start == pre.blk(parent).start
    &&& post.blk(dup).ops@.len() == live.len()
    &&& post.blk(dup).predecessors@ == seq![predecessor]
    &&& forall|m: int| 0 <= m < post.blk(dup).ops@.len() ==> cloned_as(post, #[trigger] post.blk(dup).ops@[m], pre, live[m], dup)
    &&& post.blk(parent).predecessors@ == pre.blk(parent).predecessors@.remove(
        first_index_or(pre.blk(parent).predecessors@, predecessor, 0),
    )
    &&& post.blk(predecessor).successors@ == add_unique(drop_all(pre.blk(predecessor).successors@, parent), dup)
    &&& merges_lose_slot(pre, post, parent, predecessor)
}

/// Every merge at the head of `parent` lost the operand in the slot of
/// `predecessor`; no other old operation's operands changed.
#[verifier::opaque]
pub open spec fn merges_lose_slot(pre: &Funcdata, post: &Funcdata, parent: GraphBlockId, predecessor: GraphBlockId) -> bool {
    forall|o: OpId|
        #![trigger post.opn(o)]
        pre.valid_op(o) ==> post.opn(o).inputs@ == crate::graph::stripped(
            pre.opn(o).inputs@,
            crate::graph::leading_phis(pre.opv(), pre.blk(parent).ops@),
            o,
            first_index_or(pre.blk(parent).predecessors@, predecessor, 0),
        )
}

/// Two operation arenas that agree on the opcodes of a block's operations
/// find the same run of merges at its head.
proof fn lemma_phi_run_same(a: Seq<crate::graph::GraphOp>, b: Seq<crate::graph::GraphOp>, ops: Seq<OpId>, i: int)
    requires
        0 <= i <= ops.len(),
        forall|k: int| 0 <= k < ops.len() ==> (#[trigger] ops[k]).0 < a.len() && ops[k].0 < b.len() && a[ops[k].0 as int].opcode
            == b[ops[k].0 as int].opcode,
    ensures
        crate::graph::phi_run(a, ops, i) == crate::graph::phi_run(b, ops, i),
    decreases ops.len() - i,
{
    if i < ops.len() {
        lemma_phi_run_same(a, b, ops, i + 1);
    }
}

/// One attempt to split the edge from `predecessor` in slot `edge_index` of
/// the epilogue `parent`: it succeeds exactly when the split fits, and then
/// is carried out; either way no other old block's predecessors change, and
/// a block it added without succeeding has no predecessor.
pub open spec fn split_attempt(
    pre: &Funcdata,
    post: &Funcdata,
    parent: GraphBlockId,
    predecessor: GraphBlockId,
    edge_index: usize,
    ok: bool,
) -> bool {
    &&& ok == return_split_fits(pre, parent, predecessor, edge_index)
    &&& ok ==> split_done(pre, post, parent, predecessor)
    &&& pre.bls().len() <= post.bls().len() <= pre.bls().len() + 1
    &&& !ok && post.bls().len() > pre.bls().len() ==> post.bls()[pre.bls().len() as int].predecessors@.len() == 0
    &&& forall|x: GraphBlockId|
        #![trigger post.blk(x)]
        pre.valid_block(x) && x != parent ==> post.blk(x).predecessors@ == pre.blk(x).predecessors@
}

/// The split of the edge from `predecessor`, in slot `edge_index` of the
/// predecessors of `parent`, can be carried out: the slot holds that edge,
/// the edge is recorded among the successors of `predecessor`, every live
/// merge of `parent` has an operand in that slot, and the arenas have room
/// for the clones.
pub open spec fn return_split_fits(d: &Funcdata, parent: GraphBlockId, predecessor: GraphBlockId, edge_index: usize) -> bool {
    let live = live_ids(d, d.blk(parent).ops@, d.blk(parent).ops@.len() as int);
    &&& edge_index < d.blk(parent).predecessors@.len()
    &&& d.blk(parent).predecessors@[edge_index as int] == predecessor
    &&& live.len() < 0xFFFF_FFFE
    &&& d.bls().len() < 0xFFFF_FFFE
    &&& d.opv().len() < 0xFFFF_FFFE - live.len()
    &&& d.vns().len() < 0xFFFF_FFFE - live.len()
    &&& forall|k: int|
        0 <= k < live.len() && #[trigger] d.opn(live[k]).opcode == MULTIEQUAL ==> edge_index < d.opn(live[k]).inputs@.len()
    &&& d.blk(predecessor).successors@.contains(parent)
}

/// Clones a return epilogue onto one incoming edge: a new block, starting
/// where `parent` starts, receives a clone of every live operation of
/// `parent` (a merge becomes a copy of the operand for this edge; later
/// clones read the clones of earlier results) and takes the edge from
/// `predecessor`; merges of `parent` left with one operand become copies.
fn split_return_edge(data: &mut Funcdata, parent: GraphBlockId, predecessor: GraphBlockId, edge_index: usize) -> (r: bool)
    requires
        old(data).wf(),
        old(data).valid_block(parent),
        old(data).valid_block(predecessor),
    ensures
        final(data).wf(),
        arenas_grow(&*old(data), &*final(data)),
        r == return_split_fits(&*old(data), parent, predecessor, edge_index),
        forall|x: GraphBlockId|
            #![trigger final(data).blk(x)]
            old(data).valid_block(x) && x != parent ==> final(data).blk(x).predecessors@ == old(data).blk(x).predecessors@,
        old(data).bls().len() <= final(data).bls().len() <= old(data).bls().len() + 1,
        !r && final(data).bls().len() > old(data).bls().len() ==> final(data).bls()[old(data).bls().len() as int].predecessors@.len()
            == 0,
        !(edge_index < old(data).blk(parent).predecessors@.len() && old(data).blk(parent).predecessors@[edge_index as int]
            == predecessor) ==> !r && *final(data) == *old(data),
        r ==> split_done(&*old(data), &*final(data), parent, predecessor),
        split_attempt(&*old(data), &*final(data), parent, predecessor, edge_index, r),
{
    let ghost pre = *data;
    let predecessors = &data.block(parent).predecessors;
    if !(edge_index < predecessors.len() && predecessors[edge_index] == predecessor) {
        return false;
    }
    let ops = crate::graph::copy_op_ids(&data.block(parent).ops);
    proof {
        assert(pre.block_wf(parent));
    }
    let mut live: Vec<OpId> = Vec::new();
    let mut i: usize = 0;
    while i < ops.len()
        invariant
            data.wf(),
            *data == pre,
            ops@ == pre.blk(parent).ops@,
            crate::graph::ops_below(ops@, pre.opv().len() as int),
            i <= ops@.len(),
            live@ == live_ids(&pre, ops@, i as int),
            crate::graph::ops_below(live@, pre.opv().len() as int),
            live@.len() <= i,
        decreases ops@.len() - i,
    {
        let id = ops[i];
        proof {
            assert(ops@[i as int].0 < pre.opv().len());
        }
        if !data.op(id).dead {
            let ghost l0 = live@;
            live.push(id);
            proof {
                assert forall|k: int| 0 <= k < live@.len() implies (#[trigger] live@[k]).0 < pre.opv().len() by {
                    if k < l0.len() {
                        assert(live@[k] == l0[k]);
                    }
                }
            }
        }
        i += 1;
    }
    let total = live.len();
    if total >= 0xFFFF_FFFE || data.block_arena_len() >= 0xFFFF_FFFE || data.op_arena_len() >= 0xFFFF_FFFE - total
        || data.varnode_count() >= 0xFFFF_FFFE - total {
        return false;
    }
    let start = data.block(parent).start;
    let duplicate = data.new_block(start);
    let ghost s0 = *data;
    proof {
        assert forall|x: GraphBlockId| #![trigger s0.blk(x)] pre.valid_block(x) implies s0.blk(x) == pre.blk(x) by {
            assert(s0.bls().take(pre.bls().len() as int)[x.0 as int] == s0.blk(x));
        }
    }
    let mut keys: Vec<VarnodeId> = Vec::new();
    let mut values: Vec<VarnodeId> = Vec::new();
    let mut k: usize = 0;
    while k < total
        invariant
            pre == *old(data),
            edge_index < pre.blk(parent).predecessors@.len(),
            pre.blk(parent).predecessors@[edge_index as int] == predecessor,
            pre.wf(),
            data.wf(),
            total == live@.len(),
            crate::graph::ops_below(live@, pre.opv().len() as int),
            pre.opv().len() + total < 0xFFFF_FFFE,
            pre.vns().len() + total < 0xFFFF_FFFE,
            duplicate.0 == pre.bls().len(),
            data.bls().len() == s0.bls().len(),
            s0.bls().len() == pre.bls().len() + 1,
            s0.blk(duplicate).start == start,
            s0.blk(duplicate).predecessors@.len() == 0,
            data.opv().len() == pre.opv().len() + k,
            pre.vns().len() <= data.vns().len() <= pre.vns().len() + k,
            k <= total,
            keys@.len() == values@.len(),
            vns_below(values@, data.vns().len() as int),
            data.blk(duplicate).ops@.len() == k,
            forall|x: GraphBlockId|
                #![trigger data.blk(x)]
                data.valid_block(x) ==> data.blk(x).successors == s0.blk(x).successors && data.blk(x).predecessors
                    == s0.blk(x).predecessors && data.blk(x).start == s0.blk(x).start,
            forall|o: OpId|
                #![trigger data.opn(o)]
                pre.valid_op(o) ==> data.opn(o).opcode == pre.opn(o).opcode && data.opn(o).seq == pre.opn(o).seq
                    && data.opn(o).inputs == pre.opn(o).inputs && data.opn(o).output == pre.opn(o).output,
            live@ == live_ids(&pre, pre.blk(parent).ops@, pre.blk(parent).ops@.len() as int),
            forall|x: GraphBlockId| #![trigger s0.blk(x)] pre.valid_block(x) ==> s0.blk(x) == pre.blk(x),
            forall|j: int|
                0 <= j < k && #[trigger] pre.opn(live@[j]).opcode == MULTIEQUAL ==> edge_index < pre.opn(live@[j]).inputs@.len(),
            forall|m: int| 0 <= m < k ==> cloned_as(&*data, #[trigger] data.blk(duplicate).ops@[m], &pre, live@[m], duplicate),
            data.blk(parent).ops == s0.blk(parent).ops,
            parent.0 < pre.bls().len(),
        decreases total - k,
    {
        let id = live[k];
        proof {
            assert(live@[k as int].0 < pre.opv().len());
            assert(pre.op_wf(id));
        }
        let opcode = data.op(id).opcode;
        let seq = data.op(id).seq;
        let output = data.op(id).output;
        let clone_inputs: Vec<VarnodeId>;
        let clone_opcode: i32;
        if opcode == MULTIEQUAL {
            let inputs = &data.op(id).inputs;
            if edge_index >= inputs.len() {
                proof {
                    assert(pre.opn(live@[k as int]).opcode == MULTIEQUAL);
                    assert forall|x: GraphBlockId| #![trigger data.blk(x)] pre.valid_block(x) && x != parent implies data.blk(
                        x,
                    ).predecessors@ == pre.blk(x).predecessors@ by {
                        assert(s0.blk(x) == pre.blk(x));
                    }
                }
                return false;
            }
            clone_opcode = COPY;
            clone_inputs = vec![inputs[edge_index]];
            proof {
                assert(clone_inputs@ =~= seq![inputs@[edge_index as int]]);
                assert(inputs@[edge_index as int].0 < pre.vns().len());
            }
        } else {
            let inputs = &data.op(id).inputs;
            let mut mapped: Vec<VarnodeId> = Vec::new();
            let mut m: usize = 0;
            while m < inputs.len()
                invariant
                    m <= inputs@.len(),
                    vns_below(inputs@, pre.vns().len() as int),
                    vns_below(values@, data.vns().len() as int),
                    keys@.len() == values@.len(),
                    pre.vns().len() <= data.vns().len(),
                    vns_below(mapped@, data.vns().len() as int),
                decreases inputs@.len() - m,
            {
                proof {
                    assert(inputs@[m as int].0 < pre.vns().len());
                }
                let v = mapped_value(&keys, &values, inputs[m]);
                let ghost m0 = mapped@;
                mapped.push(v);
                proof {
                    if v != inputs@[m as int] {
                        let j = choose|j: int| 0 <= j < values@.len() && values@[j] == v;
                        assert(values@[j].0 < data.vns().len());
                    }
                    assert forall|t: int| 0 <= t < mapped@.len() implies (#[trigger] mapped@[t]).0 < data.vns().len() by {
                        if t < m0.len() {
                            assert(mapped@[t] == m0[t]);
                        }
                    }
                }
                m += 1;
            }
            clone_opcode = opcode;
            clone_inputs = mapped;
        }
        proof {
            assert forall|t: int| 0 <= t < clone_inputs@.len() implies (#[trigger] clone_inputs@[t]).0 < data.vns().len() by {}
        }
        let ghost before = *data;
        let clone = data.new_op(clone_opcode, seq, clone_inputs);
        let ghost a1 = *data;
        match output {
            Some(source_output) => {
                proof {
                    assert(source_output.0 < pre.vns().len());
                }
                let source = data.varnode(source_output);
                let space = source.space;
                let offset = source.offset;
                let size = source.size;
                let cloned_output = data.new_varnode(space, offset, size);
                data.op_set_output(clone, Some(cloned_output));
                let ghost kv = values@;
                keys.push(source_output);
                values.push(cloned_output);
                proof {
                    assert forall|t: int| 0 <= t < values@.len() implies (#[trigger] values@[t]).0 < data.vns().len() by {
                        if t < kv.len() {
                            assert(values@[t] == kv[t]);
                        }
                    }
                }
            },
            None => {},
        }
        let ghost a2 = *data;
        data.op_insert_end(clone, duplicate);
        proof {
            assert(a2.blk(parent) == before.blk(parent));
            assert forall|m: int| 0 <= m < k + 1 implies cloned_as(&*data, #[trigger] data.blk(duplicate).ops@[m], &pre, live@[m], duplicate) by {
                if m < k {
                    let c = before.blk(duplicate).ops@[m];
                    assert(cloned_as(&before, c, &pre, live@[m], duplicate));
                    assert(data.blk(duplicate).ops@[m] == c);
                    assert(a1.opv().take(before.opv().len() as int)[c.0 as int] == a1.opn(c));
                    assert(c != clone);
                    assert(a2.opn(c) == a1.opn(c));
                } else {
                    assert(data.blk(duplicate).ops@[m] == clone);
                    assert(a2.opn(clone).seq == seq && a2.opn(clone).opcode == clone_opcode);
                }
            }
            assert forall|x: GraphBlockId|
                #![trigger data.blk(x)]
                data.valid_block(x) implies data.blk(x).successors == s0.blk(x).successors && data.blk(x).predecessors
                    == s0.blk(x).predecessors && data.blk(x).start == s0.blk(x).start by {
                assert(a2.blk(x) == before.blk(x));
            }
            assert forall|o: OpId| #![trigger data.opn(o)] pre.valid_op(o) implies data.opn(o).opcode == pre.opn(
                o,
            ).opcode && data.opn(o).seq == pre.opn(o).seq && data.opn(o).inputs == pre.opn(o).inputs && data.opn(
                o,
            ).output == pre.opn(o).output by {
                assert(o != clone);
                assert(a1.opv().take(before.opv().len() as int)[o.0 as int] == a1.opn(o));
                assert(a2.opn(o) == a1.opn(o));
                assert(before.opn(o).opcode == pre.opn(o).opcode);
            }
        }
        k += 1;
    }
    proof {
        assert(data.blk(predecessor).successors == pre.blk(predecessor).successors) by {
            assert(s0.bls().take(pre.bls().len() as int)[predecessor.0 as int] == s0.blk(predecessor));
        }
    }
    let ghost e0 = *data;
    if !data.remove_edge(predecessor, parent) {
        proof {
            assert forall|x: GraphBlockId| #![trigger data.blk(x)] pre.valid_block(x) && x != parent implies data.blk(
                x,
            ).predecessors@ == pre.blk(x).predecessors@ by {
                assert(s0.blk(x) == pre.blk(x));
                assert(e0.blk(x).predecessors == s0.blk(x).predecessors);
            }
        }
        return false;
    }
    let ghost e1 = *data;
    proof {
        assert(pre.block_wf(parent));
        assert(e0.blk(parent).ops == pre.blk(parent).ops) by {
            assert(s0.blk(parent) == pre.blk(parent));
        }
        assert(e0.blk(parent).predecessors == pre.blk(parent).predecessors) by {
            assert(s0.blk(parent) == pre.blk(parent));
        }
        let ops = pre.blk(parent).ops@;
        assert forall|k: int| 0 <= k < ops.len() implies (#[trigger] ops[k]).0 < e0.opv().len() && ops[k].0 < pre.opv().len()
            && e0.opv()[ops[k].0 as int].opcode == pre.opv()[ops[k].0 as int].opcode by {
            assert(pre.valid_op(ops[k]));
            assert(e0.opn(ops[k]).opcode == pre.opn(ops[k]).opcode);
        }
        lemma_phi_run_same(e0.opv(), pre.opv(), ops, 0);
        assert(crate::graph::leading_phis(e0.opv(), e0.blk(parent).ops@) == crate::graph::leading_phis(pre.opv(), ops));
        assert(pre.blk(parent).predecessors@.contains(predecessor)) by {
            assert(pre.blk(parent).predecessors@[edge_index as int] == predecessor);
        }
        assert forall|o: OpId| #![trigger e1.opn(o)] pre.valid_op(o) implies e1.opn(o).inputs@ == crate::graph::stripped(
            pre.opn(o).inputs@,
            crate::graph::leading_phis(pre.opv(), pre.blk(parent).ops@),
            o,
            first_index_or(pre.blk(parent).predecessors@, predecessor, 0),
        ) by {
            assert(e0.opn(o).inputs == pre.opn(o).inputs);
            assert(e1.valid_op(o));
        }
    }
    data.add_edge(predecessor, duplicate);
    let ghost e2 = *data;
    proof {
        assert(e1.blk(duplicate).predecessors@ == e0.blk(duplicate).predecessors@);
        assert(e2.blk(duplicate).predecessors@ =~= seq![predecessor]);
    }
    let phis = crate::graph::copy_op_ids(&data.block(parent).ops);
    proof {
        assert(data.block_wf(parent));
    }
    proof {
        assert(pre.block_wf(parent));
        assert(e2.blk(parent).ops == e0.blk(parent).ops);
        assert(e0.blk(parent).ops == s0.blk(parent).ops);
        assert(s0.blk(parent) == pre.blk(parent));
        assert forall|m: int| 0 <= m < e2.blk(duplicate).ops@.len() implies cloned_as(&e2, #[trigger] e2.blk(duplicate).ops@[m], &pre, live@[m], duplicate) by {
            assert(e2.blk(duplicate).ops == e0.blk(duplicate).ops);
            let c = e0.blk(duplicate).ops@[m];
            assert(cloned_as(&e0, c, &pre, live@[m], duplicate));
            assert(e1.opn(c).opcode == e0.opn(c).opcode && e1.opn(c).seq == e0.opn(c).seq);
        }
    }
    let mut i: usize = 0;
    while i < phis.len()
        invariant
            data.wf(),
            arenas_grow(&pre, data),
            data.bls() == e2.bls(),
            crate::graph::ops_below(phis@, data.opv().len() as int),
            crate::graph::ops_below(phis@, pre.opv().len() as int),
            i <= phis@.len(),
            forall|m: int| 0 <= m < data.blk(duplicate).ops@.len() ==> cloned_as(&*data, #[trigger] data.blk(duplicate).ops@[m], &pre, live@[m], duplicate),
            data.opv().len() == e2.opv().len(),
            forall|o: OpId| #![trigger data.opn(o)] data.valid_op(o) ==> data.opn(o).inputs == e2.opn(o).inputs,
        decreases phis@.len() - i,
    {
        let phi = phis[i];
        proof {
            assert(phis@[i as int].0 < data.opv().len());
        }
        if data.opcode_of(phi) != Some(MULTIEQUAL) {
            break;
        }
        if data.op(phi).inputs.len() == 1 {
            let ghost b4 = *data;
            data.op_set_opcode(phi, COPY);
            proof {
                assert forall|o: OpId| #![trigger data.opn(o)] data.valid_op(o) implies data.opn(o).inputs == e2.opn(o).inputs by {
                    assert(data.opn(o).inputs == b4.opn(o).inputs);
                }
                assert(phis@[i as int].0 < pre.opv().len());
                assert forall|m: int| 0 <= m < data.blk(duplicate).ops@.len() implies cloned_as(&*data, #[trigger] data.blk(duplicate).ops@[m], &pre, live@[m], duplicate) by {
                    let c = b4.blk(duplicate).ops@[m];
                    assert(cloned_as(&b4, c, &pre, live@[m], duplicate));
                    assert(c != phi);
                }
            }
        }
        i += 1;
    }
    proof {
        assert(live@ == live_ids(&pre, pre.blk(parent).ops@, pre.blk(parent).ops@.len() as int));
        reveal(merges_lose_slot);
        assert forall|o: OpId| #![trigger data.opn(o)] pre.valid_op(o) implies data.opn(o).inputs@ == crate::graph::stripped(
            pre.opn(o).inputs@,
            crate::graph::leading_phis(pre.opv(), pre.blk(parent).ops@),
            o,
            first_index_or(pre.blk(parent).predecessors@, predecessor, 0),
        ) by {
            assert(data.opn(o).inputs == e2.opn(o).inputs);
            assert(e2.opv() == e1.opv());
            assert(e1.opn(o).inputs@ == crate::graph::stripped(
                pre.opn(o).inputs@,
                crate::graph::leading_phis(pre.opv(), pre.blk(parent).ops@),
                o,
                first_index_or(pre.blk(parent).predecessors@, predecessor, 0),
            ));
        }
        assert(e0.blk(parent).predecessors == s0.blk(parent).predecessors);
        assert(s0.blk(parent) == pre.blk(parent));
        assert(pre.blk(parent).predecessors@[edge_index as int] == predecessor);
        assert(pre.blk(parent).predecessors@.contains(predecessor));
        assert(e2.blk(parent).predecessors == e1.blk(parent).predecessors);
        assert forall|x: GraphBlockId| #![trigger data.blk(x)] pre.valid_block(x) && x != parent implies data.blk(x).predecessors@
            == pre.blk(x).predecessors@ by {
            assert(s0.blk(x) == pre.blk(x));
            assert(e0.blk(x).predecessors == s0.blk(x).predecessors);
            assert(e1.blk(x).predecessors@ == e0.blk(x).predecessors@);
            assert(x != duplicate);
            assert(e2.blk(x).predecessors == e1.blk(x).predecessors);
        }
    }
    true
}

/// Whether block `b` holds a live `RETURN`.
pub open spec fn holds_return(d: &Funcdata, b: GraphBlockId) -> bool {
    exists|j: int| 0 <= j < d.blk(b).ops@.len() && #[trigger] d.opn(d.blk(b).ops@[j]).opcode == RETURN && !d.opn(d.blk(b).ops@[j]).dead
}

/// The blocks among the first `n` of `list` that hold a live `RETURN`, in order.
pub open spec fn returning_blocks(d: &Funcdata, list: Seq<GraphBlockId>, n: int) -> Seq<GraphBlockId>
    decreases n,
{
    if n <= 0 {
        Seq::empty()
    } else if holds_return(d, list[n - 1]) {
        returning_blocks(d, list, n - 1).push(list[n - 1])
    } else {
        returning_blocks(d, list, n - 1)
    }
}

/// The live blocks holding a live `RETURN`, in arena order.
fn return_blocks(data: &Funcdata) -> (r: Vec<GraphBlockId>)
    requires
        data.wf(),
    ensures
        r@ == returning_blocks(
            data,
            crate::graph::live_blocks(data.bls(), data.bls().len() as int),
            crate::graph::live_blocks(data.bls(), data.bls().len() as int).len() as int,
        ),
        forall|k: int| 0 <= k < r@.len() ==> data.valid_block(#[trigger] r@[k]),
{
    let blocks = data.blocks();
    proof {
        crate::graph::lemma_live_blocks_below(data.bls(), data.bls().len() as int);
    }
    let mut r: Vec<GraphBlockId> = Vec::new();
    let mut i: usize = 0;
    while i < blocks.len()
        invariant
            data.wf(),
            forall|k: int| 0 <= k < blocks@.len() ==> data.valid_block(#[trigger] blocks@[k]),
            i <= blocks@.len(),
            blocks@ == crate::graph::live_blocks(data.bls(), data.bls().len() as int),
            r@ == returning_blocks(data, blocks@, i as int),
            forall|k: int| 0 <= k < r@.len() ==> data.valid_block(#[trigger] r@[k]),
        decreases blocks@.len() - i,
    {
        let block = blocks[i];
        proof {
            assert(data.valid_block(blocks@[i as int]));
            assert(data.block_wf(block));
        }
        let ops = &data.block(block).ops;
        let mut j: usize = 0;
        let mut found = false;
        while j < ops.len()
            invariant_except_break
                !found,
                forall|m: int| 0 <= m < j ==> !(#[trigger] data.opn(ops@[m]).opcode == RETURN && !data.opn(ops@[m]).dead),
            invariant
                data.wf(),
                *ops == data.blk(block).ops,
                crate::graph::ops_below(ops@, data.opv().len() as int),
                j <= ops@.len(),
            ensures
                found <==> holds_return(data, block),
            decreases ops@.len() - j,
        {
            proof {
                assert(ops@[j as int].0 < data.opv().len());
            }
            if data.opcode_of(ops[j]) == Some(RETURN) {
                found = true;
                proof {
                    assert(data.opn(data.blk(block).ops@[j as int]).opcode == RETURN);
                }
                break;
            }
            j += 1;
        }
        if found {
            let ghost r0 = r@;
            r.push(block);
            proof {
                assert forall|k: int| 0 <= k < r@.len() implies data.valid_block(#[trigger] r@[k]) by {
                    if k < r0.len() {
                        assert(r@[k] == r0[k]);
                    }
                }
            }
        }
        i += 1;
    }
    r
}

/// The terminator of `predecessor` is a branch or conditional branch whose
/// destination is `parent`.
pub open spec fn jumps_to(d: &Funcdata, predecessor: GraphBlockId, parent: GraphBlockId) -> bool {
    terminator(d, predecessor) matches Some(t) && (d.opn(t).opcode == BRANCH || d.opn(t).opcode == CBRANCH) && jump_target(
        d,
        t,
    ) == Some(parent)
}

/// The entries among the first `n` of `predecessors` that jump to `parent`,
/// each with its position, in order.
pub open spec fn goto_list(d: &Funcdata, parent: GraphBlockId, predecessors: Seq<GraphBlockId>, n: int) -> Seq<(usize, GraphBlockId)>
    decreases n,
{
    if n <= 0 {
        Seq::empty()
    } else if jumps_to(d, predecessors[n - 1], parent) {
        goto_list(d, parent, predecessors, n - 1).push(((n - 1) as usize, predecessors[n - 1]))
    } else {
        goto_list(d, parent, predecessors, n - 1)
    }
}

/// The incoming edges of `parent` that are explicit jumps to it: the
/// predecessor's terminator is a branch or conditional branch whose
/// destination is `parent`. Each comes with its position among `parent`'s
/// predecessors.
fn goto_edges(data: &Funcdata, parent: GraphBlockId, predecessors: &Vec<GraphBlockId>) -> (r: Vec<(usize, GraphBlockId)>)
    requires
        data.wf(),
        data.valid_block(parent),
        crate::graph::blocks_below(predecessors@, data.bls().len() as int),
    ensures
        r@ == goto_list(data, parent, predecessors@, predecessors@.len() as int),
        r@.len() <= predecessors@.len(),
        forall|k: int| 0 <= k < r@.len() ==> data.valid_block((#[trigger] r@[k]).1) && r@[k].0 < predecessors@.len(),
{
    let mut r: Vec<(usize, GraphBlockId)> = Vec::new();
    let mut index: usize = 0;
    while index < predecessors.len()
        invariant
            data.wf(),
            crate::graph::blocks_below(predecessors@, data.bls().len() as int),
            index <= predecessors@.len(),
            r@ == goto_list(data, parent, predecessors@, index as int),
            r@.len() <= index,
            forall|k: int| 0 <= k < r@.len() ==> data.valid_block((#[trigger] r@[k]).1) && r@[k].0 < predecessors@.len(),
        decreases predecessors@.len() - index,
    {
        let predecessor = predecessors[index];
        proof {
            assert(predecessors@[index as int].0 < data.bls().len());
        }
        if let Some(branch) = last_live_op(data, predecessor) {
            let opcode = data.op(branch).opcode;
            if (opcode == BRANCH || opcode == CBRANCH) && branch_target(data, branch) == Some(parent) {
                let ghost r0 = r@;
                r.push((index, predecessor));
                proof {
                    assert forall|k: int| 0 <= k < r@.len() implies data.valid_block((#[trigger] r@[k]).1) && r@[k].0
                        < predecessors@.len() by {
                        if k < r0.len() {
                            assert(r@[k] == r0[k]);
                        }
                    }
                }
            }
        }
        index += 1;
    }
    r
}

/// The live blocks holding a live `RETURN`, in arena order.
pub open spec fn return_list(d: &Funcdata) -> Seq<GraphBlockId> {
    returning_blocks(
        d,
        crate::graph::live_blocks(d.bls(), d.bls().len() as int),
        crate::graph::live_blocks(d.bls(), d.bls().len() as int).len() as int,
    )
}

/// The edge a split of epilogue `e` tries first: the last explicit jump
/// among its predecessors, when it has more than one predecessor, holds only
/// operations that can be cloned, and is jumped to at all.
pub open spec fn first_split_edge(d: &Funcdata, e: GraphBlockId) -> Option<(usize, GraphBlockId)> {
    let predecessors = d.blk(e).predecessors@;
    let gotos = goto_list(d, e, predecessors, predecessors.len() as int);
    if predecessors.len() > 1 && splittable(d, e) && gotos.len() > 0 {
        Some(gotos.last())
    } else {
        None
    }
}

/// The first epilogue among `list[i..]` with an edge to split, with that
/// edge.
pub open spec fn first_split(d: &Funcdata, list: Seq<GraphBlockId>, i: int) -> Option<(GraphBlockId, (usize, GraphBlockId))>
    decreases list.len() - i,
{
    if i < 0 || i >= list.len() {
        None
    } else {
        match first_split_edge(d, list[i]) {
            Some(edge) => Some((list[i], edge)),
            None => first_split(d, list, i + 1),
        }
    }
}

/// The jumps are listed by increasing position.
proof fn lemma_goto_list_order(d: &Funcdata, parent: GraphBlockId, predecessors: Seq<GraphBlockId>, n: int)
    requires
        0 <= n <= predecessors.len(),
        predecessors.len() <= usize::MAX,
    ensures
        forall|a: int, b: int|
            0 <= a < b < goto_list(d, parent, predecessors, n).len() ==> (#[trigger] goto_list(d, parent, predecessors, n)[a]).0
                < (#[trigger] goto_list(d, parent, predecessors, n)[b]).0,
        forall|a: int| 0 <= a < goto_list(d, parent, predecessors, n).len() ==> (#[trigger] goto_list(d, parent, predecessors, n)[a]).0 < n,
    decreases n,
{
    if n > 0 {
        lemma_goto_list_order(d, parent, predecessors, n - 1);
        let prev = goto_list(d, parent, predecessors, n - 1);
        let cur = goto_list(d, parent, predecessors, n);
        if jumps_to(d, predecessors[n - 1], parent) {
            assert(cur == prev.push(((n - 1) as usize, predecessors[n - 1])));
            assert forall|a: int| 0 <= a < cur.len() implies (#[trigger] cur[a]).0 < n by {
                if a < prev.len() {
                    assert(cur[a] == prev[a]);
                }
            }
            assert forall|a: int, b: int| 0 <= a < b < cur.len() implies (#[trigger] cur[a]).0 < (#[trigger] cur[b]).0 by {
                assert(cur[a] == prev[a]);
                assert(prev[a].0 < n - 1);
                if b < prev.len() {
                    assert(cur[b] == prev[b]);
                } else {
                    assert(cur[b].0 == n - 1);
                }
            }
        } else {
            assert forall|a: int| 0 <= a < cur.len() implies (#[trigger] cur[a]).0 < n by {
                assert(prev[a].0 < n - 1);
            }
        }
    }
}

/// One attempted edge split of the return splitting.
pub struct SplitStep {
    pub parent: GraphBlockId,
    pub predecessor: GraphBlockId,
    pub index: usize,
    pub ok: bool,
}

/// The attempts of `steps` made one after another through `states`.
pub open spec fn split_run(states: Seq<Funcdata>, steps: Seq<SplitStep>) -> bool {
    &&& states.len() == steps.len() + 1
    &&& forall|k: int|
        0 <= k < steps.len() ==> #[trigger] split_attempt(
            &states[k],
            &states[k + 1],
            steps[k].parent,
            steps[k].predecessor,
            steps[k].index,
            steps[k].ok,
        )
}

/// How many of the first `n` attempts succeeded.
pub open spec fn split_successes(steps: Seq<SplitStep>, n: int) -> nat
    decreases n,
{
    if n <= 0 {
        0
    } else {
        split_successes(steps, n - 1) + (if steps[n - 1].ok {
            1nat
        } else {
            0nat
        })
    }
}

proof fn lemma_split_successes_prefix(s: Seq<SplitStep>, t: Seq<SplitStep>, n: int)
    requires
        0 <= n <= s.len(),
        n <= t.len(),
        forall|k: int| 0 <= k < n ==> s[k] == t[k],
    ensures
        split_successes(s, n) == split_successes(t, n),
    decreases n,
{
    if n > 0 {
        lemma_split_successes_prefix(s, t, n - 1);
    }
}

/// How many of the blocks at positions from `from` up to `n` have a
/// predecessor.
pub open spec fn entered_blocks(blocks: Seq<GraphBlock>, from: int, n: int) -> nat
    decreases n - from,
{
    if n <= from {
        0
    } else {
        entered_blocks(blocks, from, n - 1) + (if blocks[n - 1].predecessors@.len() > 0 {
            1nat
        } else {
            0nat
        })
    }
}

proof fn lemma_entered_same(a: Seq<GraphBlock>, b: Seq<GraphBlock>, from: int, n: int)
    requires
        forall|i: int| from <= i < n ==> (#[trigger] a[i]).predecessors@.len() == b[i].predecessors@.len(),
    ensures
        entered_blocks(a, from, n) == entered_blocks(b, from, n),
    decreases n - from,
{
    if n > from {
        lemma_entered_same(a, b, from, n - 1);
        assert(a[n - 1].predecessors@.len() == b[n - 1].predecessors@.len());
    }
}

/// Splits a shared return epilogue so that each explicit jump to it owns a
/// private copy. One incoming edge always keeps the block itself.
pub struct ActionReturnSplit;

impl Action for ActionReturnSplit {
    open spec fn title(&self) -> Seq<char> {
        "returnsplit"@
    }

    fn name(&self) -> (r: &'static str) {
        "returnsplit"
    }

    open spec fn reports(&self, pre: Funcdata, post: Funcdata, changes: usize) -> bool {
        &&& changes == entered_blocks(post.bls(), pre.bls().len() as int, post.bls().len() as int)
        &&& exists|states: Seq<Funcdata>, steps: Seq<SplitStep>|
            #![trigger split_run(states, steps)]
            split_run(states, steps) && states[0] == pre && states.last() == post && changes == split_successes(
                steps,
                steps.len() as int,
            )
    }

    fn apply(&self, data: &mut Funcdata) -> (changes: usize)
        ensures
            old(data).bls().len() + changes <= final(data).bls().len(),
            changes == entered_blocks(final(data).bls(), old(data).bls().len() as int, final(data).bls().len() as int),
            match first_split(&*old(data), return_list(&*old(data)), 0) {
                Some((e, (index, p))) => return_split_fits(&*old(data), e, p, index) ==> changes >= 1,
                None => changes == 0 && *final(data) == *old(data),
            },
            exists|states: Seq<Funcdata>, steps: Seq<SplitStep>|
                #![trigger split_run(states, steps)]
                split_run(states, steps) && states[0] == *old(data) && states.last() == *final(data) && changes
                    == split_successes(steps, steps.len() as int),
    {
        let ghost pre = *data;
        let epilogues = return_blocks(data);
        let mut changed: usize = 0;
        let mut i: usize = 0;
        let ghost mut reached = false;
        let ghost mut states: Seq<Funcdata> = seq![pre];
        let ghost mut steps: Seq<SplitStep> = Seq::empty();
        while i < epilogues.len()
            invariant
                split_run(states, steps),
                states[0] == pre,
                states.last() == *data,
                changed == split_successes(steps, steps.len() as int),
                epilogues@ == return_list(&pre),
                !reached ==> *data == pre && changed == 0 && first_split(&pre, epilogues@, 0) == first_split(
                    &pre,
                    epilogues@,
                    i as int,
                ),
                reached ==> (first_split(&pre, epilogues@, 0) matches Some((e, (index, p))) && (return_split_fits(
                    &pre,
                    e,
                    p,
                    index,
                ) ==> changed >= 1)),
                pre.wf(),
                data.wf(),
                arenas_grow(&pre, data),
                forall|k: int| 0 <= k < epilogues@.len() ==> pre.valid_block(#[trigger] epilogues@[k]),
                pre.bls().len() + changed <= data.bls().len(),
                changed == entered_blocks(data.bls(), pre.bls().len() as int, data.bls().len() as int),
                i <= epilogues@.len(),
            decreases epilogues@.len() - i,
        {
            let parent = epilogues[i];
            proof {
                assert(pre.valid_block(epilogues@[i as int]));
                assert(data.block_wf(parent));
            }
            let predecessors = crate::graph::copy_block_ids(&data.block(parent).predecessors);
            if predecessors.len() <= 1 || !is_splittable_return(data, parent) {
                proof {
                    if !reached {
                        assert(first_split_edge(&pre, parent) is None);
                    }
                }
                i += 1;
                continue;
            }
            let candidates = goto_edges(data, parent, &predecessors);
            proof {
                lemma_goto_list_order(&*data, parent, predecessors@, predecessors@.len() as int);
            }
            if candidates.len() == 0 {
                proof {
                    if !reached {
                        assert(first_split_edge(&pre, parent) is None);
                    }
                }
                i += 1;
                continue;
            }
            let ghost fresh = !reached;
            let ghost target = candidates@.last();
            proof {
                if fresh {
                    assert(first_split_edge(&pre, parent) == Some(target));
                    assert(first_split(&pre, epilogues@, i as int) == Some((parent, target)));
                }
            }
            let mut kept: Vec<(usize, GraphBlockId)> = Vec::new();
            if candidates.len() == predecessors.len() {
                let mut preserve = candidates[0].0;
                let mut j: usize = 1;
                while j < candidates.len()
                    invariant
                        j <= candidates@.len(),
                        candidates@.len() > 0,
                        preserve <= candidates@[0].0,
                    decreases candidates@.len() - j,
                {
                    if candidates[j].0 < preserve {
                        preserve = candidates[j].0;
                    }
                    j += 1;
                }
                let mut j: usize = 0;
                while j < candidates.len()
                    invariant
                        j <= candidates@.len(),
                        forall|k: int| 0 <= k < candidates@.len() ==> data.valid_block((#[trigger] candidates@[k]).1),
                        forall|k: int| 0 <= k < kept@.len() ==> data.valid_block((#[trigger] kept@[k]).1),
                        j > 0 && candidates@[j - 1].0 != preserve ==> kept@.len() > 0 && kept@.last() == candidates@[j - 1],
                    decreases candidates@.len() - j,
                {
                    if candidates[j].0 != preserve {
                        let ghost k0 = kept@;
                        kept.push(candidates[j]);
                        proof {
                            assert forall|k: int| 0 <= k < kept@.len() implies data.valid_block((#[trigger] kept@[k]).1) by {
                                if k < k0.len() {
                                    assert(kept@[k] == k0[k]);
                                } else {
                                    assert(data.valid_block(candidates@[j as int].1));
                                }
                            }
                        }
                    }
                    j += 1;
                }
                proof {
                    if candidates@.len() >= 2 {
                        assert(candidates@[0].0 < candidates@[candidates@.len() - 1].0);
                    }
                }
            } else {
                kept = candidates;
            }
            proof {
                if fresh {
                    assert(kept@.len() > 0 && kept@.last() == target);
                }
            }
            let ghost tfits = return_split_fits(&pre, parent, target.1, target.0);
            // Removing an edge shifts the merge operand slots of later edges,
            // so work from the last predecessor position to the first.
            let mut j: usize = kept.len();
            while j > 0
                invariant
                    split_run(states, steps),
                    states[0] == pre,
                    states.last() == *data,
                    changed == split_successes(steps, steps.len() as int),
                    fresh ==> kept@.len() > 0 && kept@.last() == target,
                    fresh && j == kept@.len() ==> *data == pre && changed == 0,
                    fresh && j < kept@.len() ==> (tfits ==> changed >= 1),
                    fresh ==> first_split(&pre, epilogues@, 0) == Some((parent, target)),
                    tfits == return_split_fits(&pre, parent, target.1, target.0),
                    !fresh ==> (first_split(&pre, epilogues@, 0) matches Some((e, (index, p))) && (return_split_fits(
                        &pre,
                        e,
                        p,
                        index,
                    ) ==> changed >= 1)),
                    pre.wf(),
                    data.wf(),
                    arenas_grow(&pre, data),
                    data.valid_block(parent),
                    forall|k: int| 0 <= k < kept@.len() ==> data.valid_block((#[trigger] kept@[k]).1),
                    pre.bls().len() + changed <= data.bls().len(),
                    changed == entered_blocks(data.bls(), pre.bls().len() as int, data.bls().len() as int),
                    parent.0 < pre.bls().len(),
                    j <= kept@.len(),
                decreases j,
            {
                j -= 1;
                let (index, predecessor) = kept[j];
                proof {
                    assert(data.valid_block(kept@[j as int].1));
                }
                let ghost before = *data;
                let split = split_return_edge(data, parent, predecessor, index);
                proof {
                    let step = SplitStep { parent, predecessor, index, ok: split };
                    let s0 = states;
                    let t0 = steps;
                    states = states.push(*data);
                    steps = steps.push(step);
                    assert forall|k: int| 0 <= k < steps.len() implies #[trigger] split_attempt(
                        &states[k],
                        &states[k + 1],
                        steps[k].parent,
                        steps[k].predecessor,
                        steps[k].index,
                        steps[k].ok,
                    ) by {
                        if k < t0.len() {
                            assert(states[k] == s0[k] && states[k + 1] == s0[k + 1] && steps[k] == t0[k]);
                            assert(split_attempt(&s0[k], &s0[k + 1], t0[k].parent, t0[k].predecessor, t0[k].index, t0[k].ok));
                        } else {
                            assert(states[k] == before);
                        }
                    }
                    assert(steps.drop_last() =~= t0);
                    lemma_split_successes_prefix(steps, t0, t0.len() as int);
                    let lo = pre.bls().len() as int;
                    let hi = before.bls().len() as int;
                    assert forall|i: int| lo <= i < hi implies (#[trigger] data.bls()[i]).predecessors@.len()
                        == before.bls()[i].predecessors@.len() by {
                        let x = GraphBlockId(i as u32);
                        assert(before.valid_block(x) && x != parent);
                        assert(data.blk(x).predecessors@ == before.blk(x).predecessors@);
                    }
                    lemma_entered_same(data.bls(), before.bls(), lo, hi);
                    if data.bls().len() > before.bls().len() {
                        assert(entered_blocks(data.bls(), lo, hi + 1) == entered_blocks(data.bls(), lo, hi) + (if data.bls()[hi].predecessors@.len() > 0 {
                            1nat
                        } else {
                            0nat
                        }));
                        if split {
                            assert(data.blk(GraphBlockId(hi as u32)).predecessors@ == seq![predecessor]);
                        }
                    }
                }
                if split {
                    changed += 1;
                }
                proof {
                    if fresh && j + 1 == kept@.len() {
                        assert(kept@[j as int] == target);
                        assert(split == tfits);
                    }
                }
                proof {
                    assert forall|k: int| 0 <= k < kept@.len() implies data.valid_block((#[trigger] kept@[k]).1) by {
                        assert(before.valid_block(kept@[k].1));
                    }
                }
            }
            proof {
                reached = true;
            }
            i += 1;
        }
        changed
    }
}

/// The block actions that can change the graph.
pub fn all() -> (r: Vec<Box<dyn Action>>)
    ensures
        r@.len() == 2,
{
    let split: Box<dyn Action> = Box::new(ActionReturnSplit);
    let join: Box<dyn Action> = Box::new(ActionNodeJoin);
    vec![split, join]
}

} // verus!
