//! Constant targets: indirect calls whose target is a known constant, and
//! loads whose pointer is one.

use vstd::prelude::*;
use crate::action::{Action, arenas_grow};
use crate::graph::{Funcdata, GraphOp, OpId, VarnodeId};
use crate::pcode::{CALL, CALLIND, COPY, LOAD};

verus! {

/// Following copies back from `v`, for at most `fuel` copies, a constant is
/// reached.
pub open spec fn copies_to_constant(d: &Funcdata, v: VarnodeId, fuel: nat) -> bool
    decreases fuel,
{
    if d.vn(v).flags.constant {
        true
    } else if fuel == 0 {
        false
    } else {
        match d.vn(v).def {
            None => false,
            Some(df) => {
                if d.opn(df).opcode != COPY || d.opn(df).inputs@.len() == 0 {
                    false
                } else {
                    copies_to_constant(d, d.opn(df).inputs@[0], (fuel - 1) as nat)
                }
            },
        }
    }
}

/// Operation `o` is a live indirect call whose target is a constant, up to
/// copies. A chain of copies cannot pass more distinct values than the graph
/// has, so the number of values bounds the walk.
pub open spec fn constant_indirect(d: &Funcdata, o: OpId) -> bool {
    &&& !d.opn(o).dead
    &&& d.opn(o).opcode == CALLIND
    &&& d.opn(o).inputs@.len() > 0
    &&& copies_to_constant(d, d.opn(o).inputs@[0], d.vns().len())
}

/// An operation after an indirect call with a constant target becomes a
/// direct call.
pub open spec fn deindirected(d: &Funcdata, o: OpId) -> GraphOp {
    if constant_indirect(d, o) {
        GraphOp { opcode: CALL, ..d.opn(o) }
    } else {
        d.opn(o)
    }
}

/// The number of operations among the first `n` slots that are indirect
/// calls with a constant target.
pub open spec fn constant_indirect_count(d: &Funcdata, n: int) -> nat
    decreases n,
{
    if n <= 0 {
        0
    } else {
        constant_indirect_count(d, n - 1) + if constant_indirect(d, OpId((n - 1) as u32)) { 1nat } else { 0nat }
    }
}

/// Two graphs with the same values and the same copies agree on where copy
/// chains lead.
proof fn lemma_copies_frame(a: &Funcdata, b: &Funcdata, v: VarnodeId, fuel: nat)
    requires
        a.wf(),
        a.valid_vn(v),
        a.vns() == b.vns(),
        a.opv().len() == b.opv().len(),
        forall|o: OpId|
            #[trigger] a.valid_op(o) ==> (a.opn(o).opcode == COPY) == (b.opn(o).opcode == COPY)
                && a.opn(o).inputs == b.opn(o).inputs,
    ensures
        copies_to_constant(a, v, fuel) == copies_to_constant(b, v, fuel),
    decreases fuel,
{
    if !a.vn(v).flags.constant && fuel > 0 {
        assert(a.vn_wf(v));
        if let Some(df) = a.vn(v).def {
            assert(a.op_wf(df));
            if a.opn(df).inputs@.len() > 0 {
                assert(a.opn(df).inputs@[0].0 < a.vns().len());
                lemma_copies_frame(a, b, a.opn(df).inputs@[0], (fuel - 1) as nat);
            }
        }
    }
}

fn reaches_constant(data: &Funcdata, value: VarnodeId) -> (r: bool)
    requires
        data.wf(),
        data.valid_vn(value),
    ensures
        r == copies_to_constant(data, value, data.vns().len()),
{
    let mut target = value;
    let mut fuel: usize = data.varnode_count();
    loop
        invariant
            data.wf(),
            data.valid_vn(target),
            copies_to_constant(data, target, fuel as nat) == copies_to_constant(data, value, data.vns().len()),
        decreases fuel,
    {
        if data.varnode(target).flags.constant {
            return true;
        }
        if fuel == 0 {
            return false;
        }
        proof {
            assert(data.vn_wf(target));
        }
        let Some(definition) = data.varnode(target).def else {
            return false;
        };
        let operation = data.op(definition);
        if operation.opcode != COPY || operation.inputs.len() == 0 {
            return false;
        }
        proof {
            assert(data.op_wf(definition));
        }
        target = operation.inputs[0];
        fuel -= 1;
    }
}

/// Turns each indirect call whose target is a constant, possibly behind
/// copies, into a direct call.
pub struct ActionDeindirect;

impl Action for ActionDeindirect {
    open spec fn title(&self) -> Seq<char> {
        "deindirect"@
    }

    fn name(&self) -> (r: &'static str) {
        "deindirect"
    }

    open spec fn reports(&self, pre: Funcdata, post: Funcdata, changes: usize) -> bool {
        changes == constant_indirect_count(&pre, pre.opv().len() as int)
    }

    fn apply(&self, data: &mut Funcdata) -> (changes: usize)
        ensures
            final(data).opv().len() == old(data).opv().len(),
            forall|o: OpId| #[trigger] old(data).valid_op(o) ==> final(data).opn(o) == deindirected(&*old(data), o),
            final(data).vns() == old(data).vns(),
            final(data).bls() == old(data).bls(),
            changes == constant_indirect_count(&*old(data), old(data).opv().len() as int),
            forall|o: OpId| #[trigger] final(data).valid_op(o) ==> !constant_indirect(&*final(data), o),
    {
        let ghost pre = *data;
        let count = crate::graph::Funcdata::op_arena_len(data);
        let mut changed: usize = 0;
        let mut i: usize = 0;
        while i < count
            invariant
                pre.wf(),
                data.wf(),
                count == pre.opv().len(),
                i <= count,
                data.opv().len() == pre.opv().len(),
                data.vns() == pre.vns(),
                data.bls() == pre.bls(),
                arenas_grow(&pre, &*data),
                forall|o: OpId|
                    #[trigger] pre.valid_op(o) ==> data.opn(o) == (if o.0 < i {
                        deindirected(&pre, o)
                    } else {
                        pre.opn(o)
                    }),
                changed == constant_indirect_count(&pre, i as int),
                changed <= i,
            decreases count - i,
        {
            let call = OpId(i as u32);
            let operation = data.op(call);
            let ghost before = *data;
            proof {
                assert(call.0 == i);
                assert(pre.valid_op(call));
                assert(data.opn(call) == pre.opn(call));
                assert forall|o: OpId| #[trigger] pre.valid_op(o) implies (pre.opn(o).opcode == COPY) == (data.opn(
                    o,
                ).opcode == COPY) && pre.opn(o).inputs == data.opn(o).inputs by {
                    if o.0 < i {
                        assert(pre.opn(o).opcode != CALLIND || !constant_indirect(&pre, o) || pre.opn(o).opcode
                            != COPY);
                    }
                }
            }
            if !operation.dead && operation.opcode == CALLIND && operation.inputs.len() > 0 {
                let target = operation.inputs[0];
                proof {
                    assert(pre.op_wf(call));
                    lemma_copies_frame(&pre, &before, target, pre.vns().len());
                }
                if reaches_constant(data, target) {
                    data.op_set_opcode(call, CALL);
                    changed += 1;
                }
            }
            proof {
                assert forall|o: OpId| #[trigger] pre.valid_op(o) implies data.opn(o) == (if o.0 < i + 1 {
                    deindirected(&pre, o)
                } else {
                    pre.opn(o)
                }) by {
                    if o != call {
                        assert(data.opn(o) == before.opn(o));
                    }
                }
            }
            i += 1;
        }
        proof {
            assert forall|o: OpId| #[trigger] pre.valid_op(o) implies (pre.opn(o).opcode == COPY) == (data.opn(o).opcode
                == COPY) && pre.opn(o).inputs == data.opn(o).inputs by {}
            assert forall|o: OpId| #[trigger] data.valid_op(o) implies !constant_indirect(&*data, o) by {
                assert(pre.valid_op(o));
                if !constant_indirect(&pre, o) && pre.opn(o).inputs@.len() > 0 {
                    assert(pre.op_wf(o));
                    lemma_copies_frame(&pre, &*data, pre.opn(o).inputs@[0], pre.vns().len());
                }
            }
        }
        changed
    }
}

/// The pointer of operation `o` when it is a live load from a constant
/// address.
pub open spec fn constant_pointer(d: &Funcdata, o: OpId) -> Option<VarnodeId> {
    let op = d.opn(o);
    if !op.dead && op.opcode == LOAD && op.inputs@.len() >= 2 && d.vn(op.inputs@[1]).flags.constant {
        Some(op.inputs@[1])
    } else {
        None
    }
}

/// Some live load among the first `n` slots reads its address from `v`.
pub open spec fn pointer_among(d: &Funcdata, v: VarnodeId, n: int) -> bool {
    exists|k: int| 0 <= k < n && #[trigger] constant_pointer(d, OpId(k as u32)) == Some(v)
}

/// `targets` names `x`.
pub open spec fn lists(targets: Seq<(VarnodeId, u64)>, x: VarnodeId) -> bool {
    exists|k: int| 0 <= k < targets.len() && (#[trigger] targets[k]).0 == x
}

/// The values some live load takes a constant address from.
pub open spec fn pointer_values(d: &Funcdata) -> Set<VarnodeId> {
    Set::new(|v: VarnodeId| pointer_among(d, v, d.opv().len() as int))
}

/// `targets` lists values in strictly increasing identifier order, each with
/// its constant address.
pub open spec fn pointer_list(d: &Funcdata, targets: Seq<(VarnodeId, u64)>) -> bool {
    &&& forall|a: int, b: int| 0 <= a < b < targets.len() ==> (#[trigger] targets[a]).0.0 < (#[trigger] targets[b]).0.0
    &&& forall|k: int| 0 <= k < targets.len() ==> (#[trigger] targets[k]).1 == d.vn(targets[k].0).offset
}

/// Adds `v` to the sorted list, unless it is there already.
fn insert_target(data: &Funcdata, targets: &mut Vec<(VarnodeId, u64)>, v: VarnodeId)
    requires
        data.valid_vn(v),
        pointer_list(data, old(targets)@),
    ensures
        pointer_list(data, final(targets)@),
        forall|x: VarnodeId| #[trigger] lists(final(targets)@, x) <==> (x == v || lists(old(targets)@, x)),
{
    let mut p: usize = 0;
    while p < targets.len() && targets[p].0.0 < v.0
        invariant
            p <= targets@.len(),
            forall|k: int| 0 <= k < p ==> (#[trigger] targets@[k]).0.0 < v.0,
        decreases targets@.len() - p,
    {
        p += 1;
    }
    if p < targets.len() && targets[p].0.0 == v.0 {
        proof {
            assert(targets@[p as int].0 == v);
        }
        return;
    }
    let ghost before = targets@;
    let address = data.varnode(v).offset;
    targets.insert(p, (v, address));
    proof {
        assert forall|a: int, b: int| 0 <= a < b < targets@.len() implies (#[trigger] targets@[a]).0.0 < (#[trigger] targets@[b]).0.0 by {
            if b < p {
                assert(targets@[a] == before[a] && targets@[b] == before[b]);
            } else if b == p {
                assert(targets@[a] == before[a]);
            } else if a == p {
                assert(targets@[b] == before[b - 1]);
                assert(before[b - 1].0.0 >= v.0);
                assert(before[b - 1].0.0 != v.0 || b - 1 == p as int);
                if b - 1 > p {
                    assert(before[p as int].0.0 < before[b - 1].0.0);
                }
            } else if a < p {
                assert(targets@[a] == before[a] && targets@[b] == before[b - 1]);
            } else {
                assert(targets@[a] == before[a - 1] && targets@[b] == before[b - 1]);
            }
        }
        assert forall|k: int| 0 <= k < targets@.len() implies (#[trigger] targets@[k]).1 == data.vn(targets@[k].0).offset by {
            if k < p {
                assert(targets@[k] == before[k]);
            } else if k > p {
                assert(targets@[k] == before[k - 1]);
            }
        }
        assert forall|x: VarnodeId| #[trigger] lists(targets@, x) <==> (x == v || lists(before, x)) by {
            if lists(targets@, x) {
                let k = choose|k: int| 0 <= k < targets@.len() && (#[trigger] targets@[k]).0 == x;
                if k < p {
                    assert(targets@[k] == before[k]);
                } else if k > p {
                    assert(targets@[k] == before[k - 1]);
                }
            }
            if x == v {
                assert(targets@[p as int].0 == x);
            } else if lists(before, x) {
                let k = choose|k: int| 0 <= k < before.len() && (#[trigger] before[k]).0 == x;
                if k < p {
                    assert(targets@[k] == before[k]);
                } else {
                    assert(targets@[k + 1] == before[k]);
                }
            }
        }
    }
}

/// Every value a live load takes a constant address from, with that
/// address, in increasing identifier order and each once.
pub fn constant_pointer_targets(data: &Funcdata) -> (r: Vec<(VarnodeId, u64)>)
    requires
        data.wf(),
    ensures
        pointer_list(data, r@),
        forall|v: VarnodeId| #[trigger] lists(r@, v) <==> pointer_among(data, v, data.opv().len() as int),
{
    let mut targets: Vec<(VarnodeId, u64)> = Vec::new();
    let count = crate::graph::Funcdata::op_arena_len(data);
    let mut i: usize = 0;
    while i < count
        invariant
            data.wf(),
            count == data.opv().len(),
            i <= count,
            pointer_list(data, targets@),
            forall|v: VarnodeId| #[trigger] lists(targets@, v) <==> pointer_among(data, v, i as int),
        decreases count - i,
    {
        let o = OpId(i as u32);
        let operation = data.op(o);
        let ghost before = targets@;
        proof {
            assert(data.op_wf(o));
        }
        if !operation.dead && operation.opcode == LOAD && operation.inputs.len() >= 2 && data.varnode(
            operation.inputs[1],
        ).flags.constant {
            insert_target(data, &mut targets, operation.inputs[1]);
        }
        proof {
            assert forall|v: VarnodeId| #[trigger] lists(targets@, v) <==> pointer_among(data, v, i as int + 1) by {
                if pointer_among(data, v, i as int + 1) && !pointer_among(data, v, i as int) {
                    let k = choose|k: int| 0 <= k < i + 1 && #[trigger] constant_pointer(data, OpId(k as u32)) == Some(v);
                    assert(k == i);
                }
                if pointer_among(data, v, i as int) {
                    let k = choose|k: int| 0 <= k < i && #[trigger] constant_pointer(data, OpId(k as u32)) == Some(v);
                    assert(0 <= k < i + 1 && constant_pointer(data, OpId(k as u32)) == Some(v));
                }
                if constant_pointer(data, o) == Some(v) {
                    assert(0 <= i < i + 1 && constant_pointer(data, OpId(i as u32)) == Some(v));
                }
            }
        }
        i += 1;
    }
    targets
}

/// Counts the constant load addresses a printer will name as globals.
pub struct ActionConstantPtr;

impl Action for ActionConstantPtr {
    open spec fn title(&self) -> Seq<char> {
        "constant-pointer"@
    }

    fn name(&self) -> (r: &'static str) {
        "constant-pointer"
    }

    open spec fn reports(&self, pre: Funcdata, post: Funcdata, changes: usize) -> bool {
        changes == pointer_values(&pre).len()
    }

    fn apply(&self, data: &mut Funcdata) -> (changes: usize)
        ensures
            *final(data) == *old(data),
            changes == pointer_values(&*old(data)).len(),
    {
        let targets = constant_pointer_targets(data);
        proof {
            let ids = targets@.map_values(|p: (VarnodeId, u64)| p.0);
            assert(ids.no_duplicates()) by {
                assert forall|a: int, b: int| 0 <= a < ids.len() && 0 <= b < ids.len() && a != b implies ids[a] != ids[b] by {
                    if a < b {
                        assert(targets@[a].0.0 < targets@[b].0.0);
                    } else {
                        assert(targets@[b].0.0 < targets@[a].0.0);
                    }
                }
            }
            assert(ids.to_set() =~= pointer_values(&*data)) by {
                assert forall|v: VarnodeId| ids.to_set().contains(v) <==> pointer_values(&*data).contains(v) by {
                    if ids.contains(v) {
                        let k = choose|k: int| 0 <= k < ids.len() && ids[k] == v;
                        assert(targets@[k].0 == v);
                    }
                    if lists(targets@, v) {
                        let k = choose|k: int| 0 <= k < targets@.len() && (#[trigger] targets@[k]).0 == v;
                        assert(ids[k] == v);
                    }
                }
            }
            ids.unique_seq_to_set();
        }
        targets.len()
    }
}

} // verus!
