//! Stack-pointer alias analysis.
//!
//! The incoming frame-base value is followed forward through the additive
//! operators. Where an additive chain reaches a non-additive use, the chain's
//! result is an [`AddBase`] and its constant displacement is an alias start.
//! `has_local_alias` then applies a conservative stack boundary rule: on a
//! downward-growing stack, everything at or above the shallowest local alias
//! may be reached through a pointer.

use vstd::prelude::*;

use crate::graph::{Funcdata, VarnodeId, count_false, lemma_count_false_set, ops_below};
use crate::pcode::{COPY, INT_ADD, INT_SUB, Location, PTRADD, PTRSUB, SEGMENTOP};

verus! {

/// All bits of a value of `size` bytes.
pub open spec fn size_mask(size: u32) -> u64 {
    if size == 0 {
        0
    } else if size <= 7 {
        ((1u64 << ((size * 8) as u64)) - 1) as u64
    } else {
        u64::MAX
    }
}

fn mask_for_size(size: u32) -> (r: u64)
    ensures
        r == size_mask(size),
{
    if size == 0 {
        0
    } else if size <= 7 {
        let shift: u64 = (size * 8) as u64;
        assert(1u64 << shift >= 1) by (bit_vector)
            requires
                shift < 64,
        ;
        (1u64 << shift) - 1
    } else {
        u64::MAX
    }
}

/// The constant displacement of the additive expression computing `v`,
/// truncated to its size. Values on the `active` path of the walk read as
/// zero, which cuts a cyclic definition short; so does an unknown
/// definition.
pub open spec fn offset_of(d: &Funcdata, v: VarnodeId, active: Seq<bool>) -> u64
    decreases count_false(active, active.len() as int),
{
    if !(0 <= v.0 < active.len()) || active.len() != d.vns().len() || active[v.0 as int] {
        0
    } else {
        let next = active.update(v.0 as int, true);
        proof {
            lemma_count_false_set(active, v.0 as int, active.len() as int);
        }
        let node = d.vn(v);
        let raw: u64 = if node.flags.constant {
            node.offset
        } else {
            match node.def {
                None => 0,
                Some(def) => {
                    let o = d.opn(def);
                    let len = o.inputs@.len();
                    let first: u64 = if len > 0 { offset_of(d, o.inputs@[0], next) } else { 0 };
                    let second: u64 = if len > 1 { offset_of(d, o.inputs@[1], next) } else { 0 };
                    if o.opcode == COPY {
                        first
                    } else if o.opcode == PTRSUB || o.opcode == INT_ADD {
                        first.wrapping_add(second)
                    } else if o.opcode == INT_SUB {
                        first.wrapping_sub(second)
                    } else if o.opcode == PTRADD {
                        if len > 2 {
                            let index = o.inputs@[1];
                            let scale = d.vn(o.inputs@[2]).offset;
                            if d.vn(index).flags.constant {
                                first.wrapping_add(d.vn(index).offset.wrapping_mul(scale))
                            } else if scale == 1 {
                                first.wrapping_add(second)
                            } else {
                                first
                            }
                        } else {
                            first
                        }
                    } else if o.opcode == SEGMENTOP {
                        if len > 2 { offset_of(d, o.inputs@[2], next) } else { 0 }
                    } else {
                        0
                    }
                },
            }
        };
        raw & size_mask(node.size)
    }
}

/// Sums the constant portion of the additive expression computing `value`.
fn gather_offset(data: &Funcdata, value: VarnodeId, active: &mut Vec<bool>) -> (r: u64)
    requires
        data.wf(),
        old(active)@.len() == data.vns().len(),
        data.valid_vn(value),
    ensures
        r == offset_of(data, value, old(active)@),
        final(active)@ == old(active)@,
    decreases count_false(old(active)@, old(active)@.len() as int),
{
    let index = value.0 as usize;
    if active[index] {
        return 0;
    }
    let ghost start = active@;
    active.set(index, true);
    proof {
        lemma_count_false_set(start, index as int, start.len() as int);
    }
    let node = data.varnode(value);
    let raw: u64 = if node.flags.constant {
        node.offset
    } else {
        match node.def {
            None => 0,
            Some(def) => {
                proof {
                    assert(data.vn_wf(value));
                    assert(data.op_wf(def));
                }
                let operation = data.op(def);
                let len = operation.inputs.len();
                proof {
                    if len > 0 {
                        assert(operation.inputs@[0].0 < data.vns().len());
                    }
                    if len > 1 {
                        assert(operation.inputs@[1].0 < data.vns().len());
                    }
                    if len > 2 {
                        assert(operation.inputs@[2].0 < data.vns().len());
                    }
                }
                let opcode = operation.opcode;
                if opcode == COPY {
                    if len > 0 { gather_offset(data, operation.inputs[0], active) } else { 0 }
                } else if opcode == PTRSUB || opcode == INT_ADD || opcode == INT_SUB {
                    let first = if len > 0 { gather_offset(data, operation.inputs[0], active) } else { 0 };
                    let second = if len > 1 { gather_offset(data, operation.inputs[1], active) } else { 0 };
                    if opcode == INT_SUB { first.wrapping_sub(second) } else { first.wrapping_add(second) }
                } else if opcode == PTRADD {
                    let first = if len > 0 { gather_offset(data, operation.inputs[0], active) } else { 0 };
                    if len > 2 {
                        let index_value = operation.inputs[1];
                        let scale = data.varnode(operation.inputs[2]).offset;
                        if data.varnode(index_value).flags.constant {
                            first.wrapping_add(data.varnode(index_value).offset.wrapping_mul(scale))
                        } else if scale == 1 {
                            let second = gather_offset(data, index_value, active);
                            first.wrapping_add(second)
                        } else {
                            first
                        }
                    } else {
                        first
                    }
                } else if opcode == SEGMENTOP {
                    if len > 2 { gather_offset(data, operation.inputs[2], active) } else { 0 }
                } else {
                    0
                }
            },
        }
    };
    active.set(index, false);
    proof {
        assert(active@ =~= start);
    }
    raw & mask_for_size(node.size)
}

/// A pointer result reached through an additive expression rooted at the
/// incoming frame base, with the most recent non-constant additive term as
/// its index (`None` when the chain adds constants only).
#[derive(Copy, Clone, Debug, PartialEq, Eq, Structural)]
pub struct AddBase {
    /// Final value of the additive pointer chain.
    pub base: VarnodeId,
    /// Non-constant index carried by the chain, when there is one.
    pub index: Option<VarnodeId>,
}

/// One of `bases` ends at `v`.
pub open spec fn holds_base(bases: Seq<AddBase>, v: VarnodeId) -> bool {
    exists|k: int| 0 <= k < bases.len() && #[trigger] bases[k].base == v
}

/// `v` is among the first `n` entries of the walk's queue.
pub open spec fn queued(queue: Seq<(VarnodeId, Option<VarnodeId>)>, n: int, v: VarnodeId) -> bool {
    exists|k: int| 0 <= k < n && #[trigger] queue[k].0 == v
}

/// Operation `o`, reading `v`, carries the additive chain on to its result.
pub open spec fn carries(v: VarnodeId, o: crate::graph::GraphOp) -> bool {
    ||| o.opcode == COPY
    ||| (o.opcode == INT_SUB && o.inputs@.len() >= 2 && o.inputs@[1] != v)
    ||| ((o.opcode == INT_ADD || o.opcode == PTRADD) && o.inputs@.len() >= 2)
    ||| o.opcode == PTRSUB
    ||| o.opcode == SEGMENTOP
}

/// Operation `o` uses `v` as something other than a step of the chain: a
/// terminal observation of the pointer.
pub open spec fn ends_chain(v: VarnodeId, o: crate::graph::GraphOp) -> bool {
    ||| o.opcode == COPY
    ||| (o.opcode == INT_SUB && (o.inputs@.len() < 2 || o.inputs@[1] == v))
    ||| ((o.opcode == INT_ADD || o.opcode == PTRADD) && o.inputs@.len() < 2)
    ||| !(o.opcode == COPY || o.opcode == INT_SUB || o.opcode == INT_ADD || o.opcode == PTRADD || o.opcode == PTRSUB
        || o.opcode == SEGMENTOP)
}

/// `w` is the result of a live additive use of `v`.
pub open spec fn additive_step(d: &Funcdata, v: VarnodeId, w: VarnodeId) -> bool {
    exists|k: int|
        0 <= k < d.vn(v).descendants@.len() && {
            let o = #[trigger] d.vn(v).descendants@[k];
            &&& !d.opn(o).dead
            &&& carries(v, d.opn(o))
            &&& d.opn(o).output == Some(w)
        }
}

/// `v` has a live use that ends the additive chain.
pub open spec fn chain_end(d: &Funcdata, v: VarnodeId) -> bool {
    exists|k: int|
        0 <= k < d.vn(v).descendants@.len() && {
            let o = #[trigger] d.vn(v).descendants@[k];
            &&& !d.opn(o).dead
            &&& ends_chain(v, d.opn(o))
        }
}

/// Step `i` of `p` is an additive step.
pub open spec fn chain_step(d: &Funcdata, p: Seq<VarnodeId>, i: int) -> bool {
    additive_step(d, p[i], p[i + 1])
}

/// `p` is an additive chain starting at `start`.
pub open spec fn chain_path(d: &Funcdata, start: VarnodeId, p: Seq<VarnodeId>) -> bool {
    &&& p.len() > 0
    &&& p[0] == start
    &&& forall|i: int| 0 <= i < p.len() - 1 ==> #[trigger] chain_step(d, p, i)
}

/// The index a chain carries after the first `n` readers of `v`, starting
/// from `carried`: a live subtraction of a non-constant value, or a live
/// addition of one, makes that value the index.
pub open spec fn index_scan(d: &Funcdata, v: VarnodeId, carried: Option<VarnodeId>, n: int) -> Option<VarnodeId>
    decreases n,
{
    if n <= 0 {
        carried
    } else {
        let prev = index_scan(d, v, carried, n - 1);
        let o = d.opn(d.vn(v).descendants@[n - 1]);
        if o.dead {
            prev
        } else if o.opcode == INT_SUB && o.inputs@.len() >= 2 && o.inputs@[1] != v {
            if !d.vn(o.inputs@[1]).flags.constant {
                Some(o.inputs@[1])
            } else {
                prev
            }
        } else if (o.opcode == INT_ADD || o.opcode == PTRADD) && o.inputs@.len() >= 2 {
            let other = if o.inputs@[1] == v {
                o.inputs@[0]
            } else {
                o.inputs@[1]
            };
            if !d.vn(other).flags.constant {
                Some(other)
            } else {
                prev
            }
        } else {
            prev
        }
    }
}

/// `p` is an additive chain from `start` whose step `i` goes through reader
/// `js[i]` of `p[i]`, and `cs[i]` is the index the chain carries into `p[i]`.
pub open spec fn carry_path(
    d: &Funcdata,
    start: VarnodeId,
    p: Seq<VarnodeId>,
    js: Seq<int>,
    cs: Seq<Option<VarnodeId>>,
) -> bool {
    &&& p.len() > 0
    &&& p[0] == start
    &&& cs.len() == p.len()
    &&& js.len() + 1 == p.len()
    &&& cs[0] is None
    &&& forall|i: int|
        0 <= i < p.len() - 1 ==> {
            &&& 0 <= #[trigger] js[i] < d.vn(p[i]).descendants@.len()
            &&& !d.opn(d.vn(p[i]).descendants@[js[i]]).dead
            &&& carries(p[i], d.opn(d.vn(p[i]).descendants@[js[i]]))
            &&& d.opn(d.vn(p[i]).descendants@[js[i]]).output == Some(p[i + 1])
            &&& cs[i + 1] == index_scan(d, p[i], cs[i], js[i] + 1)
        }
}

/// Some additive chain from `start` to `v` carries the index `c` into `v`.
pub open spec fn carried_index(d: &Funcdata, start: VarnodeId, v: VarnodeId, c: Option<VarnodeId>) -> bool {
    exists|p: Seq<VarnodeId>, js: Seq<int>, cs: Seq<Option<VarnodeId>>|
        #[trigger] carry_path(d, start, p, js, cs) && p.last() == v && cs.last() == c
}

/// The index recorded with base `b`: what a chain carries into it, updated
/// by every reader of `b`.
pub open spec fn base_index(d: &Funcdata, start: VarnodeId, b: AddBase) -> bool {
    exists|c: Option<VarnodeId>|
        carried_index(d, start, b.base, c) && b.index == #[trigger] index_scan(d, b.base, c, d.vn(b.base).descendants@.len() as int)
}

/// `v` is computed from `start` by additive steps.
pub open spec fn chained_from(d: &Funcdata, start: VarnodeId, v: VarnodeId) -> bool {
    exists|p: Seq<VarnodeId>| #[trigger] chain_path(d, start, p) && p.last() == v
}

proof fn lemma_chain_push(d: &Funcdata, start: VarnodeId, p: Seq<VarnodeId>, w: VarnodeId)
    requires
        chain_path(d, start, p),
        additive_step(d, p.last(), w),
    ensures
        chain_path(d, start, p.push(w)),
        p.push(w).last() == w,
{
    let q = p.push(w);
    assert forall|i: int| 0 <= i < q.len() - 1 implies #[trigger] chain_step(d, q, i) by {
        if i < p.len() - 1 {
            assert(chain_step(d, p, i));
            assert(q[i] == p[i] && q[i + 1] == p[i + 1]);
        } else {
            assert(q[i] == p.last() && q[i + 1] == w);
        }
    }
}

proof fn lemma_step_valid(d: &Funcdata, v: VarnodeId, w: VarnodeId)
    requires
        d.wf(),
        d.valid_vn(v),
        additive_step(d, v, w),
    ensures
        d.valid_vn(w),
{
    assert(d.vn_wf(v));
    let k = choose|k: int|
        0 <= k < d.vn(v).descendants@.len() && {
            let o = #[trigger] d.vn(v).descendants@[k];
            &&& !d.opn(o).dead
            &&& carries(v, d.opn(o))
            &&& d.opn(o).output == Some(w)
        };
    let o = d.vn(v).descendants@[k];
    assert(d.vn(v).descendants@[k].0 < d.opv().len());
    assert(d.op_wf(o));
}

/// A set of values closed under additive steps and holding `start` holds
/// every value chained from it.
proof fn lemma_closed_chain(d: &Funcdata, start: VarnodeId, seen: Seq<bool>, p: Seq<VarnodeId>)
    requires
        d.wf(),
        d.valid_vn(start),
        seen.len() == d.vns().len(),
        seen[start.0 as int],
        forall|x: VarnodeId, w: VarnodeId|
            d.valid_vn(x) && #[trigger] seen[x.0 as int] && #[trigger] additive_step(d, x, w) ==> seen[w.0 as int],
        chain_path(d, start, p),
    ensures
        d.valid_vn(p.last()),
        seen[p.last().0 as int],
    decreases p.len(),
{
    if p.len() > 1 {
        let q = p.drop_last();
        assert forall|i: int| 0 <= i < q.len() - 1 implies #[trigger] chain_step(d, q, i) by {
            assert(chain_step(d, p, i));
            assert(q[i] == p[i] && q[i + 1] == p[i + 1]);
        }
        lemma_closed_chain(d, start, seen, q);
        assert(chain_step(d, p, p.len() - 2));
        assert(q.last() == p[p.len() - 2]);
        lemma_step_valid(d, q.last(), p.last());
    }
}

/// Walks forward through the additive uses of `start`, breadth first, and
/// records each value of the chain that some use observes as a pointer.
fn gather_additive_base(data: &Funcdata, start: VarnodeId) -> (bases: Vec<AddBase>)
    requires
        data.wf(),
        data.valid_vn(start),
    ensures
        forall|v: VarnodeId| #[trigger] holds_base(bases@, v) <==> (chained_from(data, start, v) && chain_end(data, v)),
        forall|i: int, j: int| 0 <= i < j < bases@.len() ==> #[trigger] bases@[i].base != #[trigger] bases@[j].base,
        forall|k: int| 0 <= k < bases@.len() ==> base_index(data, start, #[trigger] bases@[k]),
{
    let n = data.varnode_count();
    let mut seen: Vec<bool> = Vec::new();
    let mut fill: usize = 0;
    while fill < n
        invariant
            n == data.vns().len(),
            fill <= n,
            seen@.len() == fill,
            forall|k: int| 0 <= k < fill ==> !seen@[k],
        decreases n - fill,
    {
        seen.push(false);
        fill += 1;
    }
    let mut queue: Vec<(VarnodeId, Option<VarnodeId>)> = Vec::new();
    queue.push((start, None));
    seen.set(start.0 as usize, true);
    let mut bases: Vec<AddBase> = Vec::new();
    let mut cursor: usize = 0;
    proof {
        assert(carry_path(data, start, seq![start], Seq::<int>::empty(), seq![None::<VarnodeId>]));
        assert(carried_index(data, start, queue@[0].0, queue@[0].1));
        assert(chain_path(data, start, seq![start]));
        assert(seq![start].last() == start);
        assert forall|v: VarnodeId| data.valid_vn(v) implies (#[trigger] seen@[v.0 as int] <==> exists|k: int|
            0 <= k < queue@.len() && queue@[k].0 == v) by {
            if seen@[v.0 as int] {
                assert(v == start);
                assert(queue@[0].0 == v);
            }
        }
    }
    while cursor < queue.len()
        invariant
            data.wf(),
            n == data.vns().len(),
            data.valid_vn(start),
            seen@.len() == n,
            cursor <= queue@.len(),
            queue@.len() > 0,
            queue@[0].0 == start,
            forall|k: int| 0 <= k < queue@.len() ==> data.valid_vn(#[trigger] queue@[k].0),
            forall|k: int| 0 <= k < queue@.len() ==> chained_from(data, start, #[trigger] queue@[k].0),
            forall|i: int, j: int| 0 <= i < j < queue@.len() ==> #[trigger] queue@[i].0 != #[trigger] queue@[j].0,
            forall|v: VarnodeId| data.valid_vn(v) ==> (#[trigger] seen@[v.0 as int] <==> exists|k: int|
                0 <= k < queue@.len() && queue@[k].0 == v),
            forall|k: int, w: VarnodeId| 0 <= k < cursor && #[trigger] additive_step(data, queue@[k].0, w) ==> #[trigger] seen@[w.0 as int],
            forall|v: VarnodeId| #[trigger] holds_base(bases@, v) <==> (queued(queue@, cursor as int, v) && chain_end(data, v)),
            forall|i: int, j: int| 0 <= i < j < bases@.len() ==> #[trigger] bases@[i].base != #[trigger] bases@[j].base,
            forall|k: int| 0 <= k < bases@.len() ==> exists|m: int| 0 <= m < cursor && queue@[m].0 == #[trigger] bases@[k].base,
            forall|k: int| 0 <= k < queue@.len() ==> carried_index(data, start, (#[trigger] queue@[k]).0, queue@[k].1),
            forall|k: int| 0 <= k < bases@.len() ==> base_index(data, start, #[trigger] bases@[k]),
        decreases n - cursor,
    {
        let (value, carried) = queue[cursor];
        proof {
            assert(data.vn_wf(value));
            assert(queue@.len() <= n) by {
                lemma_distinct_valid_bound(data, queue@);
            }
        }
        let mut index = carried;
        proof {
            assert(carried_index(data, start, queue@[cursor as int].0, queue@[cursor as int].1));
        }
        let mut terminal = false;
        let descendants = &data.varnode(value).descendants;
        let ghost q0 = queue@;
        let mut j: usize = 0;
        while j < descendants.len()
            invariant
                data.wf(),
                n == data.vns().len(),
                data.valid_vn(start),
                data.valid_vn(value),
                *descendants == data.vn(value).descendants,
                ops_below(descendants@, data.opv().len() as int),
                value == q0[cursor as int].0,
                cursor < q0.len(),
                j <= descendants@.len(),
                seen@.len() == n,
                queue@.len() >= q0.len(),
                queue@.subrange(0, q0.len() as int) == q0,
                queue@[0].0 == start,
                forall|k: int| 0 <= k < queue@.len() ==> data.valid_vn(#[trigger] queue@[k].0),
                forall|k: int| 0 <= k < queue@.len() ==> chained_from(data, start, #[trigger] queue@[k].0),
                forall|i: int, i2: int| 0 <= i < i2 < queue@.len() ==> #[trigger] queue@[i].0 != #[trigger] queue@[i2].0,
                forall|v: VarnodeId| data.valid_vn(v) ==> (#[trigger] seen@[v.0 as int] <==> exists|k: int|
                    0 <= k < queue@.len() && queue@[k].0 == v),
                forall|k: int, w: VarnodeId| 0 <= k < cursor && #[trigger] additive_step(data, q0[k].0, w) ==> #[trigger] seen@[w.0 as int],
                forall|k: int|
                    0 <= k < j ==> {
                        let o = #[trigger] descendants@[k];
                        (!data.opn(o).dead && carries(value, data.opn(o)) && data.opn(o).output is Some) ==> seen@[data.opn(
                            o,
                        ).output.unwrap().0 as int]
                    },
                terminal <==> exists|k: int|
                    0 <= k < j && {
                        let o = #[trigger] descendants@[k];
                        !data.opn(o).dead && ends_chain(value, data.opn(o))
                    },
                forall|k: int| 0 <= k < queue@.len() ==> carried_index(data, start, (#[trigger] queue@[k]).0, queue@[k].1),
                carried_index(data, start, value, carried),
                index == index_scan(data, value, carried, j as int),
            decreases descendants@.len() - j,
        {
            let op_id = descendants[j];
            proof {
                assert(descendants@[j as int].0 < data.opv().len());
                assert(data.op_wf(op_id));
            }
            let operation = data.op(op_id);
            let ghost qb = queue@;
            let ghost sb = seen@;
            let mut push_output = false;
            if !operation.dead {
                let opcode = operation.opcode;
                if opcode == COPY {
                    terminal = true;
                    push_output = true;
                } else if opcode == INT_SUB {
                    if operation.inputs.len() < 2 {
                        terminal = true;
                    } else {
                        let right = operation.inputs[1];
                        if right == value {
                            terminal = true;
                        } else {
                            proof {
                                assert(operation.inputs@[1].0 < n);
                            }
                            if !data.varnode(right).flags.constant {
                                index = Some(right);
                            }
                            push_output = true;
                        }
                    }
                } else if opcode == INT_ADD || opcode == PTRADD {
                    if operation.inputs.len() < 2 {
                        terminal = true;
                    } else {
                        let left = operation.inputs[0];
                        let right = operation.inputs[1];
                        let other = if right == value { left } else { right };
                        proof {
                            assert(operation.inputs@[0].0 < n);
                            assert(operation.inputs@[1].0 < n);
                        }
                        if !data.varnode(other).flags.constant {
                            index = Some(other);
                        }
                        push_output = true;
                    }
                } else if opcode == PTRSUB || opcode == SEGMENTOP {
                    push_output = true;
                } else {
                    terminal = true;
                }
            }
            if push_output {
                if let Some(output) = operation.output {
                    if !seen[output.0 as usize] {
                        seen.set(output.0 as usize, true);
                        queue.push((output, index));
                        proof {
                            let ghost q = queue@;
                            assert(descendants@[j as int] == op_id);
                            assert(additive_step(data, value, output));
                            let p = choose|p: Seq<VarnodeId>| #[trigger] chain_path(data, start, p) && p.last() == value;
                            lemma_chain_push(data, start, p, output);
                            assert forall|k: int| 0 <= k < q.len() implies chained_from(data, start, #[trigger] q[k].0) by {
                                if k < qb.len() {
                                    assert(q[k] == qb[k]);
                                }
                            }
                            assert forall|k: int| 0 <= k < q.len() implies data.valid_vn(#[trigger] q[k].0) by {
                                if k < qb.len() {
                                    assert(q[k] == qb[k]);
                                }
                            }
                            assert forall|i: int, i2: int| 0 <= i < i2 < q.len() implies #[trigger] q[i].0 != #[trigger] q[i2].0 by {
                                if i2 == q.len() - 1 {
                                    assert(q[i] == qb[i]);
                                    if q[i].0 == output {
                                        assert(exists|k: int| 0 <= k < qb.len() && qb[k].0 == output);
                                    }
                                } else {
                                    assert(q[i] == qb[i] && q[i2] == qb[i2]);
                                }
                            }
                            assert forall|v: VarnodeId| data.valid_vn(v) implies (#[trigger] seen@[v.0 as int] <==> exists|k: int|
                                0 <= k < q.len() && q[k].0 == v) by {
                                if v == output {
                                    assert(q[q.len() - 1].0 == output);
                                } else {
                                    if exists|k: int| 0 <= k < q.len() && q[k].0 == v {
                                        let k = choose|k: int| 0 <= k < q.len() && q[k].0 == v;
                                        assert(k < qb.len());
                                        assert(qb[k].0 == v);
                                    }
                                    if exists|k: int| 0 <= k < qb.len() && qb[k].0 == v {
                                        let k = choose|k: int| 0 <= k < qb.len() && qb[k].0 == v;
                                        assert(q[k].0 == v);
                                    }
                                }
                            }
                            assert(q.subrange(0, q0.len() as int) =~= q0) by {
                                assert(qb.subrange(0, q0.len() as int) == q0);
                                assert forall|k: int| 0 <= k < q0.len() implies q[k] == q0[k] by {
                                    assert(q[k] == qb[k]);
                                    assert(qb.subrange(0, q0.len() as int)[k] == q0[k]);
                                }
                            }
                            assert(q[0].0 == start) by {
                                assert(q[0] == qb[0]);
                            }
                            let (cp, cj, cc) = choose|cp: Seq<VarnodeId>, cj: Seq<int>, cc: Seq<Option<VarnodeId>>|
                                #[trigger] carry_path(data, start, cp, cj, cc) && cp.last() == value && cc.last() == carried;
                            let cp2 = cp.push(output);
                            let cj2 = cj.push(j as int);
                            let cc2 = cc.push(index);
                            assert(carry_path(data, start, cp2, cj2, cc2)) by {
                                assert forall|i: int| 0 <= i < cp2.len() - 1 implies {
                                    &&& 0 <= #[trigger] cj2[i] < data.vn(cp2[i]).descendants@.len()
                                    &&& !data.opn(data.vn(cp2[i]).descendants@[cj2[i]]).dead
                                    &&& carries(cp2[i], data.opn(data.vn(cp2[i]).descendants@[cj2[i]]))
                                    &&& data.opn(data.vn(cp2[i]).descendants@[cj2[i]]).output == Some(cp2[i + 1])
                                    &&& cc2[i + 1] == index_scan(data, cp2[i], cc2[i], cj2[i] + 1)
                                } by {
                                    if i < cp.len() - 1 {
                                        assert(cj2[i] == cj[i] && cp2[i] == cp[i] && cp2[i + 1] == cp[i + 1] && cc2[i] == cc[i] && cc2[i + 1] == cc[i + 1]);
                                    } else {
                                        assert(cp2[i] == value && cj2[i] == j && cc2[i] == carried && cc2[i + 1] == index && cp2[i + 1] == output);
                                    }
                                }
                            }
                            assert forall|k: int| 0 <= k < q.len() implies carried_index(data, start, (#[trigger] q[k]).0, q[k].1) by {
                                if k < qb.len() {
                                    assert(q[k] == qb[k]);
                                } else {
                                    assert(q[k] == (output, index));
                                    assert(cp2.last() == output && cc2.last() == index);
                                }
                            }
                        }
                    }
                }
            }
            proof {
                assert(descendants@[j as int] == op_id);
                assert forall|k: int, w: VarnodeId| 0 <= k < cursor && #[trigger] additive_step(data, q0[k].0, w) implies #[trigger] seen@[w.0 as int] by {
                    assert(sb[w.0 as int]);
                    assert(data.valid_vn(q0[k].0)) by {
                        assert(q0[k] == qb[k]) by {
                            assert(qb.subrange(0, q0.len() as int)[k] == q0[k]);
                        }
                    }
                    lemma_step_valid(data, q0[k].0, w);
                }
                assert forall|k: int|
                    0 <= k < j implies {
                        let o = #[trigger] descendants@[k];
                        (!data.opn(o).dead && carries(value, data.opn(o)) && data.opn(o).output is Some) ==> seen@[data.opn(
                            o,
                        ).output.unwrap().0 as int]
                    } by {
                    let o = descendants@[k];
                    if !data.opn(o).dead && carries(value, data.opn(o)) && data.opn(o).output is Some {
                        assert(sb[data.opn(o).output.unwrap().0 as int]);
                        assert(data.op_wf(o));
                    }
                }
                if !data.opn(op_id).dead && carries(value, data.opn(op_id)) && data.opn(op_id).output is Some {
                    assert(push_output);
                    let w = data.opn(op_id).output.unwrap();
                    assert(data.op_wf(op_id));
                    assert(seen@[w.0 as int]);
                }
                assert(terminal <==> exists|k: int|
                    0 <= k < j + 1 && {
                        let o = #[trigger] descendants@[k];
                        !data.opn(o).dead && ends_chain(value, data.opn(o))
                    }) by {
                    if !data.opn(op_id).dead && ends_chain(value, data.opn(op_id)) {
                        assert(terminal);
                    }
                }
            }
            j += 1;
        }
        let ghost b0 = bases@;
        if terminal {
            bases.push(AddBase { base: value, index });
        }
        proof {
            assert(terminal == chain_end(data, value));
            let q = queue@;
            assert forall|k: int| 0 <= k < q0.len() implies q[k] == q0[k] by {
                assert(q.subrange(0, q0.len() as int)[k] == q0[k]);
            }
            assert forall|k: int, w: VarnodeId| 0 <= k < cursor + 1 && #[trigger] additive_step(data, q[k].0, w) implies #[trigger] seen@[w.0 as int] by {
                if k < cursor {
                    assert(q[k] == q0[k]);
                } else {
                    assert(q[k].0 == value);
                    let m = choose|m: int|
                        0 <= m < data.vn(value).descendants@.len() && {
                            let o = #[trigger] data.vn(value).descendants@[m];
                            &&& !data.opn(o).dead
                            &&& carries(value, data.opn(o))
                            &&& data.opn(o).output == Some(w)
                        };
                    assert(descendants@[m] == data.vn(value).descendants@[m]);
                }
            }
            assert forall|v: VarnodeId| #[trigger] holds_base(bases@, v) <==> (queued(q, cursor + 1, v) && chain_end(data, v)) by {
                if holds_base(bases@, v) {
                    let k = choose|k: int| 0 <= k < bases@.len() && #[trigger] bases@[k].base == v;
                    if k < b0.len() {
                        assert(b0[k].base == v);
                        assert(holds_base(b0, v));
                        assert(queued(q0, cursor as int, v));
                        let m = choose|m: int| 0 <= m < cursor && #[trigger] q0[m].0 == v;
                        assert(q[m].0 == v);
                    } else {
                        assert(q[cursor as int].0 == v);
                    }
                }
                if queued(q, cursor + 1, v) && chain_end(data, v) {
                    let k = choose|k: int| 0 <= k < cursor + 1 && #[trigger] q[k].0 == v;
                    if k < cursor {
                        assert(q0[k].0 == v);
                        assert(queued(q0, cursor as int, v));
                        assert(holds_base(b0, v));
                        let m = choose|m: int| 0 <= m < b0.len() && #[trigger] b0[m].base == v;
                        assert(bases@[m].base == v);
                    } else {
                        assert(v == value);
                        assert(bases@[bases@.len() - 1].base == v);
                    }
                }
            }
            assert forall|k: int| 0 <= k < bases@.len() implies exists|m: int| 0 <= m < cursor + 1 && q[m].0 == #[trigger] bases@[k].base by {
                if k < b0.len() {
                    let m = choose|m: int| 0 <= m < cursor && q0[m].0 == b0[k].base;
                    assert(q[m].0 == bases@[k].base);
                } else {
                    assert(q[cursor as int].0 == bases@[k].base);
                }
            }
            assert forall|i: int, i2: int| 0 <= i < i2 < bases@.len() implies #[trigger] bases@[i].base != #[trigger] bases@[i2].base by {
                if i2 < b0.len() {
                    assert(bases@[i] == b0[i] && bases@[i2] == b0[i2]);
                } else {
                    assert(bases@[i] == b0[i]);
                    let m = choose|m: int| 0 <= m < cursor && q0[m].0 == b0[i].base;
                    assert(q0[m].0 != q0[cursor as int].0);
                }
            }
        }
        cursor += 1;
    }
    proof {
        assert forall|x: VarnodeId, w: VarnodeId|
            data.valid_vn(x) && #[trigger] seen@[x.0 as int] && #[trigger] additive_step(data, x, w) implies seen@[w.0 as int] by {
            let k = choose|k: int| 0 <= k < queue@.len() && queue@[k].0 == x;
            assert(additive_step(data, queue@[k].0, w));
        }
        assert(seen@[start.0 as int]) by {
            assert(queue@[0].0 == start);
        }
        assert forall|v: VarnodeId| #[trigger] holds_base(bases@, v) <==> (chained_from(data, start, v) && chain_end(data, v)) by {
            if chained_from(data, start, v) && chain_end(data, v) {
                let p = choose|p: Seq<VarnodeId>| #[trigger] chain_path(data, start, p) && p.last() == v;
                lemma_closed_chain(data, start, seen@, p);
                let k = choose|k: int| 0 <= k < queue@.len() && queue@[k].0 == v;
                assert(queued(queue@, cursor as int, v));
            }
            if holds_base(bases@, v) {
                let k = choose|k: int| 0 <= k < cursor && #[trigger] queue@[k].0 == v;
                assert(chained_from(data, start, queue@[k].0));
            }
        }
    }
    bases
}

/// Distinct values of the graph are at most as many as the graph has.
proof fn lemma_distinct_valid_bound(d: &Funcdata, q: Seq<(VarnodeId, Option<VarnodeId>)>)
    requires
        forall|k: int| 0 <= k < q.len() ==> d.valid_vn(#[trigger] q[k].0),
        forall|i: int, j: int| 0 <= i < j < q.len() ==> #[trigger] q[i].0 != #[trigger] q[j].0,
    ensures
        q.len() <= d.vns().len(),
{
    let ids = q.map_values(|e: (VarnodeId, Option<VarnodeId>)| e.0.0 as int);
    let s = ids.to_set();
    assert forall|i: int, j: int| 0 <= i < j < ids.len() implies ids[i] != ids[j] by {
        assert(q[i].0 != q[j].0);
        assert(ids[i] == q[i].0.0 as int);
    }
    assert(ids.no_duplicates());
    ids.unique_seq_to_set();
    let range = Set::new(|x: int| 0 <= x < d.vns().len());
    assert(s.subset_of(range)) by {
        assert forall|x: int| s.contains(x) implies range.contains(x) by {
            let k = choose|k: int| 0 <= k < ids.len() && ids[k] == x;
            assert(d.valid_vn(q[k].0));
        }
    }
    vstd::set_lib::lemma_int_range(0, d.vns().len() as int);
    assert(range == vstd::set_lib::set_int_range(0, d.vns().len() as int));
    vstd::set_lib::lemma_len_subset(s, range);
}

/// The default split between parameter and local references on a
/// downward-growing stack when no prototype supplies one: offsets below it
/// are parameters, and the usual negative frame offsets, read as large
/// unsigned values, stay local.
pub const DEFAULT_LOCAL_BOUNDARY: u64 = 0x0100_0000;

/// A value without a definition at exactly the frame-base location.
pub open spec fn root_candidate(d: &Funcdata, location: Location, i: int) -> bool {
    &&& 0 <= i < d.vns().len()
    &&& d.vns()[i].space == location.space
    &&& d.vns()[i].offset == location.offset
    &&& d.vns()[i].size == location.size
    &&& d.vns()[i].def is None
}

/// The first candidate among the first `n` values that is an input.
pub open spec fn first_input_root(d: &Funcdata, location: Location, n: int) -> Option<VarnodeId>
    decreases n,
{
    if n <= 0 {
        None
    } else {
        match first_input_root(d, location, n - 1) {
            Some(v) => Some(v),
            None => if root_candidate(d, location, n - 1) && d.vns()[n - 1].flags.input {
                Some(VarnodeId((n - 1) as u32))
            } else {
                None
            },
        }
    }
}

/// The first candidate among the first `n` values.
pub open spec fn first_root(d: &Funcdata, location: Location, n: int) -> Option<VarnodeId>
    decreases n,
{
    if n <= 0 {
        None
    } else {
        match first_root(d, location, n - 1) {
            Some(v) => Some(v),
            None => if root_candidate(d, location, n - 1) {
                Some(VarnodeId((n - 1) as u32))
            } else {
                None
            },
        }
    }
}

/// The incoming frame-base value: an input without a definition at the
/// frame-base location, or else any value without a definition there.
pub open spec fn frame_root(d: &Funcdata) -> Option<VarnodeId> {
    match d.spec_spacebase() {
        None => None,
        Some(location) => match first_input_root(d, location, d.vns().len() as int) {
            Some(v) => Some(v),
            None => first_root(d, location, d.vns().len() as int),
        },
    }
}

proof fn lemma_first_root_valid(d: &Funcdata, location: Location, n: int)
    requires
        0 <= n <= d.vns().len(),
        d.vns().len() <= u32::MAX,
    ensures
        first_input_root(d, location, n) matches Some(v) ==> (v.0 as int) < n,
        first_root(d, location, n) matches Some(v) ==> (v.0 as int) < n,
    decreases n,
{
    if n > 0 {
        lemma_first_root_valid(d, location, n - 1);
    }
}

proof fn lemma_first_input_root_stable(d: &Funcdata, location: Location, n: int, m: int)
    requires
        0 <= n <= m,
        first_input_root(d, location, n) is Some,
    ensures
        first_input_root(d, location, m) == first_input_root(d, location, n),
    decreases m - n,
{
    if m > n {
        lemma_first_input_root_stable(d, location, n, m - 1);
    }
}

/// Finds the incoming frame-base value.
fn find_spacebase_input(data: &Funcdata, location: Location) -> (r: Option<VarnodeId>)
    requires
        data.wf(),
        data.spec_spacebase() == Some(location),
    ensures
        r == frame_root(data),
        r matches Some(v) ==> data.valid_vn(v),
{
    let n = data.varnode_count();
    let mut fallback: Option<VarnodeId> = None;
    let mut index: usize = 0;
    while index < n
        invariant
            data.wf(),
            data.spec_spacebase() == Some(location),
            n == data.vns().len(),
            index <= n,
            first_input_root(data, location, index as int) is None,
            fallback == first_root(data, location, index as int),
        decreases n - index,
    {
        let value = VarnodeId(index as u32);
        let node = data.varnode(value);
        if node.space == location.space && node.offset == location.offset && node.size == location.size && node.def.is_none() {
            if node.flags.input {
                proof {
                    assert(first_input_root(data, location, index as int + 1) == Some(value));
                    lemma_first_input_root_stable(data, location, index as int + 1, n as int);
                    lemma_first_root_valid(data, location, n as int);
                    assert(first_input_root(data, location, n as int) == Some(value));
                    assert(data.vns().len() == n);
                    assert(frame_root(data) == Some(value));
                }
                return Some(value);
            }
            if fallback.is_none() {
                fallback = Some(value);
            }
        }
        index += 1;
    }
    proof {
        lemma_first_root_valid(data, location, n as int);
    }
    fallback
}

/// The all-clear walk state of `offset_of`.
pub open spec fn fresh_walk(n: int) -> Seq<bool> {
    Seq::new(n as nat, |i: int| false)
}

/// `x` is the shallowest local alias: the least chain offset at or beyond
/// the local boundary, or `extreme` when there is none below it. Only a
/// downward-growing stack with a frame root has one.
pub open spec fn shallowest_alias(d: &Funcdata, grows_down: bool, boundary: u64, extreme: u64, x: u64) -> bool {
    match frame_root(d) {
        Some(root) if grows_down => {
            &&& x <= extreme
            &&& forall|v: VarnodeId|
                chained_from(d, root, v) && chain_end(d, v) && #[trigger] offset_of(d, v, fresh_walk(d.vns().len() as int))
                    >= boundary ==> x <= offset_of(d, v, fresh_walk(d.vns().len() as int))
            &&& (x == extreme || exists|v: VarnodeId|
                chained_from(d, root, v) && chain_end(d, v) && #[trigger] offset_of(d, v, fresh_walk(d.vns().len() as int))
                    == x && x >= boundary)
        },
        _ => x == extreme,
    }
}

/// What an alias checker holds, as plain values.
pub struct AliasView {
    pub stack_space: Option<u32>,
    pub stack_grows_down: bool,
    pub local_boundary: u64,
    pub local_extreme: u64,
    pub alias_boundary: u64,
    pub calculated: bool,
    pub add_base: Seq<AddBase>,
    pub alias: Seq<u64>,
}

/// A local analysis of pointer references into one address space. It owns
/// only analysis state, not the graph: each query takes the graph as it is
/// at that moment.
#[derive(Clone, Debug, PartialEq, Eq)]
pub struct AliasChecker {
    stack_space: Option<u32>,
    stack_grows_down: bool,
    local_boundary: u64,
    local_extreme: u64,
    alias_boundary: u64,
    calculated: bool,
    add_base: Vec<AddBase>,
    alias: Vec<u64>,
}

impl View for AliasChecker {
    type V = AliasView;

    closed spec fn view(&self) -> AliasView {
        AliasView {
            stack_space: self.stack_space,
            stack_grows_down: self.stack_grows_down,
            local_boundary: self.local_boundary,
            local_extreme: self.local_extreme,
            alias_boundary: self.alias_boundary,
            calculated: self.calculated,
            add_base: self.add_base@,
            alias: self.alias@,
        }
    }
}

/// The checker has gathered `d`: its chain ends are exactly the chain
/// values with a terminal use, each paired with its offset, and its alias
/// boundary is the shallowest local alias.
pub open spec fn gathered(d: &Funcdata, a: AliasView) -> bool {
    &&& a.calculated
    &&& a.alias.len() == a.add_base.len()
    &&& forall|k: int| 0 <= k < a.add_base.len() ==> #[trigger] a.alias[k] == offset_of(d, a.add_base[k].base, fresh_walk(d.vns().len() as int))
    &&& forall|i: int, j: int| 0 <= i < j < a.add_base.len() ==> #[trigger] a.add_base[i].base != #[trigger] a.add_base[j].base
    &&& match frame_root(d) {
        Some(root) => {
            &&& forall|v: VarnodeId| #[trigger] holds_base(a.add_base, v) <==> (chained_from(d, root, v) && chain_end(d, v))
            &&& forall|k: int| 0 <= k < a.add_base.len() ==> base_index(d, root, #[trigger] a.add_base[k])
        },
        None => a.add_base.len() == 0,
    }
    &&& shallowest_alias(d, a.stack_grows_down, a.local_boundary, a.local_extreme, a.alias_boundary)
}

impl Default for AliasChecker {
    fn default() -> (r: Self)
        ensures
            r@ == (AliasView {
                stack_space: None,
                stack_grows_down: true,
                local_boundary: DEFAULT_LOCAL_BOUNDARY,
                local_extreme: u64::MAX,
                alias_boundary: u64::MAX,
                calculated: false,
                add_base: Seq::empty(),
                alias: Seq::empty(),
            }),
    {
        AliasChecker {
            stack_space: None,
            stack_grows_down: true,
            local_boundary: DEFAULT_LOCAL_BOUNDARY,
            local_extreme: u64::MAX,
            alias_boundary: u64::MAX,
            calculated: false,
            add_base: Vec::new(),
            alias: Vec::new(),
        }
    }
}

impl AliasChecker {
    /// Runs the deferred calculation, once.
    fn gather_internal(&mut self, data: &Funcdata)
        requires
            data.wf(),
        ensures
            old(self)@.calculated ==> final(self)@ == old(self)@,
            !old(self)@.calculated ==> gathered(data, final(self)@),
            final(self)@.stack_space == old(self)@.stack_space,
            final(self)@.stack_grows_down == old(self)@.stack_grows_down,
            final(self)@.local_boundary == old(self)@.local_boundary,
            final(self)@.local_extreme == old(self)@.local_extreme,
    {
        if self.calculated {
            return;
        }
        self.calculated = true;
        self.alias_boundary = self.local_extreme;
        self.add_base = Vec::new();
        self.alias = Vec::new();
        let root_location = match data.frame_base() {
            Some(location) => location,
            None => {
                return;
            },
        };
        let spacebase = match find_spacebase_input(data, root_location) {
            Some(value) => value,
            None => {
                return;
            },
        };
        let bases = gather_additive_base(data, spacebase);
        let n = data.varnode_count();
        let mut k: usize = 0;
        while k < bases.len()
            invariant
                data.wf(),
                n == data.vns().len(),
                frame_root(data) == Some(spacebase),
                data.valid_vn(spacebase),
                k <= bases@.len(),
                self.calculated,
                self.add_base@ == bases@.take(k as int),
                self.alias@.len() == k,
                forall|m: int| 0 <= m < k ==> #[trigger] self.alias@[m] == offset_of(data, bases@[m].base, fresh_walk(n as int)),
                forall|v: VarnodeId| #[trigger] holds_base(bases@, v) <==> (chained_from(data, spacebase, v) && chain_end(data, v)),
                forall|i: int, j: int| 0 <= i < j < bases@.len() ==> #[trigger] bases@[i].base != #[trigger] bases@[j].base,
                self.stack_grows_down ==> {
                    &&& self.alias_boundary <= self.local_extreme
                    &&& forall|m: int|
                        0 <= m < k && self.alias@[m] >= self.local_boundary ==> self.alias_boundary <= #[trigger] self.alias@[m]
                    &&& (self.alias_boundary == self.local_extreme || exists|m: int|
                        0 <= m < k && #[trigger] self.alias@[m] == self.alias_boundary && self.alias_boundary >= self.local_boundary)
                },
                !self.stack_grows_down ==> self.alias_boundary == self.local_extreme,
                self.stack_space == old(self)@.stack_space,
                self.stack_grows_down == old(self)@.stack_grows_down,
                self.local_boundary == old(self)@.local_boundary,
                self.local_extreme == old(self)@.local_extreme,
            decreases bases@.len() - k,
        {
            let record = bases[k];
            proof {
                assert(holds_base(bases@, record.base));
                let p = choose|p: Seq<VarnodeId>| #[trigger] chain_path(data, spacebase, p) && p.last() == record.base;
                lemma_closed_chain_valid(data, spacebase, p);
            }
            let mut active: Vec<bool> = Vec::new();
            let mut fill: usize = 0;
            while fill < n
                invariant
                    fill <= n,
                    active@.len() == fill,
                    forall|m: int| 0 <= m < fill ==> !active@[m],
                decreases n - fill,
            {
                active.push(false);
                fill += 1;
            }
            proof {
                assert(active@ =~= fresh_walk(n as int));
            }
            let offset = gather_offset(data, record.base, &mut active);
            let ghost before = self.alias@;
            self.add_base.push(record);
            self.alias.push(offset);
            proof {
                assert(self.add_base@ =~= bases@.take(k as int + 1));
                assert forall|m: int| 0 <= m < k + 1 implies #[trigger] self.alias@[m] == offset_of(data, bases@[m].base, fresh_walk(n as int)) by {
                    if m < k {
                        assert(self.alias@[m] == before[m]);
                    }
                }
            }
            if self.stack_grows_down {
                if offset >= self.local_boundary && offset < self.alias_boundary {
                    self.alias_boundary = offset;
                }
            }
            proof {
                if self.stack_grows_down {
                    assert forall|m: int|
                        0 <= m < k + 1 && self.alias@[m] >= self.local_boundary implies self.alias_boundary <= #[trigger] self.alias@[m] by {
                        if m < k {
                            assert(self.alias@[m] == before[m]);
                        }
                    }
                    if self.alias_boundary != self.local_extreme {
                        if self.alias_boundary == offset && offset >= self.local_boundary {
                            assert(self.alias@[k as int] == offset);
                        } else {
                            let m = choose|m: int|
                                0 <= m < k && #[trigger] before[m] == self.alias_boundary && self.alias_boundary >= self.local_boundary;
                            assert(self.alias@[m] == before[m]);
                        }
                    }
                }
            }
            k += 1;
        }
        proof {
            assert(self.add_base@ =~= bases@);
            if self.stack_grows_down {
                assert forall|v: VarnodeId|
                    chained_from(data, spacebase, v) && chain_end(data, v) && #[trigger] offset_of(data, v, fresh_walk(n as int))
                        >= self.local_boundary implies self.alias_boundary <= offset_of(data, v, fresh_walk(n as int)) by {
                    assert(holds_base(bases@, v));
                    let m = choose|m: int| 0 <= m < bases@.len() && #[trigger] bases@[m].base == v;
                    assert(self.alias@[m] == offset_of(data, v, fresh_walk(n as int)));
                }
                if self.alias_boundary != self.local_extreme {
                    let m = choose|m: int|
                        0 <= m < k && #[trigger] self.alias@[m] == self.alias_boundary && self.alias_boundary >= self.local_boundary;
                    let v = bases@[m].base;
                    assert(holds_base(bases@, v));
                    assert(offset_of(data, v, fresh_walk(n as int)) == self.alias_boundary);
                }
            }
        }
    }

    /// Gathers pointer references into `stack_space` with the default
    /// downward-stack layout. With `defer` set the walk happens at the first
    /// query instead.
    pub fn gather(&mut self, data: &Funcdata, stack_space: u32, defer: bool)
        requires
            data.wf(),
        ensures
            final(self)@.stack_space == Some(stack_space),
            final(self)@.stack_grows_down,
            final(self)@.local_boundary == DEFAULT_LOCAL_BOUNDARY,
            final(self)@.local_extreme == u64::MAX,
            defer ==> !final(self)@.calculated && final(self)@.add_base.len() == 0 && final(self)@.alias.len() == 0
                && final(self)@.alias_boundary == u64::MAX,
            !defer ==> gathered(data, final(self)@),
    {
        self.gather_with_layout(data, stack_space, true, DEFAULT_LOCAL_BOUNDARY, u64::MAX, defer);
    }

    /// Gathers with explicit stack layout boundaries: the direction the
    /// stack grows, the boundary between parameter and local references,
    /// and the initial shallowest-alias sentinel.
    pub fn gather_with_layout(
        &mut self,
        data: &Funcdata,
        stack_space: u32,
        stack_grows_down: bool,
        local_boundary: u64,
        local_extreme: u64,
        defer: bool,
    )
        requires
            data.wf(),
        ensures
            final(self)@.stack_space == Some(stack_space),
            final(self)@.stack_grows_down == stack_grows_down,
            final(self)@.local_boundary == local_boundary,
            final(self)@.local_extreme == local_extreme,
            defer ==> !final(self)@.calculated && final(self)@.add_base.len() == 0 && final(self)@.alias.len() == 0
                && final(self)@.alias_boundary == local_extreme,
            !defer ==> gathered(data, final(self)@),
    {
        self.stack_space = Some(stack_space);
        self.stack_grows_down = stack_grows_down;
        self.local_boundary = local_boundary;
        self.local_extreme = local_extreme;
        self.alias_boundary = local_extreme;
        self.calculated = false;
        self.add_base = Vec::new();
        self.alias = Vec::new();
        if !defer {
            self.gather_internal(data);
        }
    }

    /// Whether `location` may be aliased by a pointer reference: on a
    /// downward-growing stack, a location of the checked space at or beyond
    /// the shallowest local alias. A deferred gather runs here.
    pub fn has_local_alias(&mut self, data: &Funcdata, location: Location) -> (r: bool)
        requires
            data.wf(),
        ensures
            old(self)@.stack_space is None ==> !r && final(self)@ == old(self)@,
            old(self)@.stack_space is Some && old(self)@.calculated ==> final(self)@ == old(self)@,
            old(self)@.stack_space is Some && !old(self)@.calculated ==> gathered(data, final(self)@),
            final(self)@.stack_space == old(self)@.stack_space,
            final(self)@.stack_grows_down == old(self)@.stack_grows_down,
            final(self)@.local_boundary == old(self)@.local_boundary,
            final(self)@.local_extreme == old(self)@.local_extreme,
            old(self)@.stack_space matches Some(space) ==> r == (location.space == space && final(self)@.stack_grows_down
                && location.offset >= final(self)@.alias_boundary),
    {
        let stack_space = match self.stack_space {
            Some(space) => space,
            None => {
                return false;
            },
        };
        if !self.calculated {
            self.gather_internal(data);
        }
        if location.space != stack_space || !self.stack_grows_down {
            return false;
        }
        location.offset >= self.alias_boundary
    }

    /// Sorts the alias starting offsets. Only the offsets are sorted: the
    /// chain ends and offsets stop being a parallel pair here.
    pub fn sort_alias(&mut self)
        ensures
            final(self)@.alias.to_multiset() == old(self)@.alias.to_multiset(),
            forall|i: int, j: int| 0 <= i < j < final(self)@.alias.len() ==> #[trigger] final(self)@.alias[i] <= #[trigger] final(self)@.alias[j],
            final(self)@ == (AliasView { alias: final(self)@.alias, ..old(self)@ }),
    {
        let n = self.alias.len();
        let mut i: usize = 1;
        while i < n
            invariant
                n == self.alias@.len(),
                self.alias@.to_multiset() == old(self)@.alias.to_multiset(),
                forall|a: int, b: int| 0 <= a < b < i && b < n ==> #[trigger] self.alias@[a] <= #[trigger] self.alias@[b],
                self@ == (AliasView { alias: self.alias@, ..old(self)@ }),
            decreases n - i,
        {
            let mut j: usize = i;
            while j > 0 && self.alias[j - 1] > self.alias[j]
                invariant
                    n == self.alias@.len(),
                    0 <= j <= i < n,
                    self.alias@.to_multiset() == old(self)@.alias.to_multiset(),
                    forall|a: int, b: int| 0 <= a < b <= i && b != j ==> #[trigger] self.alias@[a] <= #[trigger] self.alias@[b],
                    forall|a: int, b: int| 0 <= a < j && j < b <= i ==> #[trigger] self.alias@[a] <= #[trigger] self.alias@[b],
                    self@ == (AliasView { alias: self.alias@, ..old(self)@ }),
                decreases j,
            {
                let ghost before = self.alias@;
                let left = self.alias[j - 1];
                let right = self.alias[j];
                self.alias.set(j - 1, right);
                self.alias.set(j, left);
                proof {
                    crate::callproto::lemma_swap_keeps_multiset(before, j - 1, j as int);
                }
                j -= 1;
            }
            i += 1;
        }
    }

    /// The chain ends collected by `gather`.
    pub fn get_add_base(&self) -> (r: &[AddBase])
        ensures
            r@ == self@.add_base,
    {
        self.add_base.as_slice()
    }

    /// The alias starting offsets collected by `gather`.
    pub fn get_alias(&self) -> (r: &[u64])
        ensures
            r@ == self@.alias,
    {
        self.alias.as_slice()
    }
}

/// Every value a chain from a valid start reaches is valid.
proof fn lemma_closed_chain_valid(d: &Funcdata, start: VarnodeId, p: Seq<VarnodeId>)
    requires
        d.wf(),
        d.valid_vn(start),
        chain_path(d, start, p),
    ensures
        d.valid_vn(p.last()),
    decreases p.len(),
{
    if p.len() > 1 {
        let q = p.drop_last();
        assert forall|i: int| 0 <= i < q.len() - 1 implies #[trigger] chain_step(d, q, i) by {
            assert(chain_step(d, p, i));
            assert(q[i] == p[i] && q[i + 1] == p[i + 1]);
        }
        lemma_closed_chain_valid(d, start, q);
        assert(chain_step(d, p, p.len() - 2));
        lemma_step_valid(d, q.last(), p.last());
    }
}

} // verus!
