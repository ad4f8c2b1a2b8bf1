//! Lifter output as plain values, and where its basic blocks begin.

use vstd::prelude::*;
use crate::graph::{Funcdata, GraphBlockId, GraphVarnode, OpId, SeqNum, VarnodeId, vns_below};
use crate::pcode::{BRANCH, BRANCHIND, CBRANCH, CONST_SPACE, Location, RAM_SPACE, RETURN};

verus! {

/// One p-code operation as the lifter produced it.
#[derive(Clone, Debug)]
pub struct LiftedOp {
    pub opcode: i32,
    pub output: Option<Location>,
    pub inputs: Vec<Location>,
}

/// One machine instruction: its address, its own length, how many bytes of a
/// delay slot it absorbed, and its p-code.
#[derive(Clone, Debug)]
pub struct LiftedInstruction {
    pub address: u64,
    pub len: u32,
    pub embedded_delay_slot_bytes: u32,
    pub ops: Vec<LiftedOp>,
}

/// A lifted function: its entry, its instructions by increasing address, and
/// the machine control-flow edges between instruction addresses.
#[derive(Clone, Debug)]
pub struct LiftedFunction {
    pub entry: u64,
    pub instructions: Vec<LiftedInstruction>,
    pub edges: Vec<(u64, u64)>,
}

impl LiftedFunction {
    /// Instructions come by strictly increasing address, and each holds
    /// fewer operations than a `u32` can count.
    pub open spec fn wf(&self) -> bool {
        &&& forall|i: int, j: int|
            0 <= i < j < self.instructions@.len() ==> #[trigger] self.instructions@[i].address
                < #[trigger] self.instructions@[j].address
        &&& forall|i: int| 0 <= i < self.instructions@.len() ==> #[trigger] self.instructions@[i].ops@.len() < u32::MAX
    }
}

/// Some instruction starts at `a`.
pub open spec fn has_instruction(f: &LiftedFunction, a: u64) -> bool {
    exists|i: int| 0 <= i < f.instructions@.len() && #[trigger] f.instructions@[i].address == a
}

/// The position names an operation of an instruction (order 0 names the
/// instruction itself).
pub open spec fn valid_position(f: &LiftedFunction, p: (u64, u32)) -> bool {
    exists|i: int|
        0 <= i < f.instructions@.len() && #[trigger] f.instructions@[i].address == p.0 && (p.1 == 0 || p.1
            < f.instructions@[i].ops@.len())
}

/// How many of the first `n` edges end at `t`.
pub open spec fn arrivals(edges: Seq<(u64, u64)>, t: u64, n: int) -> nat
    decreases n,
{
    if n <= 0 {
        0
    } else {
        arrivals(edges, t, n - 1) + (if edges[n - 1].1 == t {
            1nat
        } else {
            0nat
        })
    }
}

/// How many of the first `n` edges start at `s`.
pub open spec fn departures(edges: Seq<(u64, u64)>, s: u64, n: int) -> nat
    decreases n,
{
    if n <= 0 {
        0
    } else {
        departures(edges, s, n - 1) + (if edges[n - 1].0 == s {
            1nat
        } else {
            0nat
        })
    }
}

/// The address right after instruction `i`.
pub open spec fn sequential_after(f: &LiftedFunction, i: int) -> u64 {
    f.instructions@[i].address.wrapping_add(f.instructions@[i].len as u64)
}

/// The block start that machine edge `e` makes: a join target, both sides of
/// a branch, or the fall-through side of a conditional branch.
pub open spec fn edge_leader(f: &LiftedFunction, e: (u64, u64), p: (u64, u32)) -> bool {
    &&& p.1 == 0
    &&& {
        ||| arrivals(f.edges@, e.1, f.edges@.len() as int) > 1 && p.0 == e.1
        ||| exists|i: int|
            0 <= i < f.instructions@.len() && #[trigger] f.instructions@[i].address == e.0 && {
                let sequential = sequential_after(f, i);
                ||| e.1 != sequential && (p.0 == e.1 || p.0 == sequential)
                ||| e.1 == sequential && departures(f.edges@, e.0, f.edges@.len() as int) > 1 && p.0 == e.1
            }
    }
}

/// The operation index a conditional branch to a constant transfers to,
/// relative to its own index `index`, when that lands on a positive index.
pub open spec fn internal_target(op: LiftedOp, index: int) -> Option<u32> {
    if op.opcode != CBRANCH || op.inputs@.len() == 0 || op.inputs@[0].space != CONST_SPACE || index > i64::MAX {
        None
    } else {
        let t = index + (op.inputs@[0].offset as i64) as int;
        if t < i64::MIN || t > i64::MAX || t <= 0 || t > u32::MAX {
            None
        } else {
            Some(t as u32)
        }
    }
}

/// The block starts that operation `j` of instruction `i` makes: a branch
/// among the instruction's own operations splits it at both of its
/// destinations, and a conditional branch before the last operation splits
/// it after itself and at a named target elsewhere.
pub open spec fn op_leader(f: &LiftedFunction, i: int, j: int, p: (u64, u32)) -> bool {
    let ins = f.instructions@[i];
    let op = ins.ops@[j];
    let sequential = sequential_after(f, i);
    match internal_target(op, j) {
        Some(t) => {
            ||| (if (t as int) < ins.ops@.len() {
                p == (ins.address, t)
            } else {
                p == (sequential, 0u32)
            })
            ||| p == (ins.address, (j + 1) as u32)
        },
        None => {
            &&& op.opcode == CBRANCH
            &&& j < ins.ops@.len() - 1
            &&& {
                ||| p == (ins.address, (j + 1) as u32)
                ||| op.inputs@.len() > 0 && op.inputs@[0].space != CONST_SPACE && op.inputs@[0].offset != sequential
                    && has_instruction(f, op.inputs@[0].offset) && p == (op.inputs@[0].offset, 0u32)
            }
        },
    }
}

/// The positions where a basic block of `f` begins: the entry, the starts
/// the machine edges make and those the operations make, each naming an
/// operation that exists.
pub open spec fn is_leader(f: &LiftedFunction, p: (u64, u32)) -> bool {
    &&& valid_position(f, p)
    &&& {
        ||| p == (f.entry, 0u32)
        ||| exists|k: int| 0 <= k < f.edges@.len() && edge_leader(f, #[trigger] f.edges@[k], p)
        ||| exists|i: int, j: int|
            0 <= i < f.instructions@.len() && 0 <= j < f.instructions@[i].ops@.len() && #[trigger] op_leader(f, i, j, p)
    }
}

/// How many operations the first `n` instructions hold.
pub open spec fn ops_before(f: &LiftedFunction, n: int) -> nat
    decreases n,
{
    if n <= 0 {
        0
    } else {
        ops_before(f, n - 1) + f.instructions@[n - 1].ops@.len()
    }
}

/// How many values the first `n` operations of `ops` read.
pub open spec fn reads_in(ops: Seq<LiftedOp>, n: int) -> nat
    decreases n,
{
    if n <= 0 {
        0
    } else {
        reads_in(ops, n - 1) + ops[n - 1].inputs@.len()
    }
}

/// How many values the operations of the first `n` instructions read.
pub open spec fn reads_before(f: &LiftedFunction, n: int) -> nat
    decreases n,
{
    if n <= 0 {
        0
    } else {
        reads_before(f, n - 1) + reads_in(f.instructions@[n - 1].ops@, f.instructions@[n - 1].ops@.len() as int)
    }
}

/// The most block starts a function can have: the entry, three per machine
/// edge and two per operation.
pub open spec fn leader_bound(f: &LiftedFunction) -> nat {
    1 + 3 * f.edges@.len() + 2 * ops_before(f, f.instructions@.len() as int)
}

/// `a` comes before `b`: by address, then by operation index.
pub open spec fn position_before(a: (u64, u32), b: (u64, u32)) -> bool {
    a.0 < b.0 || (a.0 == b.0 && a.1 < b.1)
}

/// Strictly increasing positions.
pub open spec fn strictly_sorted(s: Seq<(u64, u32)>) -> bool {
    forall|a: int, b: int| 0 <= a < b < s.len() ==> position_before(#[trigger] s[a], #[trigger] s[b])
}

/// Adds `p` to a strictly sorted list, keeping it so.
fn add_position(list: &mut Vec<(u64, u32)>, p: (u64, u32))
    requires
        strictly_sorted(old(list)@),
    ensures
        strictly_sorted(final(list)@),
        forall|q: (u64, u32)| final(list)@.contains(q) <==> (old(list)@.contains(q) || q == p),
        final(list)@.len() <= old(list)@.len() + 1,
{
    let mut i: usize = 0;
    while i < list.len()
        invariant
            strictly_sorted(list@),
            list@ == old(list)@,
            i <= list@.len(),
            forall|k: int| 0 <= k < i ==> position_before(#[trigger] list@[k], p),
        ensures
            list@ == old(list)@,
            i <= list@.len(),
            forall|k: int| 0 <= k < i ==> position_before(#[trigger] list@[k], p),
            i < list@.len() ==> !position_before(list@[i as int], p) && list@[i as int] != p,
        decreases list@.len() - i,
    {
        let q = list[i];
        if q.0 == p.0 && q.1 == p.1 {
            return;
        }
        if !(q.0 < p.0 || (q.0 == p.0 && q.1 < p.1)) {
            break;
        }
        i += 1;
    }
    let ghost before = list@;
    list.insert(i, p);
    proof {
        assert(list@ == before.insert(i as int, p));
        assert(before == old(list)@);
        assert forall|a: int, b: int| 0 <= a < b < list@.len() implies position_before(#[trigger] list@[a], #[trigger] list@[b]) by {
            if b < i {
                assert(list@[a] == before[a] && list@[b] == before[b]);
            } else if b == i {
                assert(list@[a] == before[a]);
            } else if a < i {
                assert(list@[a] == before[a] && list@[b] == before[b - 1]);
                assert(position_before(before[a], p));
                if i < before.len() {
                    assert(!position_before(before[i as int], p));
                    assert(before[i as int] == p || position_before(p, before[i as int]));
                    assert(before[i as int] != p);
                    if b - 1 > i {
                        assert(position_before(before[i as int], before[b - 1]));
                    }
                }
            } else if a == i {
                assert(list@[b] == before[b - 1]);
                assert(!position_before(before[i as int], p));
                assert(before[i as int] != p);
                if b - 1 > i {
                    assert(position_before(before[i as int], before[b - 1]));
                }
            } else {
                assert(list@[a] == before[a - 1] && list@[b] == before[b - 1]);
            }
        }
        assert forall|q: (u64, u32)|
            #![trigger list@.contains(q)]
            #![trigger before.contains(q)]
            list@.contains(q) <==> (before.contains(q) || q == p) by {
            if list@.contains(q) {
                let k = choose|k: int| 0 <= k < list@.len() && list@[k] == q;
                if k < i {
                    assert(before[k] == q);
                } else if k > i {
                    assert(before[k - 1] == q);
                }
            }
            if before.contains(q) {
                let k = choose|k: int| 0 <= k < before.len() && before[k] == q;
                if k < i {
                    assert(list@[k] == q);
                } else {
                    assert(list@[k + 1] == q);
                }
            }
            if q == p {
                assert(list@[i as int] == p);
            }
        }
    }
}

/// Two instructions of a well-formed function at one address are the same.
proof fn lemma_one_instruction_per_address(f: &LiftedFunction, i: int, j: int)
    requires
        f.wf(),
        0 <= i < f.instructions@.len(),
        0 <= j < f.instructions@.len(),
        f.instructions@[i].address == f.instructions@[j].address,
    ensures
        i == j,
{
    if i < j {
        assert(f.instructions@[i].address < f.instructions@[j].address);
    } else if j < i {
        assert(f.instructions@[j].address < f.instructions@[i].address);
    }
}

/// The instruction at address `a`, when there is one.
fn find_instruction(f: &LiftedFunction, a: u64) -> (r: Option<usize>)
    ensures
        r matches Some(i) ==> i < f.instructions@.len() && f.instructions@[i as int].address == a,
        r is None ==> !has_instruction(f, a),
{
    let mut i: usize = 0;
    while i < f.instructions.len()
        invariant
            i <= f.instructions@.len(),
            forall|k: int| 0 <= k < i ==> #[trigger] f.instructions@[k].address != a,
        decreases f.instructions@.len() - i,
    {
        if f.instructions[i].address == a {
            return Some(i);
        }
        i += 1;
    }
    None
}

fn count_arrivals(edges: &Vec<(u64, u64)>, t: u64) -> (r: usize)
    ensures
        r == arrivals(edges@, t, edges@.len() as int),
{
    let mut n: usize = 0;
    let mut k: usize = 0;
    while k < edges.len()
        invariant
            k <= edges@.len(),
            n == arrivals(edges@, t, k as int),
            n <= k,
        decreases edges@.len() - k,
    {
        if edges[k].1 == t {
            n += 1;
        }
        k += 1;
    }
    n
}

fn count_departures(edges: &Vec<(u64, u64)>, s: u64) -> (r: usize)
    ensures
        r == departures(edges@, s, edges@.len() as int),
{
    let mut n: usize = 0;
    let mut k: usize = 0;
    while k < edges.len()
        invariant
            k <= edges@.len(),
            n == departures(edges@, s, k as int),
            n <= k,
        decreases edges@.len() - k,
    {
        if edges[k].0 == s {
            n += 1;
        }
        k += 1;
    }
    n
}

fn internal_target_exec(op: &LiftedOp, index: usize) -> (r: Option<u32>)
    ensures
        r == internal_target(*op, index as int),
{
    if op.opcode != CBRANCH || op.inputs.len() == 0 || op.inputs[0].space != CONST_SPACE || index as u64 > 0x7FFF_FFFF_FFFF_FFFFu64 {
        return None;
    }
    let relative = signed_offset(op.inputs[0].offset);
    let t: i128 = index as i128 + relative as i128;
    if t < -0x8000_0000_0000_0000i128 || t > 0x7FFF_FFFF_FFFF_FFFFi128 || t <= 0 || t > 0xFFFF_FFFFi128 {
        None
    } else {
        Some(t as u32)
    }
}

/// An offset read as a signed number.
fn signed_offset(offset: u64) -> (r: i64)
    ensures
        r == offset as i64,
{
    #[verifier::truncate]
    (offset as i64)
}

/// The position names an operation of an instruction.
fn is_valid_position(f: &LiftedFunction, p: (u64, u32)) -> (r: bool)
    requires
        f.wf(),
    ensures
        r == valid_position(f, p),
{
    match find_instruction(f, p.0) {
        Some(i) => {
            proof {
                assert forall|j: int|
                    0 <= j < f.instructions@.len() && #[trigger] f.instructions@[j].address == p.0 implies j == i by {
                    lemma_one_instruction_per_address(f, i as int, j);
                }
            }
            p.1 == 0 || (p.1 as usize) < f.instructions[i].ops.len()
        },
        None => false,
    }
}

/// Where the basic blocks of `f` begin, as (address, operation index) in
/// increasing order.
pub fn block_leaders(f: &LiftedFunction) -> (r: Vec<(u64, u32)>)
    requires
        f.wf(),
    ensures
        strictly_sorted(r@),
        forall|p: (u64, u32)| #[trigger] r@.contains(p) <==> is_leader(f, p),
        r@.len() <= leader_bound(f),
{
    let mut cand: Vec<(u64, u32)> = Vec::new();
    add_position(&mut cand, (f.entry, 0));
    let mut k: usize = 0;
    while k < f.edges.len()
        invariant
            f.wf(),
            k <= f.edges@.len(),
            cand@.len() <= 1 + 3 * k,
            strictly_sorted(cand@),
            forall|p: (u64, u32)|
                #[trigger] cand@.contains(p) <==> (p == (f.entry, 0u32) || exists|e: int|
                    0 <= e < k && edge_leader(f, #[trigger] f.edges@[e], p)),
        decreases f.edges@.len() - k,
    {
        let (source, target) = f.edges[k];
        let ghost before = cand@;
        let ghost this = f.edges@[k as int];
        if count_arrivals(&f.edges, target) > 1 {
            add_position(&mut cand, (target, 0));
        }
        let found = find_instruction(f, source);
        let mut sequential: u64 = 0;
        match found {
            Some(i) => {
                sequential = source.wrapping_add(f.instructions[i].len as u64);
                if target != sequential {
                    add_position(&mut cand, (target, 0));
                    add_position(&mut cand, (sequential, 0));
                } else if count_departures(&f.edges, source) > 1 {
                    add_position(&mut cand, (target, 0));
                }
            },
            None => {},
        }
        proof {
            assert forall|p: (u64, u32)| edge_leader(f, this, p) <==> (#[trigger] cand@.contains(p) && !before.contains(p)) || (before.contains(p) && edge_leader(f, this, p)) by {
                if let Some(i) = found {
                    assert forall|j: int|
                        0 <= j < f.instructions@.len() && #[trigger] f.instructions@[j].address == source implies j == i by {
                        lemma_one_instruction_per_address(f, i as int, j);
                    }
                    assert(sequential == sequential_after(f, i as int));
                }
            }
            assert forall|p: (u64, u32)|
                #[trigger] cand@.contains(p) <==> (p == (f.entry, 0u32) || exists|e: int|
                    0 <= e < k + 1 && edge_leader(f, #[trigger] f.edges@[e], p)) by {
                if exists|e: int| 0 <= e < k + 1 && edge_leader(f, #[trigger] f.edges@[e], p) {
                    let e = choose|e: int| 0 <= e < k + 1 && edge_leader(f, #[trigger] f.edges@[e], p);
                    if e < k {
                        assert(before.contains(p));
                    }
                }
                if before.contains(p) && !(p == (f.entry, 0u32)) {
                    let e = choose|e: int| 0 <= e < k && edge_leader(f, #[trigger] f.edges@[e], p);
                    assert(0 <= e < k + 1);
                }
            }
        }
        k += 1;
    }
    let mut i: usize = 0;
    while i < f.instructions.len()
        invariant
            f.wf(),
            i <= f.instructions@.len(),
            cand@.len() <= 1 + 3 * f.edges@.len() + 2 * ops_before(f, i as int),
            strictly_sorted(cand@),
            forall|p: (u64, u32)|
                #[trigger] cand@.contains(p) <==> (p == (f.entry, 0u32) || (exists|e: int|
                    0 <= e < f.edges@.len() && edge_leader(f, #[trigger] f.edges@[e], p)) || exists|a: int, b: int|
                    0 <= a < i && 0 <= b < f.instructions@[a].ops@.len() && #[trigger] op_leader(f, a, b, p)),
        decreases f.instructions@.len() - i,
    {
        let address = f.instructions[i].address;
        let count = f.instructions[i].ops.len();
        let sequential = address.wrapping_add(f.instructions[i].len as u64);
        let mut j: usize = 0;
        while j < count
            invariant
                f.wf(),
                i < f.instructions@.len(),
                address == f.instructions@[i as int].address,
                count == f.instructions@[i as int].ops@.len(),
                count < u32::MAX,
                sequential == sequential_after(f, i as int),
                j <= count,
                cand@.len() <= 1 + 3 * f.edges@.len() + 2 * (ops_before(f, i as int) + j),
                ops_before(f, i as int + 1) == ops_before(f, i as int) + count,
                strictly_sorted(cand@),
                forall|p: (u64, u32)|
                    #[trigger] cand@.contains(p) <==> (p == (f.entry, 0u32) || (exists|e: int|
                        0 <= e < f.edges@.len() && edge_leader(f, #[trigger] f.edges@[e], p)) || (exists|a: int, b: int|
                        0 <= a < i && 0 <= b < f.instructions@[a].ops@.len() && #[trigger] op_leader(f, a, b, p))
                        || exists|b: int| 0 <= b < j && #[trigger] op_leader(f, i as int, b, p)),
            decreases count - j,
        {
            let ghost before = cand@;
            let op = &f.instructions[i].ops[j];
            match internal_target_exec(op, j) {
                Some(t) => {
                    if (t as usize) < count {
                        add_position(&mut cand, (address, t));
                    } else {
                        add_position(&mut cand, (sequential, 0));
                    }
                    add_position(&mut cand, (address, j as u32 + 1));
                },
                None => {
                    if op.opcode == CBRANCH && j + 1 < count {
                        add_position(&mut cand, (address, j as u32 + 1));
                        if op.inputs.len() > 0 && op.inputs[0].space != CONST_SPACE && op.inputs[0].offset != sequential
                            && find_instruction(f, op.inputs[0].offset).is_some() {
                            add_position(&mut cand, (op.inputs[0].offset, 0));
                        }
                    }
                },
            }
            proof {
                assert forall|p: (u64, u32)|
                    #[trigger] cand@.contains(p) <==> (before.contains(p) || op_leader(f, i as int, j as int, p)) by {}
                assert forall|p: (u64, u32)|
                    #[trigger] cand@.contains(p) <==> (p == (f.entry, 0u32) || (exists|e: int|
                        0 <= e < f.edges@.len() && edge_leader(f, #[trigger] f.edges@[e], p)) || (exists|a: int, b: int|
                        0 <= a < i && 0 <= b < f.instructions@[a].ops@.len() && #[trigger] op_leader(f, a, b, p))
                        || exists|b: int| 0 <= b < j + 1 && #[trigger] op_leader(f, i as int, b, p)) by {
                    if exists|b: int| 0 <= b < j + 1 && #[trigger] op_leader(f, i as int, b, p) {
                        let b = choose|b: int| 0 <= b < j + 1 && #[trigger] op_leader(f, i as int, b, p);
                        if b < j {
                            assert(before.contains(p));
                        }
                    }
                }
            }
            j += 1;
        }
        proof {
            assert forall|p: (u64, u32)|
                #[trigger] cand@.contains(p) <==> (p == (f.entry, 0u32) || (exists|e: int|
                    0 <= e < f.edges@.len() && edge_leader(f, #[trigger] f.edges@[e], p)) || exists|a: int, b: int|
                    0 <= a < i + 1 && 0 <= b < f.instructions@[a].ops@.len() && #[trigger] op_leader(f, a, b, p)) by {
                if exists|a: int, b: int| 0 <= a < i + 1 && 0 <= b < f.instructions@[a].ops@.len() && #[trigger] op_leader(f, a, b, p) {
                    let (a, b) = choose|a: int, b: int| 0 <= a < i + 1 && 0 <= b < f.instructions@[a].ops@.len() && #[trigger] op_leader(f, a, b, p);
                    if a == i {
                        assert(0 <= b < j && op_leader(f, i as int, b, p));
                    }
                }
            }
        }
        i += 1;
    }
    let mut r: Vec<(u64, u32)> = Vec::new();
    let mut c: usize = 0;
    while c < cand.len()
        invariant
            f.wf(),
            c <= cand@.len(),
            r@.len() <= c,
            cand@.len() <= leader_bound(f),
            strictly_sorted(cand@),
            strictly_sorted(r@),
            r@.len() > 0 ==> exists|m: int| 0 <= m < c && r@.last() == cand@[m],
            forall|p: (u64, u32)|
                #[trigger] r@.contains(p) <==> (exists|m: int| 0 <= m < c && cand@[m] == p) && valid_position(f, p),
        decreases cand@.len() - c,
    {
        let p = cand[c];
        let ghost r0 = r@;
        if is_valid_position(f, p) {
            r.push(p);
            proof {
                if r0.len() > 0 {
                    let m = choose|m: int| 0 <= m < c && r0.last() == cand@[m];
                    assert(position_before(cand@[m], cand@[c as int]));
                }
                assert forall|a: int, b: int| 0 <= a < b < r@.len() implies position_before(#[trigger] r@[a], #[trigger] r@[b]) by {
                    if b == r0.len() {
                        if a < r0.len() - 1 {
                            assert(position_before(r0[a], r0.last()));
                        }
                    } else {
                        assert(r@[a] == r0[a] && r@[b] == r0[b]);
                    }
                }
                assert(r@.last() == cand@[c as int]);
            }
        }
        proof {
            assert forall|q: (u64, u32)|
                #[trigger] r@.contains(q) <==> (exists|m: int| 0 <= m < c + 1 && cand@[m] == q) && valid_position(f, q) by {
                if r@.contains(q) && !r0.contains(q) {
                    assert(q == p);
                    assert(cand@[c as int] == q);
                }
                if r0.contains(q) {
                    let k2 = choose|k2: int| 0 <= k2 < r0.len() && r0[k2] == q;
                    assert(r@[k2] == q);
                }
                if (exists|m: int| 0 <= m < c + 1 && cand@[m] == q) && valid_position(f, q) {
                    let m = choose|m: int| 0 <= m < c + 1 && cand@[m] == q;
                    if m == c {
                        assert(r@.last() == q);
                    } else {
                        assert(r0.contains(q));
                        let k2 = choose|k2: int| 0 <= k2 < r0.len() && r0[k2] == q;
                        assert(r@[k2] == q);
                    }
                }
            }
        }
        c += 1;
    }
    proof {
        assert forall|p: (u64, u32)| #[trigger] r@.contains(p) <==> is_leader(f, p) by {
            if cand@.contains(p) {
                let m = choose|m: int| 0 <= m < cand@.len() && cand@[m] == p;
                assert(exists|m: int| 0 <= m < cand@.len() && cand@[m] == p);
            }
        }
    }
    r
}


/// The arenas of a graph built from `f` have room for every block, operation
/// and value it needs.
pub open spec fn fits_arenas(f: &LiftedFunction) -> bool {
    &&& leader_bound(f) < u32::MAX
    &&& reads_before(f, f.instructions@.len() as int) + 2 * ops_before(f, f.instructions@.len() as int) + 2 < u32::MAX
}

/// Where each block of `d` begins, by block identifier.
pub open spec fn block_starts(d: &Funcdata) -> Seq<(u64, u32)> {
    Seq::new(d.bls().len(), |k: int| (d.bls()[k].start, d.bls()[k].start_order))
}

/// A value sits at a location.
pub open spec fn at_location(v: GraphVarnode, l: Location) -> bool {
    v.space == l.space && v.offset == l.offset && v.size == l.size
}

/// Operation `j` of `ins` branches past the instruction's last operation, so
/// it transfers to the next instruction.
pub open spec fn leaves_instruction(ins: LiftedInstruction, j: int) -> bool {
    match internal_target(ins.ops@[j], j) {
        Some(t) => t as int >= ins.ops@.len(),
        None => false,
    }
}

/// Where operand `k` of operation `j` of `ins` is read from in the graph: its
/// own location, except that a branch past the instruction names the next
/// instruction's address.
pub open spec fn read_location(ins: LiftedInstruction, j: int, k: int) -> Location {
    if k == 0 && leaves_instruction(ins, j) {
        Location { space: RAM_SPACE, offset: ins.address.wrapping_add(ins.len as u64), size: 4 }
    } else {
        ins.ops@[j].inputs@[k]
    }
}

/// Operation `o` of `d` is operation `seq.order` of the instruction at
/// `seq.address`: same opcode, one value per operand at the operand's
/// location, and an output at the lifted output's location defined by `o`.
pub open spec fn built_from(f: &LiftedFunction, d: &Funcdata, o: OpId) -> bool {
    exists|i: int|
        0 <= i < f.instructions@.len() && #[trigger] f.instructions@[i].address == d.opn(o).seq.address && {
            let ins = f.instructions@[i];
            let j = d.opn(o).seq.order as int;
            &&& j < ins.ops@.len()
            &&& d.opn(o).opcode == ins.ops@[j].opcode
            &&& d.opn(o).inputs@.len() == ins.ops@[j].inputs@.len()
            &&& forall|k: int|
                0 <= k < ins.ops@[j].inputs@.len() ==> at_location(
                    #[trigger] d.vn(d.opn(o).inputs@[k]),
                    read_location(ins, j, k),
                )
            &&& d.opn(o).output.is_some() == ins.ops@[j].output.is_some()
            &&& (d.opn(o).output matches Some(v) ==> at_location(d.vn(v), ins.ops@[j].output.unwrap()) && d.vn(v).def
                == Some(o))
        }
}

/// Every value `o` reads is free: nothing defines it and `o` is its one reader.
pub open spec fn reads_free(d: &Funcdata, o: OpId) -> bool {
    forall|k: int|
        0 <= k < d.opn(o).inputs@.len() ==> (#[trigger] d.vn(d.opn(o).inputs@[k])).def is None
            && d.vn(d.opn(o).inputs@[k]).descendants@ == seq![o]
}

/// The same, by who reads: nothing defines each value `o` reads, and no other
/// operation reads it.
spec fn reads_only_by(d: &Funcdata, o: OpId) -> bool {
    forall|k: int|
        0 <= k < d.opn(o).inputs@.len() ==> (#[trigger] d.vn(d.opn(o).inputs@[k])).def is None && forall|x: OpId|
            d.valid_op(x) && #[trigger] d.reads(x, d.opn(o).inputs@[k]) ==> x == o
}

/// Operation `o` is live and listed in a block that begins no later than it.
pub open spec fn placed(d: &Funcdata, o: OpId) -> bool {
    &&& !d.opn(o).dead
    &&& d.opn(o).parent matches Some(b) && d.valid_block(b) && d.blk(b).ops@.contains(o) && !position_before(
        (d.opn(o).seq.address, d.opn(o).seq.order),
        (d.blk(b).start, d.blk(b).start_order),
    )
}

/// The instruction at `a` is a delay slot that the transfer before it already
/// carries: that transfer absorbed delay-slot bytes and `a` is the address
/// right after it.
pub open spec fn embedded_delay_slot(f: &LiftedFunction, a: u64) -> bool {
    &&& has_instruction(f, a)
    &&& exists|i: int|
        0 <= i < f.instructions@.len() && #[trigger] f.instructions@[i].embedded_delay_slot_bytes != 0
            && f.instructions@[i].address + f.instructions@[i].len == a
}

/// The operations at `a` are not built: a carried delay slot runs once, inside
/// its transfer, unless a block begins there.
pub open spec fn skipped(f: &LiftedFunction, a: u64) -> bool {
    embedded_delay_slot(f, a) && !is_leader(f, (a, 0u32))
}

/// Where operation `o` of `d` came from: its address and operation index.
pub open spec fn position_of(d: &Funcdata, o: OpId) -> (u64, u32) {
    (d.opn(o).seq.address, d.opn(o).seq.order)
}

/// Operations were made in lifted order: a later identifier always comes
/// from a later position, so no position is built twice.
pub open spec fn in_lifted_order(d: &Funcdata) -> bool {
    forall|a: OpId, b: OpId|
        d.valid_op(a) && d.valid_op(b) && a.0 < b.0 ==> position_before(
            #[trigger] position_of(d, a),
            #[trigger] position_of(d, b),
        )
}

/// Each block lists its operations in lifted order.
pub open spec fn blocks_in_order(d: &Funcdata) -> bool {
    forall|x: GraphBlockId, a: int, c: int|
        d.valid_block(x) && 0 <= a < c < d.blk(x).ops@.len() ==> position_before(
            position_of(d, #[trigger] d.blk(x).ops@[a]),
            position_of(d, #[trigger] d.blk(x).ops@[c]),
        )
}

/// Position `k` of `starts` is the last one at or before `p`.
pub open spec fn last_start_at_or_before(starts: Seq<(u64, u32)>, p: (u64, u32), k: int) -> bool {
    &&& 0 <= k < starts.len()
    &&& !position_before(p, starts[k])
    &&& forall|m: int| k < m < starts.len() ==> position_before(p, #[trigger] starts[m])
}

/// Block `x` of `d` has an edge to block `y`.
pub open spec fn has_edge(d: &Funcdata, x: int, y: int) -> bool {
    d.bls()[x].successors@.contains(GraphBlockId(y as u32))
}

/// Block `k` of `d` ends in an operation that always leaves it.
pub open spec fn ends_in_transfer(d: &Funcdata, k: int) -> bool {
    let ops = d.bls()[k].ops@;
    ops.len() > 0 && {
        let c = d.opv()[ops.last().0 as int].opcode;
        c == BRANCH || c == BRANCHIND || c == RETURN
    }
}

/// Blocks `k` and `k + 1` split one instruction, and unless the first always
/// leaves, it falls through to the second.
pub open spec fn falls_through(d: &Funcdata, k: int) -> bool {
    0 <= k && k + 1 < d.bls().len() && d.bls()[k].start == d.bls()[k + 1].start && !ends_in_transfer(d, k) ==> has_edge(
        d,
        k,
        k + 1,
    )
}

/// The machine edge `e` joins the block that holds the end of its source
/// instruction to the block that begins at its target, when both exist.
pub open spec fn carries_edge(d: &Funcdata, e: (u64, u64)) -> bool {
    forall|k: int, t: int|
        last_start_at_or_before(block_starts(d), (e.0, u32::MAX), k) && 0 <= t < d.bls().len() && #[trigger] block_starts(d)[t]
            == (e.1, 0u32) ==> #[trigger] has_edge(d, k, t)
}

/// Edges only grew from `a` to `b`, and nothing else about the blocks changed.
spec fn edges_grow(a: &Funcdata, b: &Funcdata) -> bool {
    &&& a.bls().len() == b.bls().len()
    &&& a.opv() == b.opv()
    &&& forall|x: int| 0 <= x < a.bls().len() ==> (#[trigger] b.bls()[x]).ops == a.bls()[x].ops && b.bls()[x].start
        == a.bls()[x].start && b.bls()[x].start_order == a.bls()[x].start_order
    &&& forall|x: int, y: GraphBlockId| 0 <= x < a.bls().len() && #[trigger] a.bls()[x].successors@.contains(y) ==> b.bls()[x].successors@.contains(y)
}

/// An added edge keeps every edge there was and adds `from -> to`.
proof fn lemma_add_edge_grows(a: &Funcdata, b: &Funcdata, from: GraphBlockId, to: GraphBlockId)
    requires
        a.valid_block(from),
        a.bls().len() <= u32::MAX,
        a.bls().len() == b.bls().len(),
        a.opv() == b.opv(),
        forall|x: GraphBlockId| #![trigger b.blk(x)] b.valid_block(x) ==> crate::graph::same_but_edges(b.blk(x), a.blk(x)),
        forall|x: GraphBlockId| #![trigger b.blk(x)] b.valid_block(x) && x != from ==> b.blk(x).successors == a.blk(x).successors,
        b.blk(from).successors@ == crate::graph::add_unique(a.blk(from).successors@, to),
    ensures
        edges_grow(a, b),
        b.bls()[from.0 as int].successors@.contains(to),
{
    assert forall|x: int| 0 <= x < a.bls().len() implies (#[trigger] b.bls()[x]).ops == a.bls()[x].ops && b.bls()[x].start
        == a.bls()[x].start && b.bls()[x].start_order == a.bls()[x].start_order by {
        let g = GraphBlockId(x as u32);
        assert(b.blk(g) == b.bls()[x]);
    }
    assert forall|x: int, y: GraphBlockId| 0 <= x < a.bls().len() && #[trigger] a.bls()[x].successors@.contains(y) implies b.bls()[x].successors@.contains(y) by {
        let g = GraphBlockId(x as u32);
        assert(b.blk(g) == b.bls()[x]);
        if g == from {
            let k = choose|k: int| 0 <= k < a.bls()[x].successors@.len() && a.bls()[x].successors@[k] == y;
            if !a.blk(from).successors@.contains(to) {
                assert(b.blk(from).successors@[k] == y);
            }
        }
    }
    if !a.blk(from).successors@.contains(to) {
        assert(b.blk(from).successors@[a.blk(from).successors@.len() as int] == to);
    }
}

/// The two destinations of operation `j` of instruction `i` when it branches
/// within or right out of its instruction: where it is taken to, then where it
/// falls through to.
pub open spec fn internal_destinations(f: &LiftedFunction, i: int, j: int) -> Option<((u64, u32), (u64, u32))> {
    let ins = f.instructions@[i];
    let op = ins.ops@[j];
    let fall = (ins.address, (j + 1) as u32);
    match internal_target(op, j) {
        Some(t) => Some((
            if (t as int) < ins.ops@.len() {
                (ins.address, t)
            } else {
                (sequential_after(f, i), 0u32)
            },
            fall,
        )),
        None => if op.opcode == CBRANCH && j + 1 < ins.ops@.len() && op.inputs@.len() > 0 && op.inputs@[0].space != CONST_SPACE {
            Some(((op.inputs@[0].offset, 0u32), fall))
        } else {
            None
        },
    }
}

/// The block holding position `source` has an edge to each block that begins
/// at `taken` or at `fall`.
pub open spec fn carries_branch(d: &Funcdata, source: (u64, u32), taken: (u64, u32), fall: (u64, u32)) -> bool {
    forall|k: int, t: int|
        last_start_at_or_before(block_starts(d), source, k) && 0 <= t < d.bls().len() && (#[trigger] block_starts(d)[t] == taken
            || block_starts(d)[t] == fall) ==> #[trigger] has_edge(d, k, t)
}

/// Every built operation that branches within or right out of its
/// instruction has its edges.
pub open spec fn carries_internal(f: &LiftedFunction, d: &Funcdata) -> bool {
    forall|o: OpId, i: int|
        d.valid_op(o) && 0 <= i < f.instructions@.len() && #[trigger] f.instructions@[i].address == (#[trigger] d.opn(o)).seq.address
            && (d.opn(o).seq.order as int) < f.instructions@[i].ops@.len() ==> match internal_destinations(
            f,
            i,
            d.opn(o).seq.order as int,
        ) {
            Some(ds) => carries_branch(d, position_of(d, o), ds.0, ds.1),
            None => true,
        }
}

/// Edge `x -> y` comes from a built operation that branches within or right
/// out of its instruction: `x` holds the operation and `y` begins at one of
/// its destinations.
pub open spec fn internal_edge(f: &LiftedFunction, d: &Funcdata, x: int, y: int) -> bool {
    exists|o: OpId, i: int|
        {
            &&& d.valid_op(o)
            &&& 0 <= i < f.instructions@.len()
            &&& #[trigger] f.instructions@[i].address == (#[trigger] d.opn(o)).seq.address
            &&& (d.opn(o).seq.order as int) < f.instructions@[i].ops@.len()
            &&& internal_destinations(f, i, d.opn(o).seq.order as int) matches Some(ds)
            &&& last_start_at_or_before(block_starts(d), position_of(d, o), x)
            &&& (block_starts(d)[y] == ds.0 || block_starts(d)[y] == ds.1)
        }
}

/// Edge `x -> y` is a fall-through between two blocks of one instruction.
pub open spec fn fallthrough_edge(d: &Funcdata, x: int, y: int) -> bool {
    y == x + 1 && block_starts(d)[x].0 == block_starts(d)[y].0 && !ends_in_transfer(d, x)
}

/// Edge `x -> y` carries a machine edge of `f`.
pub open spec fn machine_edge(f: &LiftedFunction, d: &Funcdata, x: int, y: int) -> bool {
    exists|e: int|
        0 <= e < f.edges@.len() && last_start_at_or_before(block_starts(d), ((#[trigger] f.edges@[e]).0, u32::MAX), x)
            && block_starts(d)[y] == (f.edges@[e].1, 0u32)
}

/// Every edge of `d` is one of the three kinds.
pub open spec fn edges_explained(f: &LiftedFunction, d: &Funcdata) -> bool {
    forall|x: int, y: int|
        0 <= x < d.bls().len() && 0 <= y < d.bls().len() && #[trigger] has_edge(d, x, y) ==> internal_edge(f, d, x, y)
            || fallthrough_edge(d, x, y) || machine_edge(f, d, x, y)
}

/// The same with the internal branches read from a list of entries.
spec fn edges_explained_by(f: &LiftedFunction, d: &Funcdata, list: Seq<((u64, u32), (u64, u32), (u64, u32))>) -> bool {
    forall|x: int, y: int|
        0 <= x < d.bls().len() && 0 <= y < d.bls().len() && #[trigger] has_edge(d, x, y) ==> (exists|q: int|
            0 <= q < list.len() && last_start_at_or_before(block_starts(d), (#[trigger] list[q]).0, x) && (block_starts(d)[y]
                == list[q].1 || block_starts(d)[y] == list[q].2)) || fallthrough_edge(d, x, y) || machine_edge(f, d, x, y)
}

/// Every listed entry comes from a built operation and its destinations.
spec fn entries_built(f: &LiftedFunction, d: &Funcdata, list: Seq<((u64, u32), (u64, u32), (u64, u32))>) -> bool {
    forall|q: int|
        0 <= q < list.len() ==> exists|o: OpId, i: int|
            d.valid_op(o) && 0 <= i < f.instructions@.len() && #[trigger] f.instructions@[i].address == (#[trigger] d.opn(
                o,
            )).seq.address && (d.opn(o).seq.order as int) < f.instructions@[i].ops@.len() && position_of(d, o) == (
            #[trigger] list[q]).0 && internal_destinations(f, i, d.opn(o).seq.order as int) == Some((list[q].1, list[q].2))
}

/// Adding one edge whose reason holds keeps every edge explained.
proof fn lemma_explained_add(
    f: &LiftedFunction,
    a: &Funcdata,
    b: &Funcdata,
    list: Seq<((u64, u32), (u64, u32), (u64, u32))>,
    from: GraphBlockId,
    to: GraphBlockId,
)
    requires
        a.bls().len() <= u32::MAX,
        edges_grow(a, b),
        edges_explained_by(f, a, list),
        a.valid_block(from),
        a.valid_block(to),
        forall|x: GraphBlockId| #![trigger b.blk(x)] b.valid_block(x) && x != from ==> b.blk(x).successors == a.blk(x).successors,
        b.blk(from).successors@ == crate::graph::add_unique(a.blk(from).successors@, to),
        (exists|q: int|
            0 <= q < list.len() && last_start_at_or_before(block_starts(a), (#[trigger] list[q]).0, from.0 as int) && (
            block_starts(a)[to.0 as int] == list[q].1 || block_starts(a)[to.0 as int] == list[q].2)) || fallthrough_edge(
            a,
            from.0 as int,
            to.0 as int,
        ) || machine_edge(f, a, from.0 as int, to.0 as int),
    ensures
        edges_explained_by(f, b, list),
{
    assert(block_starts(b) =~= block_starts(a)) by {
        assert forall|k: int| 0 <= k < b.bls().len() implies block_starts(b)[k] == block_starts(a)[k] by {
            assert(b.bls()[k].start == a.bls()[k].start);
        }
    }
    assert forall|x: int, y: int|
        0 <= x < b.bls().len() && 0 <= y < b.bls().len() && #[trigger] has_edge(b, x, y) implies (exists|q: int|
            0 <= q < list.len() && last_start_at_or_before(block_starts(b), (#[trigger] list[q]).0, x) && (block_starts(b)[y]
                == list[q].1 || block_starts(b)[y] == list[q].2)) || fallthrough_edge(b, x, y) || machine_edge(f, b, x, y) by {
        let gx = GraphBlockId(x as u32);
        let gy = GraphBlockId(y as u32);
        assert(b.blk(gx) == b.bls()[x]);
        assert(a.blk(gx) == a.bls()[x]);
        assert(ends_in_transfer(b, x) == ends_in_transfer(a, x)) by {
            assert(b.bls()[x].ops == a.bls()[x].ops);
        }
        if gx == from && gy == to {
            assert((from.0 as int) == x && (to.0 as int) == y);
        } else {
            if gx == from {
                if !a.blk(from).successors@.contains(to) {
                    let k = choose|k: int| 0 <= k < b.blk(from).successors@.len() && b.blk(from).successors@[k] == gy;
                    if k == a.blk(from).successors@.len() {
                        assert(gy == to);
                    }
                    assert(a.blk(from).successors@[k] == gy);
                }
            }
            assert(has_edge(a, x, y));
        }
    }
}

/// Every built operation that branches within or right out of its
/// instruction is listed with its destinations.
spec fn listed_branches(f: &LiftedFunction, d: &Funcdata, list: Seq<((u64, u32), (u64, u32), (u64, u32))>) -> bool {
    forall|o: OpId, i: int|
        d.valid_op(o) && 0 <= i < f.instructions@.len() && #[trigger] f.instructions@[i].address == (#[trigger] d.opn(o)).seq.address
            && (d.opn(o).seq.order as int) < f.instructions@[i].ops@.len() ==> match internal_destinations(
            f,
            i,
            d.opn(o).seq.order as int,
        ) {
            Some(ds) => list.contains((position_of(d, o), ds.0, ds.1)),
            None => true,
        }
}

proof fn lemma_carries_branch_grows(a: &Funcdata, b: &Funcdata, source: (u64, u32), taken: (u64, u32), fall: (u64, u32))
    requires
        edges_grow(a, b),
        carries_branch(a, source, taken, fall),
    ensures
        carries_branch(b, source, taken, fall),
{
    assert(block_starts(b) =~= block_starts(a)) by {
        assert forall|k: int| 0 <= k < b.bls().len() implies block_starts(b)[k] == block_starts(a)[k] by {
            assert(b.bls()[k].start == a.bls()[k].start);
        }
    }
    assert forall|k: int, t: int|
        last_start_at_or_before(block_starts(b), source, k) && 0 <= t < b.bls().len() && (#[trigger] block_starts(b)[t] == taken
            || block_starts(b)[t] == fall) implies #[trigger] has_edge(b, k, t) by {
        assert(block_starts(a)[t] == block_starts(b)[t]);
        assert(has_edge(a, k, t));
        assert(a.bls()[k].successors@.contains(GraphBlockId(t as u32)));
    }
}

proof fn lemma_falls_through_grows(a: &Funcdata, b: &Funcdata, m: int)
    requires
        edges_grow(a, b),
        falls_through(a, m),
    ensures
        falls_through(b, m),
{
    if 0 <= m && m + 1 < b.bls().len() {
        assert(b.bls()[m].ops == a.bls()[m].ops);
        assert(b.bls()[m + 1].start == a.bls()[m + 1].start);
        if a.bls()[m].start == a.bls()[m + 1].start && !ends_in_transfer(a, m) {
            assert(a.bls()[m].successors@.contains(GraphBlockId((m + 1) as u32)));
        }
    }
}

proof fn lemma_carries_edge_grows(a: &Funcdata, b: &Funcdata, e: (u64, u64))
    requires
        edges_grow(a, b),
        carries_edge(a, e),
    ensures
        carries_edge(b, e),
{
    assert(block_starts(b) =~= block_starts(a)) by {
        assert forall|k: int| 0 <= k < b.bls().len() implies block_starts(b)[k] == block_starts(a)[k] by {
            assert(b.bls()[k].start == a.bls()[k].start);
        }
    }
    assert forall|k: int, t: int|
        last_start_at_or_before(block_starts(b), (e.0, u32::MAX), k) && 0 <= t < b.bls().len() && #[trigger] block_starts(b)[t]
            == (e.1, 0u32) implies #[trigger] has_edge(b, k, t) by {
        assert(block_starts(a)[t] == (e.1, 0u32));
        assert(has_edge(a, k, t));
        assert(a.bls()[k].successors@.contains(GraphBlockId(t as u32)));
    }
}

/// What holds of a graph under construction from `f` with blocks at `starts`.
spec fn building(f: &LiftedFunction, d: &Funcdata, starts: Seq<(u64, u32)>) -> bool {
    &&& d.wf()
    &&& d.spec_entry() == f.entry
    &&& block_starts(d) == starts
    &&& forall|b: GraphBlockId| d.valid_block(b) ==> !(#[trigger] d.blk(b)).dead
    &&& forall|o: OpId| d.valid_op(o) ==> #[trigger] placed(d, o)
    &&& forall|o: OpId| d.valid_op(o) ==> #[trigger] built_from(f, d, o)
    &&& forall|o: OpId| d.valid_op(o) ==> #[trigger] reads_only_by(d, o)
    &&& forall|o: OpId| d.valid_op(o) ==> !skipped(f, (#[trigger] d.opn(o)).seq.address)
    &&& in_lifted_order(d)
    &&& blocks_in_order(d)
}

/// Adding edges keeps everything `building` says.
proof fn lemma_building_edges(f: &LiftedFunction, a: &Funcdata, b: &Funcdata, starts: Seq<(u64, u32)>)
    requires
        building(f, a, starts),
        b.wf(),
        b.spec_entry() == a.spec_entry(),
        b.vns() == a.vns(),
        b.opv() == a.opv(),
        b.bls().len() == a.bls().len(),
        forall|x: GraphBlockId| #![trigger b.blk(x)] b.valid_block(x) ==> crate::graph::same_but_edges(b.blk(x), a.blk(x)),
    ensures
        building(f, b, starts),
{
    assert(block_starts(b) =~= block_starts(a)) by {
        assert forall|k: int| 0 <= k < b.bls().len() implies block_starts(b)[k] == block_starts(a)[k] by {
            let x = GraphBlockId(k as u32);
            assert(b.blk(x) == b.bls()[k]);
        }
    }
    assert forall|x: GraphBlockId| b.valid_block(x) implies !(#[trigger] b.blk(x)).dead by {
        assert(!a.blk(x).dead);
    }
    assert forall|o: OpId| b.valid_op(o) implies #[trigger] placed(b, o) by {
        assert(placed(a, o));
        let x = a.opn(o).parent.unwrap();
        assert(b.blk(x) == b.bls()[x.0 as int]);
    }
    assert forall|o: OpId| b.valid_op(o) implies #[trigger] built_from(f, b, o) by {
        assert(built_from(f, a, o));
        assert(b.opn(o) == a.opn(o));
        let i = choose|i: int|
            0 <= i < f.instructions@.len() && #[trigger] f.instructions@[i].address == a.opn(o).seq.address && {
                let ins = f.instructions@[i];
                let j = a.opn(o).seq.order as int;
                &&& j < ins.ops@.len()
                &&& a.opn(o).opcode == ins.ops@[j].opcode
                &&& a.opn(o).inputs@.len() == ins.ops@[j].inputs@.len()
                &&& forall|k: int|
                    0 <= k < ins.ops@[j].inputs@.len() ==> at_location(
                        #[trigger] a.vn(a.opn(o).inputs@[k]),
                        read_location(ins, j, k),
                    )
                &&& a.opn(o).output.is_some() == ins.ops@[j].output.is_some()
                &&& (a.opn(o).output matches Some(v) ==> at_location(a.vn(v), ins.ops@[j].output.unwrap()) && a.vn(v).def
                    == Some(o))
            };
        let ins = f.instructions@[i];
        let j = a.opn(o).seq.order as int;
        assert forall|k: int| 0 <= k < ins.ops@[j].inputs@.len() implies at_location(
            #[trigger] b.vn(b.opn(o).inputs@[k]),
            read_location(ins, j, k),
        ) by {
            assert(at_location(a.vn(a.opn(o).inputs@[k]), read_location(ins, j, k)));
        }
    }
    assert forall|o: OpId| b.valid_op(o) implies !skipped(f, (#[trigger] b.opn(o)).seq.address) by {
        assert(b.opn(o) == a.opn(o));
    }
    assert forall|p: OpId, q: OpId|
        b.valid_op(p) && b.valid_op(q) && p.0 < q.0 implies position_before(
            #[trigger] position_of(b, p),
            #[trigger] position_of(b, q),
        ) by {
        assert(position_of(b, p) == position_of(a, p));
        assert(position_of(b, q) == position_of(a, q));
    }
    assert forall|x: GraphBlockId, m: int, c: int|
        b.valid_block(x) && 0 <= m < c < b.blk(x).ops@.len() implies position_before(
            position_of(b, #[trigger] b.blk(x).ops@[m]),
            position_of(b, #[trigger] b.blk(x).ops@[c]),
        ) by {
        assert(a.blk(x).ops@[m] == b.blk(x).ops@[m]);
        assert(a.blk(x).ops@[c] == b.blk(x).ops@[c]);
    }
    assert forall|o: OpId| b.valid_op(o) implies #[trigger] reads_only_by(b, o) by {
        assert(reads_only_by(a, o));
        assert(b.opn(o) == a.opn(o));
        assert forall|k: int| 0 <= k < b.opn(o).inputs@.len() implies (#[trigger] b.vn(b.opn(o).inputs@[k])).def is None
            && forall|x: OpId| b.valid_op(x) && #[trigger] b.reads(x, b.opn(o).inputs@[k]) ==> x == o by {
            assert(a.vn(a.opn(o).inputs@[k]).def is None);
            assert forall|x: OpId| b.valid_op(x) && #[trigger] b.reads(x, b.opn(o).inputs@[k]) implies x == o by {
                assert(a.reads(x, a.opn(o).inputs@[k]));
            }
        }
    }
}

/// A value read only by `o`, with no duplicate readers, lists exactly `o`.
proof fn lemma_reads_free(d: &Funcdata, o: OpId)
    requires
        d.wf(),
        d.valid_op(o),
        reads_only_by(d, o),
    ensures
        reads_free(d, o),
{
    assert forall|k: int| 0 <= k < d.opn(o).inputs@.len() implies (#[trigger] d.vn(d.opn(o).inputs@[k])).def is None
        && d.vn(d.opn(o).inputs@[k]).descendants@ == seq![o] by {
        let v = d.opn(o).inputs@[k];
        assert(d.op_wf(o));
        assert(d.valid_vn(v));
        assert(d.vn_wf(v));
        let s = d.vn(v).descendants@;
        assert(d.reads(o, v));
        assert(d.read_by(v, o));
        assert(s.contains(o));
        assert forall|m: int| 0 <= m < s.len() implies s[m] == o by {
            let x = s[m];
            assert(d.valid_op(x));
            assert(d.read_by(v, x));
            assert(d.reads(x, v));
        }
        if s.len() > 1 {
            assert(s[0] == o && s[1] == o);
        }
        assert(s =~= seq![o]);
    }
}

/// The index of `p` among the block starts, when it is one.
fn find_leader(leaders: &Vec<(u64, u32)>, p: (u64, u32)) -> (r: Option<usize>)
    ensures
        r matches Some(k) ==> k < leaders@.len() && leaders@[k as int] == p,
        r is None ==> !leaders@.contains(p),
{
    let mut k: usize = 0;
    while k < leaders.len()
        invariant
            k <= leaders@.len(),
            forall|m: int| 0 <= m < k ==> #[trigger] leaders@[m] != p,
        decreases leaders@.len() - k,
    {
        if leaders[k].0 == p.0 && leaders[k].1 == p.1 {
            return Some(k);
        }
        k += 1;
    }
    None
}

/// The last block start at or before `p`.
fn enclosing_leader(leaders: &Vec<(u64, u32)>, p: (u64, u32)) -> (r: Option<usize>)
    ensures
        r matches Some(k) ==> last_start_at_or_before(leaders@, p, k as int),
        r is None ==> forall|m: int| 0 <= m < leaders@.len() ==> position_before(p, #[trigger] leaders@[m]),
{
    let mut found: Option<usize> = None;
    let mut k: usize = 0;
    while k < leaders.len()
        invariant
            k <= leaders@.len(),
            found matches Some(m) ==> m < k && !position_before(p, leaders@[m as int]) && forall|q: int|
                m < q < k ==> position_before(p, #[trigger] leaders@[q]),
            found is None ==> forall|q: int| 0 <= q < k ==> position_before(p, #[trigger] leaders@[q]),
        decreases leaders@.len() - k,
    {
        let q = leaders[k];
        if q.0 < p.0 || (q.0 == p.0 && q.1 <= p.1) {
            found = Some(k);
        }
        k += 1;
    }
    found
}

/// A fresh value for one read: a constant when the location is in the
/// constant space, otherwise a value at the location.
fn value_for_read(data: &mut Funcdata, input: Location) -> (id: VarnodeId)
    requires
        old(data).wf(),
        old(data).vns().len() < u32::MAX,
    ensures
        final(data).wf(),
        id.0 == old(data).vns().len(),
        final(data).vns().len() == old(data).vns().len() + 1,
        final(data).vns().take(old(data).vns().len() as int) == old(data).vns(),
        at_location(final(data).vn(id), input),
        final(data).vn(id).def is None,
        final(data).opv() == old(data).opv(),
        final(data).bls() == old(data).bls(),
        final(data).spec_entry() == old(data).spec_entry(),
{
    if input.space == CONST_SPACE {
        data.new_constant(input.offset, input.size)
    } else {
        data.new_varnode(input.space, input.offset, input.size)
    }
}


/// Two values agree on location and definition.
spec fn same_place(a: GraphVarnode, b: GraphVarnode) -> bool {
    a.space == b.space && a.offset == b.offset && a.size == b.size && a.def == b.def
}

/// Builds operation `j` of instruction `i` at the end of `block`: a fresh
/// value for each read, the operation, and a fresh value for its output; a
/// branch past the instruction reads the next instruction's address instead.
fn add_lifted_op(data: &mut Funcdata, f: &LiftedFunction, i: usize, j: usize, block: GraphBlockId) -> (id: OpId)
    requires
        f.wf(),
        i < f.instructions@.len(),
        j < f.instructions@[i as int].ops@.len(),
        building(f, old(data), block_starts(old(data))),
        old(data).valid_block(block),
        !skipped(f, f.instructions@[i as int].address),
        forall|o: OpId| old(data).valid_op(o) ==> position_before(#[trigger] position_of(old(data), o), (f.instructions@[i as int].address, j as u32)),
        !position_before((f.instructions@[i as int].address, j as u32), (old(data).blk(block).start, old(data).blk(block).start_order)),
        old(data).opv().len() + 1 < u32::MAX,
        old(data).vns().len() + f.instructions@[i as int].ops@[j as int].inputs@.len() + 2 < u32::MAX,
    ensures
        building(f, final(data), block_starts(old(data))),
        final(data).opv().len() == old(data).opv().len() + 1,
        final(data).vns().len() <= old(data).vns().len() + f.instructions@[i as int].ops@[j as int].inputs@.len() + 2,
        forall|o: OpId|
            final(data).valid_op(o) ==> (old(data).valid_op(o) && #[trigger] position_of(final(data), o) == position_of(old(data), o))
                || position_of(final(data), o) == (f.instructions@[i as int].address, j as u32),
        final(data).bls().len() == old(data).bls().len(),
        forall|x: int| 0 <= x < old(data).bls().len() ==> (#[trigger] final(data).bls()[x]).successors == old(data).bls()[x].successors,
        final(data).valid_op(OpId(old(data).opv().len() as u32)),
        position_of(final(data), OpId(old(data).opv().len() as u32)) == (f.instructions@[i as int].address, j as u32),
{
    let ghost s0 = *data;
    let ghost starts = block_starts(&s0);
    let ins = &f.instructions[i];
    let op = &ins.ops[j];
    let address = ins.address;
    let n = op.inputs.len();
    let mut inputs: Vec<VarnodeId> = Vec::new();
    let mut k: usize = 0;
    while k < n
        invariant
            data.wf(),
            data.opv() == s0.opv(),
            data.bls() == s0.bls(),
            data.spec_entry() == s0.spec_entry(),
            data.vns().len() == s0.vns().len() + k,
            data.vns().take(s0.vns().len() as int) == s0.vns(),
            k <= n,
            n == op.inputs@.len(),
            s0.vns().len() + n + 2 < u32::MAX,
            inputs@.len() == k,
            forall|m: int|
                0 <= m < k ==> (#[trigger] inputs@[m]).0 == s0.vns().len() + m && at_location(data.vn(inputs@[m]), op.inputs@[m])
                    && data.vn(inputs@[m]).def is None,
        decreases n - k,
    {
        let ghost before = *data;
        let v = value_for_read(data, op.inputs[k]);
        proof {
            assert forall|m: int| 0 <= m < k implies data.vn(#[trigger] inputs@[m]) == before.vn(inputs@[m]) by {
                assert(data.vns().take(before.vns().len() as int)[inputs@[m].0 as int] == data.vns()[inputs@[m].0 as int]);
            }
            assert(data.vns().take(s0.vns().len() as int) =~= s0.vns()) by {
                assert forall|m: int| 0 <= m < s0.vns().len() implies data.vns()[m] == s0.vns()[m] by {
                    assert(data.vns().take(before.vns().len() as int)[m] == data.vns()[m]);
                    assert(before.vns().take(s0.vns().len() as int)[m] == before.vns()[m]);
                }
            }
        }
        inputs.push(v);
        k += 1;
    }
    let ghost s1 = *data;
    let ghost fresh = inputs@;
    proof {
        assert(vns_below(inputs@, s1.vns().len() as int));
        assert forall|v: VarnodeId| s0.valid_vn(v) implies #[trigger] s1.vn(v) == s0.vn(v) by {
            assert(s1.vns().take(s0.vns().len() as int)[v.0 as int] == s1.vns()[v.0 as int]);
        }
    }
    let id = data.new_op(op.opcode, SeqNum { address, order: j as u32 }, inputs);
    let ghost s2 = *data;
    data.op_insert_end(id, block);
    let ghost s3 = *data;
    proof {
        assert forall|o: OpId| s0.valid_op(o) implies #[trigger] s3.opn(o) == s0.opn(o) by {
            assert(s2.opv().take(s1.opv().len() as int)[o.0 as int] == s2.opv()[o.0 as int]);
        }
        assert forall|v: VarnodeId| s1.valid_vn(v) implies same_place(#[trigger] s3.vn(v), s1.vn(v)) by {
            assert(s2.valid_vn(v));
            assert(crate::graph::same_but_readers(s2.vn(v), s1.vn(v)));
            assert(s3.vn(v) == s2.vn(v));
        }
        assert forall|v: VarnodeId| s0.valid_vn(v) implies same_place(#[trigger] s3.vn(v), s0.vn(v)) by {
            assert(s1.vn(v) == s0.vn(v));
            assert(same_place(s3.vn(v), s1.vn(v)));
        }
        assert forall|m: int| 0 <= m < n implies same_place(#[trigger] s3.vn(fresh[m]), s1.vn(fresh[m])) by {
            assert(s1.valid_vn(fresh[m]));
        }
    }
    let mut out_id: Option<VarnodeId> = None;
    match op.output {
        Some(out) => {
            let v = data.new_varnode(out.space, out.offset, out.size);
            let ghost s31 = *data;
            proof {
                assert forall|w: VarnodeId| s3.valid_vn(w) implies #[trigger] s31.vn(w) == s3.vn(w) by {
                    assert(s31.vns().take(s3.vns().len() as int)[w.0 as int] == s31.vns()[w.0 as int]);
                }
            }
            data.op_set_output(id, Some(v));
            out_id = Some(v);
        },
        None => {},
    }
    let ghost s4 = *data;
    proof {
        assert(s4.opn(id).output == out_id);
        assert forall|o: OpId| s0.valid_op(o) implies #[trigger] s4.opn(o) == s0.opn(o) by {
            assert(s3.opn(o) == s0.opn(o));
        }
        assert forall|v: VarnodeId| s3.valid_vn(v) implies same_place(#[trigger] s4.vn(v), s3.vn(v)) by {}
    }
    let count = ins.ops.len();
    match internal_target_exec(op, j) {
        Some(t) => {
            if (t as usize) >= count {
                let next = data.new_varnode(RAM_SPACE, address.wrapping_add(ins.len as u64), 4);
                let ghost s41 = *data;
                proof {
                    assert forall|w: VarnodeId| s4.valid_vn(w) implies #[trigger] s41.vn(w) == s4.vn(w) by {
                        assert(s41.vns().take(s4.vns().len() as int)[w.0 as int] == s41.vns()[w.0 as int]);
                    }
                }
                data.op_set_input(id, next, 0);
            }
        },
        None => {},
    }
    let ghost s5 = *data;
    proof {
        let ins_s = f.instructions@[i as int];
        assert(ins_s == *ins);
        assert(ins_s.ops@[j as int] == *op);
        assert forall|o: OpId| s0.valid_op(o) implies #[trigger] s5.opn(o) == s0.opn(o) by {
            assert(s4.opn(o) == s0.opn(o));
        }
        assert forall|v: VarnodeId| s0.valid_vn(v) implies same_place(#[trigger] s5.vn(v), s0.vn(v)) by {
            assert(same_place(s3.vn(v), s0.vn(v)));
            assert(same_place(s4.vn(v), s3.vn(v)));
        }
        assert(s5.opn(id).output == out_id);
        assert(!s5.opn(id).dead && s5.opn(id).parent == Some(block));
        assert(s5.opn(id).seq == (SeqNum { address, order: j as u32 }));
        assert(s5.opn(id).opcode == op.opcode);
        // The inputs of the new operation are the fresh values, but for a
        // branch past the instruction, whose first is the next address.
        assert(s5.opn(id).inputs@.len() == n);
        assert forall|m: int| 0 <= m < n implies (#[trigger] s5.opn(id).inputs@[m]).0 >= s0.vns().len() && at_location(
            s5.vn(s5.opn(id).inputs@[m]),
            read_location(ins_s, j as int, m),
        ) && s5.vn(s5.opn(id).inputs@[m]).def is None by {
            assert(same_place(s3.vn(fresh[m]), s1.vn(fresh[m])));
            assert(same_place(s4.vn(fresh[m]), s3.vn(fresh[m])));
        }
        assert(block_starts(&s5) =~= starts) by {
            assert forall|b: int| 0 <= b < s5.bls().len() implies block_starts(&s5)[b] == starts[b] by {
                let x = GraphBlockId(b as u32);
                assert(s5.blk(x) == s5.bls()[b]);
            }
        }
        assert forall|x: GraphBlockId| s5.valid_block(x) implies !(#[trigger] s5.blk(x)).dead by {
            assert(!s0.blk(x).dead);
        }
        assert forall|o: OpId| s5.valid_op(o) implies #[trigger] placed(&s5, o) by {
            if o != id {
                assert(s0.valid_op(o));
                assert(placed(&s0, o));
                let x = s0.opn(o).parent.unwrap();
                if x == block {
                    assert(s5.blk(x).ops@ == s0.blk(x).ops@.push(id));
                    let q = choose|q: int| 0 <= q < s0.blk(x).ops@.len() && s0.blk(x).ops@[q] == o;
                    assert(s5.blk(x).ops@[q] == o);
                } else {
                    assert(s5.blk(x) == s0.blk(x));
                }
            } else {
                assert(s5.blk(block).ops@ == s0.blk(block).ops@.push(id));
                assert(s5.blk(block).ops@[s0.blk(block).ops@.len() as int] == id);
            }
        }
        assert forall|o: OpId| s5.valid_op(o) implies #[trigger] built_from(f, &s5, o) by {
            if o != id {
                assert(s0.valid_op(o));
                assert(built_from(f, &s0, o));
                let i0 = choose|i0: int|
                    0 <= i0 < f.instructions@.len() && #[trigger] f.instructions@[i0].address == s0.opn(o).seq.address && {
                        let ins = f.instructions@[i0];
                        let j = s0.opn(o).seq.order as int;
                        &&& j < ins.ops@.len()
                        &&& s0.opn(o).opcode == ins.ops@[j].opcode
                        &&& s0.opn(o).inputs@.len() == ins.ops@[j].inputs@.len()
                        &&& forall|k: int|
                            0 <= k < ins.ops@[j].inputs@.len() ==> at_location(
                                #[trigger] s0.vn(s0.opn(o).inputs@[k]),
                                read_location(ins, j, k),
                            )
                        &&& s0.opn(o).output.is_some() == ins.ops@[j].output.is_some()
                        &&& (s0.opn(o).output matches Some(v) ==> at_location(s0.vn(v), ins.ops@[j].output.unwrap())
                            && s0.vn(v).def == Some(o))
                    };
                let ins0 = f.instructions@[i0];
                let j0 = s0.opn(o).seq.order as int;
                assert(s0.op_wf(o));
                assert forall|k: int| 0 <= k < ins0.ops@[j0].inputs@.len() implies at_location(
                    #[trigger] s5.vn(s5.opn(o).inputs@[k]),
                    read_location(ins0, j0, k),
                ) by {
                    let v = s0.opn(o).inputs@[k];
                    assert(s0.valid_vn(v));
                    assert(same_place(s5.vn(v), s0.vn(v)));
                    assert(at_location(s0.vn(v), read_location(ins0, j0, k)));
                }
                if let Some(w) = s0.opn(o).output {
                    assert(same_place(s5.vn(w), s0.vn(w)));
                }
            } else {
                assert(f.instructions@[i as int].address == s5.opn(id).seq.address);
                assert forall|m: int| 0 <= m < op.inputs@.len() implies at_location(
                    #[trigger] s5.vn(s5.opn(id).inputs@[m]),
                    read_location(ins_s, j as int, m),
                ) by {
                    assert((s5.opn(id).inputs@[m]).0 >= s0.vns().len());
                }
                if let Some(w) = out_id {
                    assert(s4.vn(w).def == Some(id));
                    assert(same_place(s5.vn(w), s4.vn(w)));
                }
            }
        }
        assert forall|o: OpId| s5.valid_op(o) implies !skipped(f, (#[trigger] s5.opn(o)).seq.address) by {
            if o != id {
                assert(s5.opn(o) == s0.opn(o));
            }
        }
        assert(position_of(&s5, id) == (address, j as u32));
        assert forall|x: int| 0 <= x < s0.bls().len() implies (#[trigger] s5.bls()[x]).successors == s0.bls()[x].successors by {
            let g = GraphBlockId(x as u32);
            assert(s5.blk(g) == s5.bls()[x]);
        }
        assert forall|o: OpId| s5.valid_op(o) implies (s0.valid_op(o) && #[trigger] position_of(&s5, o) == position_of(&s0, o))
            || position_of(&s5, o) == (address, j as u32) by {
            if o != id {
                assert(s5.opn(o) == s0.opn(o));
            }
        }
        assert forall|a: OpId, b: OpId|
            s5.valid_op(a) && s5.valid_op(b) && a.0 < b.0 implies position_before(
                #[trigger] position_of(&s5, a),
                #[trigger] position_of(&s5, b),
            ) by {
            assert(s5.opn(a) == s0.opn(a));
            assert(position_of(&s5, a) == position_of(&s0, a));
            if b != id {
                assert(s5.opn(b) == s0.opn(b));
                assert(position_of(&s5, b) == position_of(&s0, b));
            }
        }
        assert forall|x: GraphBlockId, m: int, c: int|
            s5.valid_block(x) && 0 <= m < c < s5.blk(x).ops@.len() implies position_before(
                position_of(&s5, #[trigger] s5.blk(x).ops@[m]),
                position_of(&s5, #[trigger] s5.blk(x).ops@[c]),
            ) by {
            assert(s0.block_wf(x));
            if x == block {
                assert(s5.blk(x).ops@ == s0.blk(x).ops@.push(id));
                let q = s5.blk(x).ops@[m];
                assert(q == s0.blk(x).ops@[m]);
                assert(s0.valid_op(q));
                assert(s5.opn(q) == s0.opn(q));
                if c < s0.blk(x).ops@.len() {
                    let r = s5.blk(x).ops@[c];
                    assert(r == s0.blk(x).ops@[c]);
                    assert(s5.opn(r) == s0.opn(r));
                    assert(position_before(position_of(&s0, s0.blk(x).ops@[m]), position_of(&s0, s0.blk(x).ops@[c])));
                } else {
                    assert(s5.blk(x).ops@[c] == id);
                    assert(position_before(position_of(&s0, q), (address, j as u32)));
                }
            } else {
                assert(s5.blk(x) == s0.blk(x));
                let q = s0.blk(x).ops@[m];
                let r = s0.blk(x).ops@[c];
                assert(s5.opn(q) == s0.opn(q));
                assert(s5.opn(r) == s0.opn(r));
                assert(position_before(position_of(&s0, q), position_of(&s0, r)));
            }
        }
        assert forall|o: OpId| s5.valid_op(o) implies #[trigger] reads_only_by(&s5, o) by {
            if o != id {
                assert(s0.valid_op(o));
                assert(reads_only_by(&s0, o));
                assert(s0.op_wf(o));
                assert forall|m: int| 0 <= m < s5.opn(o).inputs@.len() implies (#[trigger] s5.vn(s5.opn(o).inputs@[m])).def is None
                    && forall|x: OpId| s5.valid_op(x) && #[trigger] s5.reads(x, s5.opn(o).inputs@[m]) ==> x == o by {
                    let v = s0.opn(o).inputs@[m];
                    assert(s0.valid_vn(v));
                    assert(same_place(s5.vn(v), s0.vn(v)));
                    assert(s0.vn(v).def is None);
                    assert forall|x: OpId| s5.valid_op(x) && #[trigger] s5.reads(x, v) implies x == o by {
                        if x == id {
                            let q = choose|q: int| 0 <= q < s5.opn(id).inputs@.len() && s5.opn(id).inputs@[q] == v;
                            assert((s5.opn(id).inputs@[q]).0 >= s0.vns().len());
                        } else {
                            assert(s0.valid_op(x));
                            assert(s0.reads(x, v));
                        }
                    }
                }
            } else {
                assert forall|m: int| 0 <= m < s5.opn(id).inputs@.len() implies (#[trigger] s5.vn(s5.opn(id).inputs@[m])).def is None
                    && forall|x: OpId| s5.valid_op(x) && #[trigger] s5.reads(x, s5.opn(id).inputs@[m]) ==> x == id by {
                    let v = s5.opn(id).inputs@[m];
                    assert(v.0 >= s0.vns().len());
                    assert forall|x: OpId| s5.valid_op(x) && #[trigger] s5.reads(x, v) implies x == id by {
                        if x != id {
                            assert(s0.valid_op(x));
                            assert(s0.op_wf(x));
                            let q = choose|q: int| 0 <= q < s0.opn(x).inputs@.len() && s0.opn(x).inputs@[q] == v;
                            assert((s0.opn(x).inputs@[q]).0 < s0.vns().len());
                        }
                    }
                }
            }
        }
    }
    id
}


proof fn lemma_ops_before_grows(f: &LiftedFunction, a: int, b: int)
    requires
        0 <= a <= b <= f.instructions@.len(),
    ensures
        ops_before(f, a) <= ops_before(f, b),
    decreases b,
{
    if a < b {
        lemma_ops_before_grows(f, a, b - 1);
    }
}

proof fn lemma_reads_before_grows(f: &LiftedFunction, a: int, b: int)
    requires
        0 <= a <= b <= f.instructions@.len(),
    ensures
        reads_before(f, a) <= reads_before(f, b),
    decreases b,
{
    if a < b {
        lemma_reads_before_grows(f, a, b - 1);
    }
}

proof fn lemma_reads_in_grows(ops: Seq<LiftedOp>, a: int, b: int)
    requires
        0 <= a <= b <= ops.len(),
    ensures
        reads_in(ops, a) <= reads_in(ops, b),
    decreases b,
{
    if a < b {
        lemma_reads_in_grows(ops, a, b - 1);
    }
}

/// Whether the instruction at `a` is a delay slot its transfer already carries.
fn is_embedded_delay_slot(f: &LiftedFunction, a: u64) -> (r: bool)
    ensures
        r == embedded_delay_slot(f, a),
{
    if find_instruction(f, a).is_none() {
        return false;
    }
    let mut i: usize = 0;
    while i < f.instructions.len()
        invariant
            i <= f.instructions@.len(),
            has_instruction(f, a),
            forall|m: int|
                0 <= m < i ==> !(#[trigger] f.instructions@[m].embedded_delay_slot_bytes != 0
                    && f.instructions@[m].address + f.instructions@[m].len == a),
        decreases f.instructions@.len() - i,
    {
        let ins = &f.instructions[i];
        if ins.embedded_delay_slot_bytes != 0 {
            match ins.address.checked_add(ins.len as u64) {
                Some(delay) => {
                    if delay == a {
                        return true;
                    }
                },
                None => {},
            }
        }
        i += 1;
    }
    false
}

/// Whether an operation always transfers control out of its block.
fn leaves_block_unconditionally(opcode: i32) -> (r: bool)
    ensures
        r == (opcode == BRANCH || opcode == BRANCHIND || opcode == RETURN),
{
    opcode == BRANCH || opcode == BRANCHIND || opcode == RETURN
}

impl Funcdata {
    /// Builds the graph of a lifted function: one block per block start, in
    /// order, and each operation from the first block start on appended to the
    /// block it falls in, but for a delay slot its transfer already carries,
    /// which does not run a second time. Every read becomes its own free value, unwritten and
    /// unlinked, carrying only its location: which definition a read sees is
    /// left to renaming. Edges join a branch inside an instruction to both of
    /// its destinations, consecutive blocks of one instruction unless the first
    /// ends in an unconditional transfer, and the blocks of each machine edge.
    pub fn from_lifted(f: &LiftedFunction) -> (r: Funcdata)
        requires
            f.wf(),
            fits_arenas(f),
        ensures
            r.wf(),
            r.spec_entry() == f.entry,
            strictly_sorted(block_starts(&r)),
            forall|p: (u64, u32)| #[trigger] block_starts(&r).contains(p) <==> is_leader(f, p),
            forall|b: GraphBlockId| r.valid_block(b) ==> !(#[trigger] r.blk(b)).dead,
            forall|o: OpId| r.valid_op(o) ==> #[trigger] placed(&r, o),
            forall|o: OpId| r.valid_op(o) ==> #[trigger] built_from(f, &r, o),
            forall|o: OpId| r.valid_op(o) ==> #[trigger] reads_free(&r, o),
            forall|o: OpId| r.valid_op(o) ==> !skipped(f, (#[trigger] r.opn(o)).seq.address),
            in_lifted_order(&r),
            blocks_in_order(&r),
            forall|k: int| #[trigger] falls_through(&r, k),
            forall|e: int| 0 <= e < f.edges@.len() ==> carries_edge(&r, #[trigger] f.edges@[e]),
            carries_internal(f, &r),
            edges_explained(f, &r),
    {
        let mut data = Funcdata::at_entry(f.entry);
        let leaders = block_leaders(f);
        let mut k: usize = 0;
        while k < leaders.len()
            invariant
                data.wf(),
                data.spec_entry() == f.entry,
                data.vns().len() == 0,
                data.opv().len() == 0,
                data.bls().len() == k,
                k <= leaders@.len(),
                leaders@.len() < u32::MAX,
                block_starts(&data) == leaders@.take(k as int),
                forall|b: GraphBlockId| data.valid_block(b) ==> !(#[trigger] data.blk(b)).dead,
                forall|b: GraphBlockId| data.valid_block(b) ==> (#[trigger] data.blk(b)).ops@.len() == 0,
                forall|x: int| 0 <= x < data.bls().len() ==> (#[trigger] data.bls()[x]).successors@.len() == 0,
            decreases leaders@.len() - k,
        {
            let ghost before = data;
            data.new_block_at(leaders[k].0, leaders[k].1);
            proof {
                assert(block_starts(&data) =~= leaders@.take(k + 1)) by {
                    assert forall|m: int| 0 <= m < k + 1 implies block_starts(&data)[m] == leaders@[m] by {
                        if m < k {
                            assert(data.bls().take(before.bls().len() as int)[m] == data.bls()[m]);
                            assert(block_starts(&before)[m] == leaders@.take(k as int)[m]);
                        } else {
                            let x = GraphBlockId(k as u32);
                            assert(data.blk(x) == data.bls()[m]);
                        }
                    }
                }
                assert forall|x: int| 0 <= x < data.bls().len() implies (#[trigger] data.bls()[x]).successors@.len() == 0 by {
                    if x < k {
                        assert(data.bls().take(before.bls().len() as int)[x] == data.bls()[x]);
                    } else {
                        assert(data.blk(GraphBlockId(k as u32)) == data.bls()[x]);
                    }
                }
                assert forall|b: GraphBlockId| data.valid_block(b) implies !(#[trigger] data.blk(b)).dead && data.blk(b).ops@.len() == 0 by {
                    if b.0 < k {
                        assert(data.bls().take(before.bls().len() as int)[b.0 as int] == data.bls()[b.0 as int]);
                        assert(!before.blk(b).dead);
                        assert(before.blk(b).ops@.len() == 0);
                    }
                }
            }
            k += 1;
        }
        proof {
            assert(leaders@.take(leaders@.len() as int) =~= leaders@);
        }
        let mut internal: Vec<((u64, u32), (u64, u32), (u64, u32))> = Vec::new();
        let mut cur: Option<usize> = None;
        let mut i: usize = 0;
        while i < f.instructions.len()
            invariant
                f.wf(),
                fits_arenas(f),
                i <= f.instructions@.len(),
                leaders@.len() < u32::MAX,
                forall|p: (u64, u32)| #[trigger] leaders@.contains(p) <==> is_leader(f, p),
                building(f, &data, leaders@),
                data.opv().len() <= ops_before(f, i as int),
                data.vns().len() <= reads_before(f, i as int) + 2 * ops_before(f, i as int),
                cur matches Some(b) ==> b < leaders@.len() && (i < f.instructions@.len() ==> !position_before(
                    (f.instructions@[i as int].address, 0u32),
                    leaders@[b as int],
                )),
                i < f.instructions@.len() ==> forall|o: OpId|
                    data.valid_op(o) ==> position_before(#[trigger] position_of(&data, o), (f.instructions@[i as int].address, 0u32)),
                listed_branches(f, &data, internal@),
                entries_built(f, &data, internal@),
                forall|x: int| 0 <= x < data.bls().len() ==> (#[trigger] data.bls()[x]).successors@.len() == 0,
            decreases f.instructions@.len() - i,
        {
            let address = f.instructions[i].address;
            let count = f.instructions[i].ops.len();
            let sequential = address.wrapping_add(f.instructions[i].len as u64);
            let ghost n = f.instructions@.len() as int;
            proof {
                lemma_ops_before_grows(f, i + 1, n);
                lemma_reads_before_grows(f, i + 1, n);
                if i + 1 < f.instructions@.len() {
                    assert(f.instructions@[i as int].address < f.instructions@[i + 1].address);
                }
            }
            // A delay slot that its transfer already carries would otherwise
            // run a second time, after the transfer.
            let embedded = is_embedded_delay_slot(f, address);
            let begins = find_leader(&leaders, (address, 0));
            let skip = embedded && begins.is_none();
            proof {
                if let Some(b) = begins {
                    assert(leaders@[b as int] == (address, 0u32));
                    assert(leaders@.contains((address, 0u32)));
                }
            }
            let mut j: usize = if skip { count } else { 0 };
            while j < count
                invariant
                    f.wf(),
                    fits_arenas(f),
                    i < f.instructions@.len(),
                    n == f.instructions@.len(),
                    address == f.instructions@[i as int].address,
                    count == f.instructions@[i as int].ops@.len(),
                    count < u32::MAX,
                    j <= count,
                    leaders@.len() < u32::MAX,
                    building(f, &data, leaders@),
                    ops_before(f, i + 1) <= ops_before(f, n),
                    reads_before(f, i + 1) <= reads_before(f, n),
                    ops_before(f, i + 1) == ops_before(f, i as int) + count,
                    reads_before(f, i + 1) == reads_before(f, i as int) + reads_in(f.instructions@[i as int].ops@, count as int),
                    data.opv().len() <= ops_before(f, i as int) + j,
                    data.vns().len() <= reads_before(f, i as int) + reads_in(f.instructions@[i as int].ops@, j as int) + 2
                        * (ops_before(f, i as int) + j),
                    cur matches Some(b) ==> b < leaders@.len() && leaders@[b as int].0 <= address && !position_before(
                        (address, j as u32),
                        leaders@[b as int],
                    ),
                    j < count ==> !skipped(f, address),
                    forall|o: OpId| data.valid_op(o) ==> position_before(#[trigger] position_of(&data, o), (address, j as u32)),
                    listed_branches(f, &data, internal@),
                    entries_built(f, &data, internal@),
                    forall|x: int| 0 <= x < data.bls().len() ==> (#[trigger] data.bls()[x]).successors@.len() == 0,
                    sequential == sequential_after(f, i as int),
                decreases count - j,
            {
                match find_leader(&leaders, (address, j as u32)) {
                    Some(m) => {
                        cur = Some(m);
                    },
                    None => {},
                }
                let op = &f.instructions[i].ops[j];
                let ghost list0 = internal@;
                if cur.is_some() {
                match internal_target_exec(op, j) {
                    Some(t) => {
                        let taken = if (t as usize) < count {
                            (address, t)
                        } else {
                            (sequential, 0u32)
                        };
                        internal.push(((address, j as u32), taken, (address, j as u32 + 1)));
                    },
                    None => {
                        if op.opcode == CBRANCH && j + 1 < count && op.inputs.len() > 0 && op.inputs[0].space != CONST_SPACE {
                            internal.push(((address, j as u32), (op.inputs[0].offset, 0u32), (address, j as u32 + 1)));
                        }
                    },
                }
                }
                match cur {
                    Some(b) => {
                        proof {
                            lemma_reads_in_grows(f.instructions@[i as int].ops@, j + 1, count as int);
                            assert(reads_in(f.instructions@[i as int].ops@, j + 1) == reads_in(
                                f.instructions@[i as int].ops@,
                                j as int,
                            ) + f.instructions@[i as int].ops@[j as int].inputs@.len());
                            assert(data.bls().len() == leaders@.len()) by {
                                assert(block_starts(&data).len() == data.bls().len());
                            }
                            let x = GraphBlockId(b as u32);
                            assert(block_starts(&data)[b as int] == (data.blk(x).start, data.blk(x).start_order));
                        }
                        let ghost before = data;
                        add_lifted_op(&mut data, f, i, j, GraphBlockId(b as u32));
                        proof {
                            let ins = f.instructions@[i as int];
                            assert(internal_destinations(f, i as int, j as int) matches Some(ds) ==> internal@ == list0.push(
                                ((address, j as u32), ds.0, ds.1),
                            ));
                            assert(internal_destinations(f, i as int, j as int) is None ==> internal@ == list0);
                            assert forall|o: OpId, i2: int|
                                data.valid_op(o) && 0 <= i2 < f.instructions@.len() && #[trigger] f.instructions@[i2].address
                                    == (#[trigger] data.opn(o)).seq.address && (data.opn(o).seq.order as int)
                                    < f.instructions@[i2].ops@.len() implies match internal_destinations(
                                f,
                                i2,
                                data.opn(o).seq.order as int,
                            ) {
                                Some(ds) => internal@.contains((position_of(&data, o), ds.0, ds.1)),
                                None => true,
                            } by {
                                if before.valid_op(o) && position_of(&data, o) == position_of(&before, o) {
                                    assert(before.opn(o).seq.address == data.opn(o).seq.address);
                                    assert(before.opn(o).seq.order == data.opn(o).seq.order);
                                    if let Some(ds) = internal_destinations(f, i2, data.opn(o).seq.order as int) {
                                        assert(list0.contains((position_of(&before, o), ds.0, ds.1)));
                                        let q = choose|q: int| 0 <= q < list0.len() && list0[q] == (position_of(&before, o), ds.0, ds.1);
                                        assert(internal@[q] == list0[q]);
                                    }
                                } else {
                                    assert(position_of(&data, o) == (address, j as u32));
                                    lemma_one_instruction_per_address(f, i as int, i2);
                                    if let Some(ds) = internal_destinations(f, i2, data.opn(o).seq.order as int) {
                                        assert(internal@[list0.len() as int] == ((address, j as u32), ds.0, ds.1));
                                    }
                                }
                            }
                            let fresh = OpId(before.opv().len() as u32);
                            assert forall|q: int| 0 <= q < internal@.len() implies exists|o: OpId, i2: int|
                                data.valid_op(o) && 0 <= i2 < f.instructions@.len() && #[trigger] f.instructions@[i2].address == (
                                #[trigger] data.opn(o)).seq.address && (data.opn(o).seq.order as int) < f.instructions@[i2].ops@.len()
                                    && position_of(&data, o) == (#[trigger] internal@[q]).0 && internal_destinations(
                                f,
                                i2,
                                data.opn(o).seq.order as int,
                            ) == Some((internal@[q].1, internal@[q].2)) by {
                                if q < list0.len() {
                                    assert(internal@[q] == list0[q]);
                                    let (o, i2) = choose|o: OpId, i2: int|
                                        before.valid_op(o) && 0 <= i2 < f.instructions@.len() && #[trigger] f.instructions@[i2].address
                                            == (#[trigger] before.opn(o)).seq.address && (before.opn(o).seq.order as int)
                                            < f.instructions@[i2].ops@.len() && position_of(&before, o) == list0[q].0
                                            && internal_destinations(f, i2, before.opn(o).seq.order as int) == Some((list0[q].1, list0[q].2));
                                    assert(data.valid_op(o));
                                    assert(position_of(&data, o) == position_of(&before, o));
                                    assert(data.opn(o).seq.address == before.opn(o).seq.address);
                                    assert(f.instructions@[i2].address == data.opn(o).seq.address);
                                } else {
                                    assert(data.opn(fresh).seq.address == address);
                                    assert(f.instructions@[i as int].address == data.opn(fresh).seq.address);
                                    assert(data.opn(fresh).seq.order == j as u32);
                                }
                            }
                            assert forall|x: int| 0 <= x < data.bls().len() implies (#[trigger] data.bls()[x]).successors@.len() == 0 by {
                                assert(data.bls()[x].successors == before.bls()[x].successors);
                            }
                        }
                    },
                    None => {
                        proof {
                            assert(internal@ == list0);
                        }
                    },
                }
                j += 1;
            }
            proof {
                if i + 1 < f.instructions@.len() {
                    assert(f.instructions@[i as int].address < f.instructions@[i + 1].address);
                    assert forall|o: OpId| data.valid_op(o) implies position_before(
                        #[trigger] position_of(&data, o),
                        (f.instructions@[i + 1].address, 0u32),
                    ) by {
                        assert(position_before(position_of(&data, o), (address, count as u32)));
                    }
                }
            }
            i += 1;
        }
        proof {
            assert(data.bls().len() == leaders@.len()) by {
                assert(block_starts(&data).len() == data.bls().len());
            }
        }
        let mut e: usize = 0;
        let ghost after_ops = data;
        proof {
            assert forall|x: int, y: int|
                0 <= x < data.bls().len() && 0 <= y < data.bls().len() && #[trigger] has_edge(&data, x, y) implies (exists|q: int|
                    0 <= q < internal@.len() && last_start_at_or_before(block_starts(&data), (#[trigger] internal@[q]).0, x) && (
                    block_starts(&data)[y] == internal@[q].1 || block_starts(&data)[y] == internal@[q].2)) || fallthrough_edge(&data, x, y)
                    || machine_edge(f, &data, x, y) by {
                assert(data.bls()[x].successors@.len() == 0);
            }
        }
        while e < internal.len()
            invariant
                edges_explained_by(f, &data, internal@),
                entries_built(f, &after_ops, internal@),
                building(f, &data, leaders@),
                data.bls().len() == leaders@.len(),
                leaders@.len() < u32::MAX,
                strictly_sorted(leaders@),
                e <= internal@.len(),
                data.opv() == after_ops.opv(),
                listed_branches(f, &after_ops, internal@),
                forall|q: int| 0 <= q < e ==> carries_branch(&data, (#[trigger] internal@[q]).0, internal@[q].1, internal@[q].2),
            decreases internal@.len() - e,
        {
            let (source, taken, fallthrough) = internal[e];
            let ghost entry = internal@[e as int];
            let enclosing = enclosing_leader(&leaders, source);
            match enclosing {
                Some(from) => {
                    let first = find_leader(&leaders, taken);
                    match first {
                        Some(to) => {
                            let ghost before = data;
                            data.add_edge(GraphBlockId(from as u32), GraphBlockId(to as u32));
                            proof {
                                lemma_building_edges(f, &before, &data, leaders@);
                                lemma_add_edge_grows(&before, &data, GraphBlockId(from as u32), GraphBlockId(to as u32));
                                assert forall|q: int| 0 <= q < e implies carries_branch(&data, (#[trigger] internal@[q]).0, internal@[q].1, internal@[q].2) by {
                                    lemma_carries_branch_grows(&before, &data, internal@[q].0, internal@[q].1, internal@[q].2);
                                }
                                assert((to as u32) as int == to);
                                assert(has_edge(&data, from as int, to as int));
                                assert(block_starts(&before) == leaders@);
                                assert(internal@[e as int] == (source, taken, fallthrough));
                                assert(last_start_at_or_before(block_starts(&before), (internal@[e as int]).0, from as int));
                                lemma_explained_add(f, &before, &data, internal@, GraphBlockId(from as u32), GraphBlockId(to as u32));
                            }
                        },
                        None => {},
                    }
                    let ghost middle = data;
                    let second = find_leader(&leaders, fallthrough);
                    match second {
                        Some(to) => {
                            let ghost before = data;
                            data.add_edge(GraphBlockId(from as u32), GraphBlockId(to as u32));
                            proof {
                                lemma_building_edges(f, &before, &data, leaders@);
                                lemma_add_edge_grows(&before, &data, GraphBlockId(from as u32), GraphBlockId(to as u32));
                                assert forall|q: int| 0 <= q < e implies carries_branch(&data, (#[trigger] internal@[q]).0, internal@[q].1, internal@[q].2) by {
                                    lemma_carries_branch_grows(&before, &data, internal@[q].0, internal@[q].1, internal@[q].2);
                                }
                                assert((to as u32) as int == to);
                                assert(block_starts(&before) == leaders@);
                                assert(internal@[e as int] == (source, taken, fallthrough));
                                assert(last_start_at_or_before(block_starts(&before), (internal@[e as int]).0, from as int));
                                lemma_explained_add(f, &before, &data, internal@, GraphBlockId(from as u32), GraphBlockId(to as u32));
                                if let Some(t0) = first {
                                    assert(middle.bls()[from as int].successors@.contains(GraphBlockId(t0 as u32)));
                                    assert(has_edge(&data, from as int, t0 as int));
                                }
                            }
                        },
                        None => {},
                    }
                    proof {
                        assert(block_starts(&data) == leaders@);
                        assert forall|k: int, t: int|
                            last_start_at_or_before(block_starts(&data), source, k) && 0 <= t < data.bls().len() && (
                            #[trigger] block_starts(&data)[t] == taken || block_starts(&data)[t] == fallthrough) implies #[trigger] has_edge(
                            &data,
                            k,
                            t,
                        ) by {
                            if k != from {
                                if k < from {
                                    assert(position_before(source, leaders@[from as int]));
                                } else {
                                    assert(position_before(source, leaders@[k]));
                                }
                            }
                            if block_starts(&data)[t] == taken {
                                if let Some(t0) = first {
                                    if t != t0 {
                                        if t < t0 {
                                            assert(position_before(leaders@[t], leaders@[t0 as int]));
                                        } else {
                                            assert(position_before(leaders@[t0 as int], leaders@[t]));
                                        }
                                    }
                                } else {
                                    assert(leaders@[t] == taken);
                                    assert(leaders@.contains(taken));
                                }
                            } else {
                                if let Some(t1) = second {
                                    if t != t1 {
                                        if t < t1 {
                                            assert(position_before(leaders@[t], leaders@[t1 as int]));
                                        } else {
                                            assert(position_before(leaders@[t1 as int], leaders@[t]));
                                        }
                                    }
                                } else {
                                    assert(leaders@[t] == fallthrough);
                                    assert(leaders@.contains(fallthrough));
                                }
                            }
                        }
                    }
                },
                None => {
                    proof {
                        assert forall|k: int, t: int|
                            last_start_at_or_before(block_starts(&data), source, k) && 0 <= t < data.bls().len() && (
                            #[trigger] block_starts(&data)[t] == taken || block_starts(&data)[t] == fallthrough) implies #[trigger] has_edge(
                            &data,
                            k,
                            t,
                        ) by {
                            assert(position_before(source, leaders@[k]));
                        }
                    }
                },
            }
            proof {
                assert(entry == (source, taken, fallthrough));
                assert(carries_branch(&data, entry.0, entry.1, entry.2));
            }
            e += 1;
        }
        let mut k: usize = 0;
        while k + 1 < leaders.len()
            invariant
                k < u32::MAX,
                building(f, &data, leaders@),
                data.bls().len() == leaders@.len(),
                leaders@.len() < u32::MAX,
                forall|m: int| m < k ==> #[trigger] falls_through(&data, m),
                data.opv() == after_ops.opv(),
                listed_branches(f, &after_ops, internal@),
                forall|q: int| 0 <= q < internal@.len() ==> carries_branch(&data, (#[trigger] internal@[q]).0, internal@[q].1, internal@[q].2),
                edges_explained_by(f, &data, internal@),
                entries_built(f, &after_ops, internal@),
            decreases leaders@.len() - k,
        {
            proof {
                assert(block_starts(&data)[k as int] == leaders@[k as int]);
                assert(block_starts(&data)[k + 1] == leaders@[k + 1]);
            }
            if leaders[k].0 == leaders[k + 1].0 {
                let from = GraphBlockId(k as u32);
                proof {
                    assert(data.block_wf(from));
                    assert(data.blk(from) == data.bls()[k as int]);
                }
                let ops = &data.block(from).ops;
                let terminal = if ops.len() > 0 {
                    let last = ops[ops.len() - 1];
                    leaves_block_unconditionally(data.op(last).opcode)
                } else {
                    false
                };
                proof {
                    assert(terminal == ends_in_transfer(&data, k as int));
                }
                if !terminal {
                    let ghost before = data;
                    data.add_edge(from, GraphBlockId((k + 1) as u32));
                    proof {
                        lemma_building_edges(f, &before, &data, leaders@);
                        lemma_add_edge_grows(&before, &data, from, GraphBlockId((k + 1) as u32));
                        assert(fallthrough_edge(&before, k as int, k + 1));
                        lemma_explained_add(f, &before, &data, internal@, from, GraphBlockId((k + 1) as u32));
                        assert forall|m: int| m < k implies #[trigger] falls_through(&data, m) by {
                            lemma_falls_through_grows(&before, &data, m);
                        }
                        assert forall|q: int| 0 <= q < internal@.len() implies carries_branch(&data, (#[trigger] internal@[q]).0, internal@[q].1, internal@[q].2) by {
                            lemma_carries_branch_grows(&before, &data, internal@[q].0, internal@[q].1, internal@[q].2);
                        }
                        assert(data.bls()[k as int].start == before.bls()[k as int].start);
                        assert(data.bls()[k + 1].start == before.bls()[k + 1].start);
                    }
                }
            }
            proof {
                assert(falls_through(&data, k as int));
            }
            k += 1;
        }
        proof {
            assert forall|m: int| #[trigger] falls_through(&data, m) by {
                if m < k {
                } else {
                    assert(!(0 <= m && m + 1 < data.bls().len()));
                }
            }
        }
        let mut e: usize = 0;
        while e < f.edges.len()
            invariant
                building(f, &data, leaders@),
                data.bls().len() == leaders@.len(),
                leaders@.len() < u32::MAX,
                strictly_sorted(leaders@),
                forall|m: int| #[trigger] falls_through(&data, m),
                forall|q: int| 0 <= q < e ==> carries_edge(&data, #[trigger] f.edges@[q]),
                data.opv() == after_ops.opv(),
                listed_branches(f, &after_ops, internal@),
                forall|q: int| 0 <= q < internal@.len() ==> carries_branch(&data, (#[trigger] internal@[q]).0, internal@[q].1, internal@[q].2),
                edges_explained_by(f, &data, internal@),
                entries_built(f, &after_ops, internal@),
            decreases f.edges@.len() - e,
        {
            let (source, target) = f.edges[e];
            let ghost edge = f.edges@[e as int];
            let ghost p = (source, u32::MAX);
            let enclosing = enclosing_leader(&leaders, (source, u32::MAX));
            let found = find_leader(&leaders, (target, 0));
            proof {
                assert(edge == (source, target));
            }
            match (enclosing, found) {
                (Some(from), Some(to)) => {
                    let ghost before = data;
                    data.add_edge(GraphBlockId(from as u32), GraphBlockId(to as u32));
                    proof {
                        lemma_building_edges(f, &before, &data, leaders@);
                        lemma_add_edge_grows(&before, &data, GraphBlockId(from as u32), GraphBlockId(to as u32));
                        assert(block_starts(&before) == leaders@);
                        assert((to as u32) as int == to && (from as u32) as int == from);
                        assert(machine_edge(f, &before, from as int, to as int)) by {
                            assert(f.edges@[e as int] == (source, target));
                            assert(last_start_at_or_before(block_starts(&before), (f.edges@[e as int].0, u32::MAX), from as int));
                        }
                        lemma_explained_add(f, &before, &data, internal@, GraphBlockId(from as u32), GraphBlockId(to as u32));
                        assert forall|m: int| #[trigger] falls_through(&data, m) by {
                            lemma_falls_through_grows(&before, &data, m);
                        }
                        assert forall|q: int| 0 <= q < e implies carries_edge(&data, #[trigger] f.edges@[q]) by {
                            lemma_carries_edge_grows(&before, &data, f.edges@[q]);
                        }
                        assert forall|q: int| 0 <= q < internal@.len() implies carries_branch(&data, (#[trigger] internal@[q]).0, internal@[q].1, internal@[q].2) by {
                            lemma_carries_branch_grows(&before, &data, internal@[q].0, internal@[q].1, internal@[q].2);
                        }
                        assert forall|k: int, t: int|
                            last_start_at_or_before(block_starts(&data), (edge.0, u32::MAX), k) && 0 <= t < data.bls().len()
                                && #[trigger] block_starts(&data)[t] == (edge.1, 0u32) implies #[trigger] has_edge(&data, k, t) by {
                            if k != from {
                                if k < from {
                                    assert(position_before(p, block_starts(&data)[from as int]));
                                } else {
                                    assert(position_before(p, leaders@[k]));
                                }
                            }
                            if t != to {
                                if t < to {
                                    assert(position_before(leaders@[t], leaders@[to as int]));
                                } else {
                                    assert(position_before(leaders@[to as int], leaders@[t]));
                                }
                            }
                            assert((to as u32) as int == to);
                        }
                    }
                },
                _ => {
                    proof {
                        assert forall|k: int, t: int|
                            last_start_at_or_before(block_starts(&data), (edge.0, u32::MAX), k) && 0 <= t < data.bls().len()
                                && #[trigger] block_starts(&data)[t] == (edge.1, 0u32) implies #[trigger] has_edge(&data, k, t) by {
                            if enclosing is None {
                                assert(position_before(p, leaders@[k]));
                            } else {
                                assert(leaders@[t] == (target, 0u32));
                                assert(leaders@.contains((target, 0u32)));
                            }
                        }
                    }
                },
            }
            proof {
                assert(carries_edge(&data, edge));
            }
            e += 1;
        }
        proof {
            assert forall|o: OpId, i: int|
                data.valid_op(o) && 0 <= i < f.instructions@.len() && #[trigger] f.instructions@[i].address == (
                #[trigger] data.opn(o)).seq.address && (data.opn(o).seq.order as int) < f.instructions@[i].ops@.len() implies match internal_destinations(
                f,
                i,
                data.opn(o).seq.order as int,
            ) {
                Some(ds) => carries_branch(&data, position_of(&data, o), ds.0, ds.1),
                None => true,
            } by {
                assert(after_ops.opn(o) == data.opn(o));
                if let Some(ds) = internal_destinations(f, i, data.opn(o).seq.order as int) {
                    assert(internal@.contains((position_of(&after_ops, o), ds.0, ds.1)));
                    let q = choose|q: int| 0 <= q < internal@.len() && internal@[q] == (position_of(&after_ops, o), ds.0, ds.1);
                    assert(carries_branch(&data, internal@[q].0, internal@[q].1, internal@[q].2));
                }
            }
            assert forall|x: int, y: int|
                0 <= x < data.bls().len() && 0 <= y < data.bls().len() && #[trigger] has_edge(&data, x, y) implies internal_edge(
                f,
                &data,
                x,
                y,
            ) || fallthrough_edge(&data, x, y) || machine_edge(f, &data, x, y) by {
                if !fallthrough_edge(&data, x, y) && !machine_edge(f, &data, x, y) {
                    let q = choose|q: int|
                        0 <= q < internal@.len() && last_start_at_or_before(block_starts(&data), (#[trigger] internal@[q]).0, x) && (
                        block_starts(&data)[y] == internal@[q].1 || block_starts(&data)[y] == internal@[q].2);
                    let (o, i) = choose|o: OpId, i: int|
                        after_ops.valid_op(o) && 0 <= i < f.instructions@.len() && #[trigger] f.instructions@[i].address == (
                        #[trigger] after_ops.opn(o)).seq.address && (after_ops.opn(o).seq.order as int) < f.instructions@[i].ops@.len()
                            && position_of(&after_ops, o) == internal@[q].0 && internal_destinations(f, i, after_ops.opn(o).seq.order as int)
                            == Some((internal@[q].1, internal@[q].2));
                    assert(data.opn(o) == after_ops.opn(o));
                    assert(f.instructions@[i].address == data.opn(o).seq.address);
                    assert(position_of(&data, o) == internal@[q].0);
                }
            }
            assert forall|o: OpId| data.valid_op(o) implies #[trigger] reads_free(&data, o) by {
                assert(reads_only_by(&data, o));
                lemma_reads_free(&data, o);
            }
        }
        data
    }
}

} // verus!
