//! Position-independent identity of a graph value.
//!
//! A value is named by a hash of its neighbourhood in the data-flow graph:
//! the operations that read or write it, their opcodes, operand slots and
//! instruction addresses, folded into a CRC. When several values at the same
//! instruction share the hash, the value's position among them is packed in
//! beside it so that each one stays identifiable.

use vstd::prelude::*;
use crate::graph::{Funcdata, OpId, SeqNum, VarnodeId};
use crate::pcode::{
    CAST, FLOAT_ADD, FLOAT_EQUAL, FLOAT_LESS, FLOAT_LESSEQUAL, FLOAT_NOTEQUAL, FLOAT_SUB, INT_ADD,
    INT_EQUAL, INT_LEFT, INT_LESS, INT_LESSEQUAL, INT_MULT, INT_NOTEQUAL, INT_SLESS,
    INT_SLESSEQUAL, INT_SUB, PCODE_MAX, PTRADD, PTRSUB, UNIMPLEMENTED,
};

verus! {

/// Initial CRC register.
pub const HASH_SEED: u32 = 0x3ba0_fe06;
/// The most values one hash may stand for before a method is given up.
pub const MAX_DUPLICATES: usize = 8;
/// The slot of an edge that attaches to an operation's output.
pub const OUTPUT_SLOT: i32 = -1;
/// Bit position of the operand slot in a hash.
pub const HASH_SLOT_SHIFT: u64 = 32;
/// Bit position of the hashed opcode in a hash.
pub const HASH_OPCODE_SHIFT: u64 = 37;
/// Bit position of the method in a hash.
pub const HASH_METHOD_SHIFT: u64 = 44;
/// Bit position of the flag set when the value is not directly attached.
pub const HASH_NOT_ATTACHED_SHIFT: u64 = 48;
/// Bit position of the value's index among colliding values.
pub const HASH_POSITION_SHIFT: u64 = 49;
/// Bit position of the number of colliding values, less one.
pub const HASH_TOTAL_SHIFT: u64 = 52;
/// The CRC-32 polynomial, reflected.
pub const CRC_POLYNOMIAL: u32 = 0xedb8_8320;

/// An operation in a value's neighbourhood and the slot through which the
/// value reaches it: an input index, or [`OUTPUT_SLOT`].
#[derive(Copy, Clone, PartialEq, Eq, Debug, Structural)]
pub struct ToOpEdge {
    pub op: OpId,
    pub slot: i32,
}

/// A hash together with the operation whose address anchors it.
#[derive(Copy, Clone, PartialEq, Eq, Debug, Structural)]
pub struct HashCandidate {
    pub seq: SeqNum,
    pub hash: u64,
}

/// The opcode an operation contributes to a hash. Opcodes that differ only
/// in operand order or sign convention share one code; casts and
/// unimplemented instructions contribute nothing (`None`), and neither does
/// anything outside the opcode range.
pub open spec fn hashed_code(opcode: i32) -> Option<u32> {
    if opcode < 0 || opcode >= PCODE_MAX {
        None
    } else {
        let code: i32 = if opcode == INT_NOTEQUAL {
            INT_EQUAL
        } else if opcode == INT_SLESSEQUAL {
            INT_SLESS
        } else if opcode == INT_LESSEQUAL {
            INT_LESS
        } else if opcode == INT_SUB {
            INT_ADD
        } else if opcode == INT_LEFT {
            INT_MULT
        } else if opcode == FLOAT_NOTEQUAL {
            FLOAT_EQUAL
        } else if opcode == FLOAT_LESSEQUAL {
            FLOAT_LESS
        } else if opcode == 45 {
            0
        } else if opcode == FLOAT_SUB {
            FLOAT_ADD
        } else if opcode == CAST || opcode == UNIMPLEMENTED {
            0
        } else if opcode == PTRADD || opcode == PTRSUB {
            INT_ADD
        } else {
            opcode
        };
        if code == 0 {
            None
        } else {
            Some(code as u32)
        }
    }
}

fn hash_opcode(opcode: i32) -> (r: Option<u32>)
    ensures
        r == hashed_code(opcode),
{
    if opcode < 0 || opcode >= PCODE_MAX {
        return None;
    }
    let code: i32 = if opcode == INT_NOTEQUAL {
        INT_EQUAL
    } else if opcode == INT_SLESSEQUAL {
        INT_SLESS
    } else if opcode == INT_LESSEQUAL {
        INT_LESS
    } else if opcode == INT_SUB {
        INT_ADD
    } else if opcode == INT_LEFT {
        INT_MULT
    } else if opcode == FLOAT_NOTEQUAL {
        FLOAT_EQUAL
    } else if opcode == FLOAT_LESSEQUAL {
        FLOAT_LESS
    } else if opcode == 45 {
        0
    } else if opcode == FLOAT_SUB {
        FLOAT_ADD
    } else if opcode == CAST || opcode == UNIMPLEMENTED {
        0
    } else if opcode == PTRADD || opcode == PTRSUB {
        INT_ADD
    } else {
        opcode
    };
    if code == 0 {
        None
    } else {
        Some(code as u32)
    }
}

/// `n` rounds of the bitwise CRC-32 shift applied to `t`.
pub open spec fn crc_rounds(t: u32, n: nat) -> u32
    decreases n,
{
    if n == 0 {
        t
    } else {
        let s = crc_rounds(t, (n - 1) as nat);
        if s & 1 != 0 {
            (s >> 1u32) ^ CRC_POLYNOMIAL
        } else {
            s >> 1u32
        }
    }
}

/// The CRC register after folding in the low byte of `value`.
pub open spec fn crc(register: u32, value: u32) -> u32 {
    crc_rounds((register ^ value) & 0xff, 8) ^ (register >> 8u32)
}

fn crc_update(register: u32, value: u32) -> (r: u32)
    ensures
        r == crc(register, value),
{
    let start: u32 = (register ^ value) & 0xff;
    let mut table: u32 = start;
    let mut round: u32 = 0;
    while round < 8
        invariant
            round <= 8,
            table == crc_rounds(start, round as nat),
        decreases 8 - round,
    {
        table = if table & 1 != 0 {
            (table >> 1u32) ^ CRC_POLYNOMIAL
        } else {
            table >> 1u32
        };
        round += 1;
    }
    table ^ (register >> 8u32)
}

/// The CRC register after folding in the low `n` bytes of `value`, lowest
/// first.
pub open spec fn bytes_crc(register: u32, value: u64, n: nat) -> u32
    decreases n,
{
    if n == 0 {
        register
    } else {
        bytes_crc(crc(register, value as u32), value >> 8u64, (n - 1) as nat)
    }
}

fn crc_bytes(register: u32, value: u64, n: u32) -> (r: u32)
    ensures
        r == bytes_crc(register, value, n as nat),
{
    let mut reg: u32 = register;
    let mut rest: u64 = value;
    let mut left: u32 = n;
    while left > 0
        invariant
            bytes_crc(reg, rest, left as nat) == bytes_crc(register, value, n as nat),
        decreases left,
    {
        reg = crc_update(reg, rest as u32);
        rest = rest >> 8u64;
        left -= 1;
    }
    reg
}

/// The first index at or after `i` where `s` holds `x`, or -1.
pub open spec fn slot_from(s: Seq<VarnodeId>, x: VarnodeId, i: int) -> int
    decreases s.len() - i,
{
    if i < 0 || i >= s.len() {
        -1
    } else if s[i] == x {
        i
    } else {
        slot_from(s, x, i + 1)
    }
}

proof fn lemma_slot_from_range(s: Seq<VarnodeId>, x: VarnodeId, i: int)
    ensures
        slot_from(s, x, i) == -1 || (i <= slot_from(s, x, i) < s.len() && 0 <= slot_from(s, x, i) && s[slot_from(s, x, i)] == x),
    decreases s.len() - i,
{
    if 0 <= i < s.len() && s[i] != x {
        lemma_slot_from_range(s, x, i + 1);
    }
}

fn first_slot(s: &Vec<VarnodeId>, x: VarnodeId) -> (r: Option<usize>)
    ensures
        r == (if slot_from(s@, x, 0) < 0 { None } else { Some(slot_from(s@, x, 0) as usize) }),
{
    let mut i: usize = 0;
    while i < s.len()
        invariant
            i <= s@.len(),
            slot_from(s@, x, 0) == slot_from(s@, x, i as int),
        decreases s@.len() - i,
    {
        if s[i] == x {
            return Some(i);
        }
        i += 1;
    }
    None
}

/// The edge found by walking up from `v` through the operations that
/// contribute nothing to a hash, following each one's first input, for at
/// most `fuel` values.
pub open spec fn up_walk(d: &Funcdata, v: VarnodeId, fuel: nat) -> Option<ToOpEdge>
    decreases fuel,
{
    if fuel == 0 {
        None
    } else {
        match d.vn(v).def {
            None => None,
            Some(o) => {
                if d.opn(o).dead {
                    None
                } else if hashed_code(d.opn(o).opcode) is Some {
                    Some(ToOpEdge { op: o, slot: OUTPUT_SLOT })
                } else if d.opn(o).inputs@.len() == 0 {
                    None
                } else {
                    up_walk(d, d.opn(o).inputs@[0], (fuel - 1) as nat)
                }
            },
        }
    }
}

/// The edge found by walking down from operation `o`, reached through value
/// `attached`, past operations that contribute nothing to a hash and whose
/// output has exactly one reader, for at most `fuel` operations.
pub open spec fn down_walk(d: &Funcdata, o: OpId, attached: VarnodeId, fuel: nat) -> Option<ToOpEdge>
    decreases fuel,
{
    if fuel == 0 || d.opn(o).dead {
        None
    } else if hashed_code(d.opn(o).opcode) is Some {
        let p = slot_from(d.opn(o).inputs@, attached, 0);
        if p < 0 {
            None
        } else {
            Some(ToOpEdge { op: o, slot: p as i32 })
        }
    } else {
        match d.opn(o).output {
            None => None,
            Some(out) => {
                if d.vn(out).descendants@.len() == 1 {
                    down_walk(d, d.vn(out).descendants@[0], out, (fuel - 1) as nat)
                } else {
                    None
                }
            },
        }
    }
}

/// The edges of an optional edge, as a sequence.
pub open spec fn opt_edges(e: Option<ToOpEdge>) -> Seq<ToOpEdge> {
    match e {
        Some(x) => seq![x],
        None => Seq::empty(),
    }
}

/// The edge above `v`. A walk cannot visit more distinct values than the
/// graph has, so the number of values bounds it.
pub open spec fn up_edges(d: &Funcdata, v: VarnodeId) -> Seq<ToOpEdge> {
    opt_edges(up_walk(d, v, d.vns().len()))
}

/// Walks up from `v`; see [`up_walk`].
fn walk_up(data: &Funcdata, value: VarnodeId) -> (r: Option<ToOpEdge>)
    requires
        data.wf(),
        data.valid_vn(value),
    ensures
        r == up_walk(data, value, data.vns().len()),
        r matches Some(e) ==> data.valid_op(e.op) && e.slot == OUTPUT_SLOT,
{
    let mut current = value;
    let mut fuel: usize = data.varnode_count();
    loop
        invariant
            data.wf(),
            data.valid_vn(current),
            up_walk(data, current, fuel as nat) == up_walk(data, value, data.vns().len()),
        decreases fuel,
    {
        if fuel == 0 {
            return None;
        }
        let def = data.varnode(current).def;
        match def {
            None => {
                return None;
            },
            Some(o) => {
                assert(data.vn_wf(current));
                let operation = data.op(o);
                if operation.dead {
                    return None;
                }
                if hash_opcode(operation.opcode).is_some() {
                    return Some(ToOpEdge { op: o, slot: OUTPUT_SLOT });
                }
                if operation.inputs.len() == 0 {
                    return None;
                }
                assert(data.op_wf(o));
                current = operation.inputs[0];
                fuel -= 1;
            },
        }
    }
}

/// Walks down from a reader of `value`; see [`down_walk`].
fn walk_down(data: &Funcdata, reader: OpId, value: VarnodeId) -> (r: Option<ToOpEdge>)
    requires
        data.wf(),
        data.valid_op(reader),
    ensures
        r == down_walk(data, reader, value, data.opv().len()),
        r matches Some(e) ==> data.valid_op(e.op),
{
    let mut operation_id = reader;
    let mut attached = value;
    let mut fuel: usize = data.op_arena_len();
    loop
        invariant
            data.wf(),
            data.valid_op(operation_id),
            down_walk(data, operation_id, attached, fuel as nat) == down_walk(data, reader, value, data.opv().len()),
        decreases fuel,
    {
        if fuel == 0 {
            return None;
        }
        let operation = data.op(operation_id);
        if operation.dead {
            return None;
        }
        if hash_opcode(operation.opcode).is_some() {
            let count = operation.inputs.len();
            proof {
                lemma_slot_from_range(operation.inputs@, attached, 0);
                assert(operation.inputs@.len() == count);
            }
            return match first_slot(&operation.inputs, attached) {
                Some(p) => {
                    assert(p as int == slot_from(operation.inputs@, attached, 0));
                    Some(ToOpEdge { op: operation_id, slot: #[verifier::truncate] (p as i32) })
                },
                None => None,
            };
        }
        match operation.output {
            None => {
                return None;
            },
            Some(out) => {
                assert(data.op_wf(operation_id));
                match data.lone_descend(out) {
                    None => {
                        return None;
                    },
                    Some(next) => {
                        assert(data.vn_wf(out));
                        assert(data.vn(out).descendants@[0] == next);
                        attached = out;
                        operation_id = next;
                        fuel -= 1;
                    },
                }
            },
        }
    }
}


/// Edge `a` sorts no later than edge `b`: by the sequence number of its
/// operation, then by slot.
pub open spec fn edge_le(d: &Funcdata, a: ToOpEdge, b: ToOpEdge) -> bool {
    let x = d.opn(a.op).seq;
    let y = d.opn(b.op).seq;
    x.address < y.address || (x.address == y.address && (x.order < y.order || (x.order == y.order
        && a.slot <= b.slot)))
}

/// Where `e` goes in the sorted prefix `s[..i]`: after the last edge that
/// sorts no later than it.
pub open spec fn edge_cut(d: &Funcdata, s: Seq<ToOpEdge>, e: ToOpEdge, i: int) -> int
    decreases i,
{
    if i <= 0 {
        0
    } else if edge_le(d, s[i - 1], e) {
        i
    } else {
        edge_cut(d, s, e, i - 1)
    }
}

/// `s` with its edges stably sorted by [`edge_le`]: each edge in turn is
/// placed after every earlier edge that sorts no later than it.
pub open spec fn sort_edges(d: &Funcdata, s: Seq<ToOpEdge>) -> Seq<ToOpEdge>
    decreases s.len(),
{
    if s.len() == 0 {
        s
    } else {
        let sorted = sort_edges(d, s.drop_last());
        sorted.insert(edge_cut(d, sorted, s.last(), sorted.len() as int), s.last())
    }
}

/// Every edge names an operation of the graph.
pub open spec fn edges_valid(d: &Funcdata, s: Seq<ToOpEdge>) -> bool {
    forall|k: int| 0 <= k < s.len() ==> d.valid_op(#[trigger] s[k].op)
}

fn edge_sorts_no_later(data: &Funcdata, a: ToOpEdge, b: ToOpEdge) -> (r: bool)
    requires
        data.valid_op(a.op),
        data.valid_op(b.op),
    ensures
        r == edge_le(data, a, b),
{
    let x = data.op(a.op).seq;
    let y = data.op(b.op).seq;
    x.address < y.address || (x.address == y.address && (x.order < y.order || (x.order == y.order
        && a.slot <= b.slot)))
}

/// Sorts edges stably by [`edge_le`].
fn sorted_edges(data: &Funcdata, raw: &Vec<ToOpEdge>) -> (r: Vec<ToOpEdge>)
    requires
        edges_valid(data, raw@),
    ensures
        r@ == sort_edges(data, raw@),
        edges_valid(data, r@),
{
    let mut result: Vec<ToOpEdge> = Vec::new();
    let mut i: usize = 0;
    while i < raw.len()
        invariant
            i <= raw@.len(),
            edges_valid(data, raw@),
            result@ == sort_edges(data, raw@.take(i as int)),
            edges_valid(data, result@),
        decreases raw@.len() - i,
    {
        let e = raw[i];
        let mut cut: usize = result.len();
        while cut > 0 && !edge_sorts_no_later(data, result[cut - 1], e)
            invariant
                cut <= result@.len(),
                edges_valid(data, result@),
                data.valid_op(e.op),
                edge_cut(data, result@, e, cut as int) == edge_cut(data, result@, e, result@.len() as int),
            decreases cut,
        {
            cut -= 1;
        }
        proof {
            assert(raw@.take(i as int + 1).drop_last() =~= raw@.take(i as int));
            assert(raw@.take(i as int + 1).last() == e);
        }
        result.insert(cut, e);
        i += 1;
    }
    proof {
        assert(raw@.take(raw@.len() as int) =~= raw@);
    }
    result
}

/// The edges below `v` in the order its reader list gives, before sorting:
/// one walk from each of the first `k` readers.
pub open spec fn down_raw(d: &Funcdata, v: VarnodeId, k: int) -> Seq<ToOpEdge>
    decreases k,
{
    if k <= 0 {
        Seq::empty()
    } else {
        down_raw(d, v, k - 1) + opt_edges(
            down_walk(d, d.vn(v).descendants@[k - 1], v, d.opv().len()),
        )
    }
}

/// The edges below `v`, sorted.
pub open spec fn down_edges(d: &Funcdata, v: VarnodeId) -> Seq<ToOpEdge> {
    sort_edges(d, down_raw(d, v, d.vn(v).descendants@.len() as int))
}

fn edges_down(data: &Funcdata, value: VarnodeId) -> (r: Vec<ToOpEdge>)
    requires
        data.wf(),
        data.valid_vn(value),
    ensures
        r@ == down_edges(data, value),
        edges_valid(data, r@),
{
    let readers = &data.varnode(value).descendants;
    proof {
        assert(data.vn_wf(value));
    }
    let mut raw: Vec<ToOpEdge> = Vec::new();
    let mut k: usize = 0;
    while k < readers.len()
        invariant
            data.wf(),
            data.valid_vn(value),
            *readers == data.vn(value).descendants,
            k <= readers@.len(),
            raw@ == down_raw(data, value, k as int),
            edges_valid(data, raw@),
        decreases readers@.len() - k,
    {
        assert(data.vn_wf(value));
        let found = walk_down(data, readers[k], value);
        match found {
            Some(e) => {
                raw.push(e);
            },
            None => {},
        }
        proof {
            assert(raw@ =~= down_raw(data, value, k as int + 1));
        }
        k += 1;
    }
    sorted_edges(data, &raw)
}

/// The operations of the first `k` edges, each named once, in order of
/// first appearance.
pub open spec fn edge_ops(edges: Seq<ToOpEdge>, k: int) -> Seq<OpId>
    decreases k,
{
    if k <= 0 {
        Seq::empty()
    } else {
        let r = edge_ops(edges, k - 1);
        if r.contains(edges[k - 1].op) {
            r
        } else {
            r.push(edges[k - 1].op)
        }
    }
}

/// The operations among the first `k` of `s` that have not been destroyed.
pub open spec fn live_among(d: &Funcdata, s: Seq<OpId>, k: int) -> Seq<OpId>
    decreases k,
{
    if k <= 0 {
        Seq::empty()
    } else if d.opn(s[k - 1]).dead {
        live_among(d, s, k - 1)
    } else {
        live_among(d, s, k - 1).push(s[k - 1])
    }
}

/// The values next to the first `k` operations of `ops`: their inputs for
/// methods that look up from an operation, their outputs for the method that
/// looks down.
pub open spec fn staged(d: &Funcdata, ops: Seq<OpId>, method: u32, k: int) -> Seq<VarnodeId>
    decreases k,
{
    if k <= 0 {
        Seq::empty()
    } else {
        let o = d.opn(ops[k - 1]);
        staged(d, ops, method, k - 1) + (if method == 2 {
            match o.output {
                Some(v) => seq![v],
                None => Seq::empty(),
            }
        } else {
            o.inputs@
        })
    }
}

/// The first `k` of `s` without `root` and without repeats, in order of
/// first appearance.
pub open spec fn fresh_values(s: Seq<VarnodeId>, root: VarnodeId, k: int) -> Seq<VarnodeId>
    decreases k,
{
    if k <= 0 {
        Seq::empty()
    } else {
        let r = fresh_values(s, root, k - 1);
        if s[k - 1] == root || r.contains(s[k - 1]) {
            r
        } else {
            r.push(s[k - 1])
        }
    }
}

/// The edges the first `k` values of `news` add: the edge above each for
/// the method that looks up, the edges below each otherwise.
pub open spec fn extra_edges(d: &Funcdata, news: Seq<VarnodeId>, method: u32, k: int) -> Seq<ToOpEdge>
    decreases k,
{
    if k <= 0 {
        Seq::empty()
    } else {
        extra_edges(d, news, method, k - 1) + (if method == 1 {
            up_edges(d, news[k - 1])
        } else {
            down_edges(d, news[k - 1])
        })
    }
}

/// The edges next to `root` itself.
pub open spec fn base_edges(d: &Funcdata, root: VarnodeId) -> Seq<ToOpEdge> {
    up_edges(d, root) + down_edges(d, root)
}

/// The neighbourhood of `root` that method `method` hashes. Method 0 takes
/// the edges next to `root`; methods 1 to 3 widen it through the operations
/// on those edges: 1 adds the edges above their inputs, 2 the edges below
/// their outputs, 3 the edges below their inputs.
pub open spec fn calc_edges(d: &Funcdata, root: VarnodeId, method: u32) -> Seq<ToOpEdge> {
    let base = base_edges(d, root);
    if method == 0 {
        base
    } else {
        let ops = edge_ops(base, base.len() as int);
        let live = live_among(d, ops, ops.len() as int);
        let st = staged(d, live, method, live.len() as int);
        let news = fresh_values(st, root, st.len() as int);
        base + extra_edges(d, news, method, news.len() as int)
    }
}

/// Every identifier in `s` names a value of the graph.
pub open spec fn values_valid(d: &Funcdata, s: Seq<VarnodeId>) -> bool {
    forall|k: int| 0 <= k < s.len() ==> d.valid_vn(#[trigger] s[k])
}

/// Every identifier in `s` names an operation of the graph.
pub open spec fn ops_valid(d: &Funcdata, s: Seq<OpId>) -> bool {
    forall|k: int| 0 <= k < s.len() ==> d.valid_op(#[trigger] s[k])
}

proof fn lemma_edge_ops_valid(d: &Funcdata, edges: Seq<ToOpEdge>, k: int)
    requires
        edges_valid(d, edges),
        k <= edges.len(),
    ensures
        ops_valid(d, edge_ops(edges, k)),
    decreases k,
{
    if k > 0 {
        lemma_edge_ops_valid(d, edges, k - 1);
    }
}

fn neighbourhood(data: &Funcdata, root: VarnodeId, method: u32) -> (r: Vec<ToOpEdge>)
    requires
        data.wf(),
        data.valid_vn(root),
        method <= 3,
    ensures
        r@ == calc_edges(data, root, method),
        edges_valid(data, r@),
{
    let mut edges: Vec<ToOpEdge> = Vec::new();
    match walk_up(data, root) {
        Some(e) => {
            edges.push(e);
        },
        None => {},
    }
    let mut below = edges_down(data, root);
    edges.append(&mut below);
    let ghost base = edges@;
    proof {
        assert(base =~= base_edges(data, root));
        assert(edges_valid(data, base));
    }
    if method == 0 {
        return edges;
    }
    // The operations on the edges, each once.
    let mut ops: Vec<OpId> = Vec::new();
    let mut i: usize = 0;
    while i < edges.len()
        invariant
            edges@ == base,
            edges_valid(data, base),
            i <= base.len(),
            ops@ == edge_ops(base, i as int),
        decreases base.len() - i,
    {
        let o = edges[i].op;
        if !crate::graph::ids_contain_op(&ops, o) {
            ops.push(o);
        }
        i += 1;
    }
    proof {
        lemma_edge_ops_valid(data, base, base.len() as int);
    }
    let mut live: Vec<OpId> = Vec::new();
    let mut j: usize = 0;
    while j < ops.len()
        invariant
            ops_valid(data, ops@),
            j <= ops@.len(),
            live@ == live_among(data, ops@, j as int),
            ops_valid(data, live@),
        decreases ops@.len() - j,
    {
        if !data.op(ops[j]).dead {
            live.push(ops[j]);
        }
        j += 1;
    }
    // The values next to them.
    let mut stage: Vec<VarnodeId> = Vec::new();
    let mut k: usize = 0;
    while k < live.len()
        invariant
            data.wf(),
            ops_valid(data, live@),
            k <= live@.len(),
            stage@ == staged(data, live@, method, k as int),
            values_valid(data, stage@),
        decreases live@.len() - k,
    {
        let operation = data.op(live[k]);
        proof {
            assert(data.op_wf(live@[k as int]));
        }
        let ghost before = stage@;
        if method == 2 {
            match operation.output {
                Some(v) => {
                    stage.push(v);
                },
                None => {},
            }
        } else {
            let mut t: usize = 0;
            while t < operation.inputs.len()
                invariant
                    data.wf(),
                    data.op_wf(live@[k as int]),
                    *operation == data.opn(live@[k as int]),
                    t <= operation.inputs@.len(),
                    stage@ == before + operation.inputs@.take(t as int),
                    values_valid(data, stage@),
                decreases operation.inputs@.len() - t,
            {
                stage.push(operation.inputs[t]);
                proof {
                    assert(operation.inputs@.take(t as int + 1) =~= operation.inputs@.take(t as int).push(operation.inputs@[t as int]));
                }
                t += 1;
            }
            proof {
                assert(operation.inputs@.take(operation.inputs@.len() as int) =~= operation.inputs@);
            }
        }
        proof {
            assert(stage@ =~= staged(data, live@, method, k as int + 1));
        }
        k += 1;
    }
    // The values not met before.
    let mut news: Vec<VarnodeId> = Vec::new();
    let mut n: usize = 0;
    while n < stage.len()
        invariant
            values_valid(data, stage@),
            n <= stage@.len(),
            news@ == fresh_values(stage@, root, n as int),
            values_valid(data, news@),
        decreases stage@.len() - n,
    {
        let v = stage[n];
        if v != root && !crate::graph::ids_contain_vn(&news, v) {
            news.push(v);
        }
        n += 1;
    }
    // The edges they add.
    let mut q: usize = 0;
    while q < news.len()
        invariant
            data.wf(),
            method <= 3,
            method != 0,
            values_valid(data, news@),
            q <= news@.len(),
            edges@ == base + extra_edges(data, news@, method, q as int),
            edges_valid(data, edges@),
        decreases news@.len() - q,
    {
        if method == 1 {
            match walk_up(data, news[q]) {
                Some(e) => {
                    edges.push(e);
                },
                None => {},
            }
        } else {
            let mut more = edges_down(data, news[q]);
            edges.append(&mut more);
        }
        proof {
            assert(edges@ =~= base + extra_edges(data, news@, method, q as int + 1));
        }
        q += 1;
    }
    edges
}

/// The CRC register after folding in one edge: its slot, its operation's
/// hashed opcode and the eight bytes of the operation's address. `None`
/// when the operation contributes no opcode.
pub open spec fn edge_step(d: &Funcdata, register: u32, e: ToOpEdge) -> Option<u32> {
    match hashed_code(d.opn(e.op).opcode) {
        None => None,
        Some(t) => Some(bytes_crc(crc(crc(register, e.slot as u32), t), d.opn(e.op).seq.address, 8)),
    }
}

/// The CRC register after folding in the first `k` edges.
pub open spec fn edges_crc(d: &Funcdata, register: u32, edges: Seq<ToOpEdge>, k: int) -> Option<u32>
    decreases k,
{
    if k <= 0 {
        Some(register)
    } else {
        match edges_crc(d, register, edges, k - 1) {
            None => None,
            Some(r) => edge_step(d, r, edges[k - 1]),
        }
    }
}

/// The CRC register after the root's size and, for a constant, the bytes of
/// its value.
pub open spec fn root_crc(d: &Funcdata, root: VarnodeId) -> u32 {
    let start = crc(HASH_SEED, d.vn(root).size);
    if d.vn(root).flags.constant {
        bytes_crc(start, d.vn(root).offset, d.vn(root).size as nat)
    } else {
        start
    }
}

/// Edge `e` touches `root` itself: as the operation's output, or in the
/// operand slot the edge names.
pub open spec fn attached_to(d: &Funcdata, e: ToOpEdge, root: VarnodeId) -> bool {
    if e.slot < 0 {
        d.opn(e.op).output == Some(root)
    } else {
        e.slot < d.opn(e.op).inputs@.len() && d.opn(e.op).inputs@[e.slot as int] == root
    }
}

/// The index of the first edge at or after `i` that touches `root`, or -1.
pub open spec fn attached_from(d: &Funcdata, edges: Seq<ToOpEdge>, root: VarnodeId, i: int) -> int
    decreases edges.len() - i,
{
    if i < 0 || i >= edges.len() {
        -1
    } else if attached_to(d, edges[i], root) {
        i
    } else {
        attached_from(d, edges, root, i + 1)
    }
}

proof fn lemma_attached_from_range(d: &Funcdata, edges: Seq<ToOpEdge>, root: VarnodeId, i: int)
    ensures
        attached_from(d, edges, root, i) == -1 || (0 <= i <= attached_from(d, edges, root, i) < edges.len()),
    decreases edges.len() - i,
{
    if 0 <= i < edges.len() && !attached_to(d, edges[i], root) {
        lemma_attached_from_range(d, edges, root, i + 1);
    }
}

/// The five low fields of a hash: the flag for a value not directly
/// attached, the method, the hashed opcode, the slot and the CRC.
pub open spec fn pack(not_attached: bool, method: u32, code: u32, slot: i32, register: u32) -> u64 {
    let slot_bits: u64 = if slot < 0 {
        0x1f
    } else {
        (slot as u64) & 0x1f
    };
    ((if not_attached { 1u64 } else { 0u64 }) << HASH_NOT_ATTACHED_SHIFT) | (((method & 0xf) as u64)
        << HASH_METHOD_SHIFT) | ((code as u64) << HASH_OPCODE_SHIFT) | (slot_bits << HASH_SLOT_SHIFT)
        | (register as u64)
}

/// The hash of `root` over the neighbourhood `edges` under `method`,
/// anchored at the first edge that touches `root`, or at the first edge when
/// none does. `None` for an empty neighbourhood.
pub open spec fn piece(d: &Funcdata, root: VarnodeId, edges: Seq<ToOpEdge>, method: u32) -> Option<HashCandidate> {
    if edges.len() == 0 {
        None
    } else {
        match edges_crc(d, root_crc(d, root), edges, edges.len() as int) {
            None => None,
            Some(register) => {
                let found = attached_from(d, edges, root, 0);
                let chosen = if found < 0 {
                    edges[0]
                } else {
                    edges[found]
                };
                match hashed_code(d.opn(chosen.op).opcode) {
                    None => None,
                    Some(code) => Some(
                        HashCandidate {
                            seq: d.opn(chosen.op).seq,
                            hash: pack(found < 0, method, code, chosen.slot, register),
                        },
                    ),
                }
            },
        }
    }
}

/// The hash of `root` under `method`: [`piece`] over [`calc_edges`]. Only
/// methods 0 to 3 exist.
pub open spec fn calc(d: &Funcdata, root: VarnodeId, method: u32) -> Option<HashCandidate> {
    if method > 3 {
        None
    } else {
        piece(d, root, calc_edges(d, root, method), method)
    }
}

fn touches(data: &Funcdata, e: ToOpEdge, root: VarnodeId) -> (r: bool)
    requires
        data.valid_op(e.op),
    ensures
        r == attached_to(data, e, root),
{
    let operation = data.op(e.op);
    if e.slot < 0 {
        operation.output == Some(root)
    } else {
        (e.slot as usize) < operation.inputs.len() && operation.inputs[e.slot as usize] == root
    }
}

fn piece_together_hash(data: &Funcdata, root: VarnodeId, edges: &Vec<ToOpEdge>, method: u32) -> (r: Option<HashCandidate>)
    requires
        data.valid_vn(root),
        edges_valid(data, edges@),
    ensures
        r == piece(data, root, edges@, method),
{
    if edges.len() == 0 {
        return None;
    }
    let node = data.varnode(root);
    let mut register = crc_update(HASH_SEED, node.size);
    if node.flags.constant {
        register = crc_bytes(register, node.offset, node.size);
    }
    assert(register == root_crc(data, root));
    let ghost start = register;
    let mut i: usize = 0;
    while i < edges.len()
        invariant
            edges_valid(data, edges@),
            i <= edges@.len(),
            edges_crc(data, start, edges@, i as int) == Some(register),
            start == root_crc(data, root),
        decreases edges@.len() - i,
    {
        let e = edges[i];
        let operation = data.op(e.op);
        match hash_opcode(operation.opcode) {
            None => {
                proof {
                    assert(edges_crc(data, start, edges@, i as int + 1) is None);
                    lemma_edges_crc_none(data, start, edges@, i as int + 1, edges@.len() as int);
                }
                return None;
            },
            Some(code) => {
                register = crc_update(register, #[verifier::truncate] (e.slot as u32));
                register = crc_update(register, code);
                register = crc_bytes(register, operation.seq.address, 8);
            },
        }
        i += 1;
    }
    let mut found: usize = 0;
    while found < edges.len() && !touches(data, edges[found], root)
        invariant
            edges_valid(data, edges@),
            found <= edges@.len(),
            attached_from(data, edges@, root, 0) == attached_from(data, edges@, root, found as int),
        decreases edges@.len() - found,
    {
        found += 1;
    }
    proof {
        lemma_attached_from_range(data, edges@, root, found as int);
    }
    let not_attached = found == edges.len();
    let chosen = if not_attached {
        edges[0]
    } else {
        edges[found]
    };
    let operation = data.op(chosen.op);
    match hash_opcode(operation.opcode) {
        None => None,
        Some(code) => {
            let slot_bits: u64 = if chosen.slot < 0 {
                0x1f
            } else {
                (chosen.slot as u64) & 0x1f
            };
            let hash: u64 = ((if not_attached { 1u64 } else { 0u64 }) << HASH_NOT_ATTACHED_SHIFT)
                | (((method & 0xf) as u64) << HASH_METHOD_SHIFT) | ((code as u64) << HASH_OPCODE_SHIFT)
                | (slot_bits << HASH_SLOT_SHIFT) | (register as u64);
            Some(HashCandidate { seq: operation.seq, hash })
        },
    }
}

proof fn lemma_edges_crc_none(d: &Funcdata, register: u32, edges: Seq<ToOpEdge>, k: int, n: int)
    requires
        0 < k <= n,
        edges_crc(d, register, edges, k) is None,
    ensures
        edges_crc(d, register, edges, n) is None,
    decreases n - k,
{
    if k < n {
        lemma_edges_crc_none(d, register, edges, k + 1, n);
    }
}

fn calc_hash(data: &Funcdata, root: VarnodeId, method: u32) -> (r: Option<HashCandidate>)
    requires
        data.wf(),
        data.valid_vn(root),
    ensures
        r == calc(data, root, method),
{
    if method > 3 {
        return None;
    }
    let edges = neighbourhood(data, root, method);
    piece_together_hash(data, root, &edges, method)
}

/// The hashed opcode a hash records.
pub open spec fn hash_code(hash: u64) -> u32 {
    ((hash >> HASH_OPCODE_SHIFT) & 0x7f) as u32
}

/// The slot a hash records, with the output slot decoded.
pub open spec fn hash_slot(hash: u64) -> i32 {
    let raw = ((hash >> HASH_SLOT_SHIFT) & 0x1f) as i32;
    if raw == 0x1f {
        OUTPUT_SLOT
    } else {
        raw
    }
}

/// Whether a hash records a value that is not directly attached to its
/// anchoring operation.
pub open spec fn hash_not_attached(hash: u64) -> bool {
    ((hash >> HASH_NOT_ATTACHED_SHIFT) & 1) != 0
}

/// Among the first `k` of `ids`, the operations at instruction `address`.
pub open spec fn ops_at(d: &Funcdata, ids: Seq<OpId>, address: u64, k: int) -> Seq<OpId>
    decreases k,
{
    if k <= 0 {
        Seq::empty()
    } else if d.opn(ids[k - 1]).seq.address == address {
        ops_at(d, ids, address, k - 1).push(ids[k - 1])
    } else {
        ops_at(d, ids, address, k - 1)
    }
}

/// Operation `a` sorts no later than `b`: by sequence number, then by
/// identifier.
pub open spec fn op_le(d: &Funcdata, a: OpId, b: OpId) -> bool {
    let x = d.opn(a).seq;
    let y = d.opn(b).seq;
    x.address < y.address || (x.address == y.address && (x.order < y.order || (x.order == y.order
        && a.0 <= b.0)))
}

/// Where `o` goes in the sorted prefix `s[..i]`.
pub open spec fn op_cut(d: &Funcdata, s: Seq<OpId>, o: OpId, i: int) -> int
    decreases i,
{
    if i <= 0 {
        0
    } else if op_le(d, s[i - 1], o) {
        i
    } else {
        op_cut(d, s, o, i - 1)
    }
}

/// `s` sorted by [`op_le`], each operation in turn placed after every
/// earlier one that sorts no later than it.
pub open spec fn sort_ops(d: &Funcdata, s: Seq<OpId>) -> Seq<OpId>
    decreases s.len(),
{
    if s.len() == 0 {
        s
    } else {
        let sorted = sort_ops(d, s.drop_last());
        sorted.insert(op_cut(d, sorted, s.last(), sorted.len() as int), s.last())
    }
}

/// The live operations at `address`, in sequence order.
pub open spec fn ops_at_address(d: &Funcdata, address: u64) -> Seq<OpId> {
    let live = crate::graph::live_op_ids(d.opv(), d.opv().len() as int);
    sort_ops(d, ops_at(d, live, address, live.len() as int))
}

/// The value a hash's slot names at operation `o`, when `o` has the hash's
/// opcode: the output or the input in that slot; for a value not directly
/// attached, the value one step beyond it through an operation that
/// contributes no opcode.
pub open spec fn pick(d: &Funcdata, o: OpId, code: u32, slot: i32, not_attached: bool) -> Option<VarnodeId> {
    let operation = d.opn(o);
    if hashed_code(operation.opcode) != Some(code) {
        None
    } else if slot < 0 {
        match operation.output {
            None => None,
            Some(out) => {
                if not_attached && d.vn(out).descendants@.len() == 1 && hashed_code(
                    d.opn(d.vn(out).descendants@[0]).opcode,
                ) is None {
                    d.opn(d.vn(out).descendants@[0]).output
                } else {
                    Some(out)
                }
            },
        }
    } else if slot >= operation.inputs@.len() {
        None
    } else {
        let input = operation.inputs@[slot as int];
        match d.vn(input).def {
            Some(df) => {
                if not_attached && hashed_code(d.opn(df).opcode) is None {
                    if d.opn(df).inputs@.len() == 0 {
                        None
                    } else {
                        Some(d.opn(df).inputs@[0])
                    }
                } else {
                    Some(input)
                }
            },
            None => Some(input),
        }
    }
}

/// The values the first `k` operations of `ops` give for a hash, each once.
pub open spec fn picks(d: &Funcdata, ops: Seq<OpId>, hash: u64, k: int) -> Seq<VarnodeId>
    decreases k,
{
    if k <= 0 {
        Seq::empty()
    } else {
        let r = picks(d, ops, hash, k - 1);
        match pick(d, ops[k - 1], hash_code(hash), hash_slot(hash), hash_not_attached(hash)) {
            None => r,
            Some(v) => {
                if r.contains(v) {
                    r
                } else {
                    r.push(v)
                }
            },
        }
    }
}

/// The values that could share a candidate's hash: the ones its opcode and
/// slot name at the operations of its instruction, in sequence order.
pub open spec fn first_level(d: &Funcdata, candidate: HashCandidate) -> Seq<VarnodeId> {
    let ops = ops_at_address(d, candidate.seq.address);
    picks(d, ops, candidate.hash, ops.len() as int)
}

fn op_sorts_no_later(data: &Funcdata, a: OpId, b: OpId) -> (r: bool)
    requires
        data.valid_op(a),
        data.valid_op(b),
    ensures
        r == op_le(data, a, b),
{
    let x = data.op(a).seq;
    let y = data.op(b).seq;
    x.address < y.address || (x.address == y.address && (x.order < y.order || (x.order == y.order
        && a.0 <= b.0)))
}

fn pick_value(data: &Funcdata, o: OpId, code: u32, slot: i32, not_attached: bool) -> (r: Option<VarnodeId>)
    requires
        data.wf(),
        data.valid_op(o),
    ensures
        r == pick(data, o, code, slot, not_attached),
        r matches Some(v) ==> data.valid_vn(v),
{
    let operation = data.op(o);
    proof {
        assert(data.op_wf(o));
    }
    match hash_opcode(operation.opcode) {
        Some(t) => {
            if t != code {
                return None;
            }
        },
        None => {
            return None;
        },
    }
    if slot < 0 {
        match operation.output {
            None => None,
            Some(out) => {
                if not_attached {
                    match data.lone_descend(out) {
                        Some(next) => {
                            proof {
                                assert(data.vn_wf(out));
                                assert(data.vn(out).descendants@[0] == next);
                                assert(data.op_wf(next));
                            }
                            if hash_opcode(data.op(next).opcode).is_none() {
                                return data.op(next).output;
                            }
                        },
                        None => {},
                    }
                }
                Some(out)
            },
        }
    } else if slot as usize >= operation.inputs.len() {
        None
    } else {
        let input = operation.inputs[slot as usize];
        match data.varnode(input).def {
            Some(df) => {
                proof {
                    assert(data.vn_wf(input));
                    assert(data.op_wf(df));
                }
                if not_attached && hash_opcode(data.op(df).opcode).is_none() {
                    if data.op(df).inputs.len() == 0 {
                        None
                    } else {
                        Some(data.op(df).inputs[0])
                    }
                } else {
                    Some(input)
                }
            },
            None => Some(input),
        }
    }
}

fn gather_first_level(data: &Funcdata, candidate: HashCandidate) -> (r: Vec<VarnodeId>)
    requires
        data.wf(),
    ensures
        r@ == first_level(data, candidate),
        values_valid(data, r@),
{
    let hash = candidate.hash;
    let code: u32 = ((hash >> HASH_OPCODE_SHIFT) & 0x7f) as u32;
    let raw: i32 = ((hash >> HASH_SLOT_SHIFT) & 0x1f) as i32;
    let slot: i32 = if raw == 0x1f {
        OUTPUT_SLOT
    } else {
        raw
    };
    let not_attached = ((hash >> HASH_NOT_ATTACHED_SHIFT) & 1) != 0;
    let address = candidate.seq.address;
    let live = data.live_ops();
    proof {
        crate::graph::lemma_live_op_ids_below(data.opv(), data.opv().len() as int);
    }
    // The operations at the instruction, in arena order.
    let mut here: Vec<OpId> = Vec::new();
    let mut i: usize = 0;
    while i < live.len()
        invariant
            live@ == crate::graph::live_op_ids(data.opv(), data.opv().len() as int),
            crate::graph::ops_below(live@, data.opv().len() as int),
            i <= live@.len(),
            here@ == ops_at(data, live@, address, i as int),
            ops_valid(data, here@),
        decreases live@.len() - i,
    {
        if data.op(live[i]).seq.address == address {
            here.push(live[i]);
        }
        i += 1;
    }
    // Sorted by sequence number.
    let mut sorted: Vec<OpId> = Vec::new();
    let mut j: usize = 0;
    while j < here.len()
        invariant
            ops_valid(data, here@),
            j <= here@.len(),
            sorted@ == sort_ops(data, here@.take(j as int)),
            ops_valid(data, sorted@),
        decreases here@.len() - j,
    {
        let o = here[j];
        let mut cut: usize = sorted.len();
        while cut > 0 && !op_sorts_no_later(data, sorted[cut - 1], o)
            invariant
                cut <= sorted@.len(),
                ops_valid(data, sorted@),
                data.valid_op(o),
                op_cut(data, sorted@, o, cut as int) == op_cut(data, sorted@, o, sorted@.len() as int),
            decreases cut,
        {
            cut -= 1;
        }
        proof {
            assert(here@.take(j as int + 1).drop_last() =~= here@.take(j as int));
            assert(here@.take(j as int + 1).last() == o);
        }
        sorted.insert(cut, o);
        j += 1;
    }
    proof {
        assert(here@.take(here@.len() as int) =~= here@);
        assert(sorted@ == ops_at_address(data, address));
    }
    // The values they give, each once.
    let mut result: Vec<VarnodeId> = Vec::new();
    let mut k: usize = 0;
    while k < sorted.len()
        invariant
            data.wf(),
            ops_valid(data, sorted@),
            k <= sorted@.len(),
            code == hash_code(hash),
            slot == hash_slot(hash),
            not_attached == hash_not_attached(hash),
            result@ == picks(data, sorted@, hash, k as int),
            values_valid(data, result@),
        decreases sorted@.len() - k,
    {
        match pick_value(data, sorted[k], code, slot, not_attached) {
            Some(v) => {
                if !crate::graph::ids_contain_vn(&result, v) {
                    result.push(v);
                }
            },
            None => {},
        }
        k += 1;
    }
    result
}

/// The values among the first `k` of `values` whose hash under `method`
/// agrees with `candidate` in its low 32 bits, the CRC. Once more than
/// [`MAX_DUPLICATES`] agree, the rest are not examined. `None` when a value
/// examined has no hash.
pub open spec fn collide(d: &Funcdata, candidate: HashCandidate, method: u32, values: Seq<VarnodeId>, k: int) -> Option<Seq<VarnodeId>>
    decreases k,
{
    if k <= 0 {
        Some(Seq::empty())
    } else {
        match collide(d, candidate, method, values, k - 1) {
            None => None,
            Some(c) => {
                if c.len() > MAX_DUPLICATES {
                    Some(c)
                } else {
                    match calc(d, values[k - 1], method) {
                        None => None,
                        Some(other) => {
                            if other.hash as u32 == candidate.hash as u32 {
                                Some(c.push(values[k - 1]))
                            } else {
                                Some(c)
                            }
                        },
                    }
                }
            },
        }
    }
}

/// The state of the search for the best method after the first `m`
/// methods: the values sharing the best hash so far, that hash, and whether
/// it already names `root` alone. `None` when a hash could not be formed.
/// A method replaces the best so far when at most [`MAX_DUPLICATES`] values
/// share its hash and they are fewer than before.
pub open spec fn search(d: &Funcdata, root: VarnodeId, m: nat) -> Option<(Seq<VarnodeId>, Option<HashCandidate>, bool)>
    decreases m,
{
    if m == 0 {
        Some((Seq::empty(), None, false))
    } else {
        match search(d, root, (m - 1) as nat) {
            None => None,
            Some(state) => {
                if state.2 {
                    Some(state)
                } else {
                    let method = (m - 1) as u32;
                    match calc(d, root, method) {
                        None => None,
                        Some(candidate) => {
                            let first = first_level(d, candidate);
                            match collide(d, candidate, method, first, first.len() as int) {
                                None => None,
                                Some(c) => {
                                    if c.len() <= MAX_DUPLICATES && (state.0.len() == 0 || c.len()
                                        < state.0.len()) {
                                        Some((c, Some(candidate), c.len() == 1))
                                    } else {
                                        Some(state)
                                    }
                                },
                            }
                        },
                    }
                }
            },
        }
    }
}

/// The identity of `root`: the best method's hash with `root`'s position
/// among the values sharing it and their number less one packed above it.
pub open spec fn unique_hash(d: &Funcdata, root: VarnodeId) -> Option<HashCandidate> {
    match search(d, root, 4) {
        None => None,
        Some(state) => {
            match state.1 {
                None => None,
                Some(candidate) => {
                    let position = slot_from(state.0, root, 0);
                    if position < 0 {
                        None
                    } else {
                        Some(
                            HashCandidate {
                                seq: candidate.seq,
                                hash: candidate.hash | ((position as u64) << HASH_POSITION_SHIFT) | (((
                                state.0.len() - 1) as u64) << HASH_TOTAL_SHIFT),
                            },
                        )
                    }
                },
            }
        },
    }
}

proof fn lemma_collide_none(d: &Funcdata, candidate: HashCandidate, method: u32, values: Seq<VarnodeId>, k: int, n: int)
    requires
        0 <= k <= n,
        collide(d, candidate, method, values, k) is None,
    ensures
        collide(d, candidate, method, values, n) is None,
    decreases n - k,
{
    if k < n {
        lemma_collide_none(d, candidate, method, values, k + 1, n);
    }
}

proof fn lemma_search_none(d: &Funcdata, root: VarnodeId, k: nat, n: nat)
    requires
        k <= n,
        search(d, root, k) is None,
    ensures
        search(d, root, n) is None,
    decreases n - k,
{
    if k < n {
        lemma_search_none(d, root, k + 1, n);
    }
}

fn collisions_of(data: &Funcdata, candidate: HashCandidate, method: u32, values: &Vec<VarnodeId>) -> (r: Option<Vec<VarnodeId>>)
    requires
        data.wf(),
        values_valid(data, values@),
    ensures
        match r {
            Some(c) => collide(data, candidate, method, values@, values@.len() as int) == Some(c@),
            None => collide(data, candidate, method, values@, values@.len() as int) is None,
        },
{
    let mut collisions: Vec<VarnodeId> = Vec::new();
    let mut t: usize = 0;
    while t < values.len()
        invariant
            data.wf(),
            values_valid(data, values@),
            t <= values@.len(),
            collide(data, candidate, method, values@, t as int) == Some(collisions@),
        decreases values@.len() - t,
    {
        if collisions.len() <= MAX_DUPLICATES {
            match calc_hash(data, values[t], method) {
                None => {
                    proof {
                        lemma_collide_none(data, candidate, method, values@, t as int + 1, values@.len() as int);
                    }
                    return None;
                },
                Some(other) => {
                    if other.hash as u32 == candidate.hash as u32 {
                        collisions.push(values[t]);
                    }
                },
            }
        }
        t += 1;
    }
    Some(collisions)
}

fn unique_varnode(data: &Funcdata, root: VarnodeId) -> (r: Option<HashCandidate>)
    requires
        data.wf(),
        data.valid_vn(root),
    ensures
        r == unique_hash(data, root),
{
    let mut champion: Vec<VarnodeId> = Vec::new();
    let mut best: Option<HashCandidate> = None;
    let mut done = false;
    let mut method: u32 = 0;
    while method < 4
        invariant
            data.wf(),
            data.valid_vn(root),
            method <= 4,
            search(data, root, method as nat) == Some((champion@, best, done)),
        decreases 4 - method,
    {
        if !done {
            match calc_hash(data, root, method) {
                None => {
                    proof {
                        lemma_search_none(data, root, method as nat + 1, 4);
                    }
                    return None;
                },
                Some(candidate) => {
                    let first = gather_first_level(data, candidate);
                    match collisions_of(data, candidate, method, &first) {
                        None => {
                            proof {
                                lemma_search_none(data, root, method as nat + 1, 4);
                            }
                            return None;
                        },
                        Some(c) => {
                            if c.len() <= MAX_DUPLICATES && (champion.len() == 0 || c.len() < champion.len()) {
                                done = c.len() == 1;
                                champion = c;
                                best = Some(candidate);
                            }
                        },
                    }
                },
            }
        }
        method += 1;
    }
    match best {
        None => None,
        Some(candidate) => {
            proof {
                lemma_slot_from_range(champion@, root, 0);
            }
            match first_slot(&champion, root) {
                None => None,
                Some(position) => {
                    let total: usize = champion.len() - 1;
                    let hash: u64 = candidate.hash | ((position as u64) << HASH_POSITION_SHIFT) | ((
                    total as u64) << HASH_TOTAL_SHIFT);
                    Some(HashCandidate { seq: candidate.seq, hash })
                },
            }
        },
    }
}

/// The position-independent identity of a value: the sequence number of
/// the operation that anchors it, and a hash packing the method, the
/// anchoring operation's hashed opcode and slot, whether the value is
/// attached to it directly, the value's position among the values that share
/// the hash and their number less one, over a CRC of its neighbourhood.
/// `None` when a neighbourhood is empty or the value is not found among the
/// values sharing its hash. The same graph and value always give the same
/// identity.
pub fn dynamic_hash(data: &Funcdata, value: VarnodeId) -> (r: Option<(SeqNum, u64)>)
    requires
        data.wf(),
        data.valid_vn(value),
    ensures
        r == (match unique_hash(data, value) {
            Some(c) => Some((c.seq, c.hash)),
            None => None,
        }),
{
    match unique_varnode(data, value) {
        Some(candidate) => Some((candidate.seq, candidate.hash)),
        None => None,
    }
}

proof fn lemma_hashed_code_bound(opcode: i32)
    ensures
        hashed_code(opcode) matches Some(c) ==> c < 128,
{
}

proof fn lemma_pack_fields(na: u64, m4: u64, code: u64, sb: u64, r: u64)
    by (bit_vector)
    requires
        na <= 1,
        m4 <= 15,
        code < 128,
        sb <= 31,
        r <= 0xffff_ffff,
    ensures
        ((na << 48u64) | (m4 << 44u64) | (code << 37u64) | (sb << 32u64) | r) < 0x2_0000_0000_0000u64,
        (((na << 48u64) | (m4 << 44u64) | (code << 37u64) | (sb << 32u64) | r) >> 44u64) & 0xfu64 == m4,
{
}

proof fn lemma_pack(not_attached: bool, method: u32, code: u32, slot: i32, register: u32)
    requires
        code < 128,
    ensures
        pack(not_attached, method, code, slot, register) < 0x2_0000_0000_0000u64,
        (pack(not_attached, method, code, slot, register) >> 44u64) & 0xfu64 == ((method & 0xf) as u64),
{
    let slot_bits: u64 = if slot < 0 {
        0x1f
    } else {
        (slot as u64) & 0x1f
    };
    let raw = slot as u64;
    assert(raw & 0x1fu64 <= 31) by (bit_vector);
    let m = method;
    assert(((m & 0xfu32) as u64) <= 15) by (bit_vector);
    lemma_pack_fields(
        if not_attached { 1u64 } else { 0u64 },
        (method & 0xf) as u64,
        code as u64,
        slot_bits,
        register as u64,
    );
}

proof fn lemma_piece_bits(d: &Funcdata, root: VarnodeId, edges: Seq<ToOpEdge>, method: u32)
    ensures
        piece(d, root, edges, method) matches Some(c) ==> c.hash < 0x2_0000_0000_0000u64 && (c.hash >> 44u64)
            & 0xfu64 == ((method & 0xf) as u64),
{
    if edges.len() > 0 {
        if let Some(register) = edges_crc(d, root_crc(d, root), edges, edges.len() as int) {
            let found = attached_from(d, edges, root, 0);
            let chosen = if found < 0 {
                edges[0]
            } else {
                edges[found]
            };
            lemma_hashed_code_bound(d.opn(chosen.op).opcode);
            if let Some(code) = hashed_code(d.opn(chosen.op).opcode) {
                lemma_pack(found < 0, method, code, chosen.slot, register);
            }
        }
    }
}

/// The method that produced the best hash so far, with the facts that tie
/// the best values to it.
proof fn lemma_search_champion(d: &Funcdata, root: VarnodeId, n: nat) -> (m: u32)
    requires
        n <= 4,
    ensures
        search(d, root, n) matches Some(state) ==> (state.1 matches Some(candidate) ==> {
            &&& m < n
            &&& calc(d, root, m) == Some(candidate)
            &&& collide(d, candidate, m, first_level(d, candidate), first_level(d, candidate).len() as int) == Some(
                state.0,
            )
            &&& state.0.len() <= MAX_DUPLICATES
        }),
    decreases n,
{
    if n == 0 {
        0
    } else {
        let prev = lemma_search_champion(d, root, (n - 1) as nat);
        match search(d, root, (n - 1) as nat) {
            None => prev,
            Some(state) => {
                if state.2 {
                    prev
                } else {
                    let method = (n - 1) as u32;
                    match calc(d, root, method) {
                        None => prev,
                        Some(candidate) => {
                            let first = first_level(d, candidate);
                            match collide(d, candidate, method, first, first.len() as int) {
                                None => prev,
                                Some(c) => {
                                    if c.len() <= MAX_DUPLICATES && (state.0.len() == 0 || c.len() < state.0.len()) {
                                        method
                                    } else {
                                        prev
                                    }
                                },
                            }
                        },
                    }
                }
            },
        }
    }
}

proof fn lemma_split_identity(c1: u64, p1: u64, t1: u64, c2: u64, p2: u64, t2: u64)
    by (bit_vector)
    requires
        c1 < 0x2_0000_0000_0000u64,
        c2 < 0x2_0000_0000_0000u64,
        p1 <= t1,
        t1 <= 8,
        p2 <= t2,
        t2 <= 8,
        (c1 | (p1 << 49u64) | (t1 << 52u64)) == (c2 | (p2 << 49u64) | (t2 << 52u64)),
    ensures
        c1 == c2,
        p1 == p2,
        t1 == t2,
{
}

proof fn lemma_small_method(m: u32)
    by (bit_vector)
    requires
        m < 4,
    ensures
        ((m & 0xfu32) as u64) == m as u64,
{
}

/// A value's identity names it alone: two values of one graph with the same
/// identity are the same value.
pub proof fn lemma_identity_names_one_value(d: &Funcdata, a: VarnodeId, b: VarnodeId)
    requires
        unique_hash(d, a) is Some,
        unique_hash(d, a) == unique_hash(d, b),
    ensures
        a == b,
{
    let sa = search(d, a, 4).unwrap();
    let sb = search(d, b, 4).unwrap();
    let ca = sa.1.unwrap();
    let cb = sb.1.unwrap();
    let ma = lemma_search_champion(d, a, 4);
    let mb = lemma_search_champion(d, b, 4);
    lemma_slot_from_range(sa.0, a, 0);
    lemma_slot_from_range(sb.0, b, 0);
    let pa = slot_from(sa.0, a, 0);
    let pb = slot_from(sb.0, b, 0);
    lemma_piece_bits(d, a, calc_edges(d, a, ma), ma);
    lemma_piece_bits(d, b, calc_edges(d, b, mb), mb);
    lemma_split_identity(
        ca.hash,
        pa as u64,
        (sa.0.len() - 1) as u64,
        cb.hash,
        pb as u64,
        (sb.0.len() - 1) as u64,
    );
    assert(ca == cb);
    lemma_small_method(ma);
    lemma_small_method(mb);
    assert(ma == mb);
    assert(sa.0 == sb.0);
}

} // verus!
