//! Dead code elimination at the level of bits.
//!
//! Guarding and SSA construction over-approximate: every location a call may
//! change gains an `INDIRECT`, and every location written on more than one
//! path gains a `MULTIEQUAL`. Most are never read. Liveness is tracked per
//! bit, so a byte extracted from a word marks only that byte live and the
//! rest of the word can still die.

use vstd::prelude::*;

use crate::action::fold_constant;
use crate::graph::{Funcdata, GraphOp, OpId, VarnodeId, live_op_ids, lemma_live_op_ids_below, ops_below, vns_below};
use crate::pcode::{
    BRANCH, BRANCHIND, CALL, CALLIND, CALLOTHER, CAST, CBRANCH, COPY, INDIRECT, INT_ADD, INT_AND, INT_LEFT, INT_MULT,
    INT_NEGATE, INT_OR, INT_RIGHT, INT_SEXT, INT_SUB, INT_XOR, INT_ZEXT, MULTIEQUAL, PIECE, PTRADD, PTRSUB, RETURN,
    STORE, SUBPIECE,
};

verus! {

/// Every bit of `a` is a bit of `b`.
pub open spec fn within(a: u64, b: u64) -> bool {
    a & !b == 0
}

/// All bits of a value of `size` bytes.
pub open spec fn all_bits(size: u32) -> u64 {
    if size == 0 {
        0
    } else if size >= 8 {
        u64::MAX
    } else {
        ((1u64 << ((size * 8) as u64)) - 1) as u64
    }
}

/// Every bit at or below the highest set bit of `m`: the smallest
/// contiguous low mask covering `m`.
pub open spec fn smear(m: u64) -> u64 {
    let a = m | (m >> 1u64);
    let b = a | (a >> 2u64);
    let c = b | (b >> 4u64);
    let d = c | (c >> 8u64);
    let e = d | (d >> 16u64);
    e | (e >> 32u64)
}

/// All bits of a value of the given byte size.
fn calc_mask(size: u32) -> (r: u64)
    ensures
        r == all_bits(size),
{
    if size == 0 {
        0
    } else if size >= 8 {
        u64::MAX
    } else {
        let shift: u64 = (size * 8) as u64;
        assert(1u64 << shift >= 1) by (bit_vector)
            requires
                shift < 64,
        ;
        (1u64 << shift) - 1
    }
}

/// The smallest contiguous low mask covering every set bit. Addition and
/// subtraction carry upward, so consuming any bit of the result consumes
/// every operand bit at or below it.
fn covering_mask(mask: u64) -> (r: u64)
    ensures
        r == smear(mask),
{
    let a = mask | (mask >> 1u64);
    let b = a | (a >> 2u64);
    let c = b | (b >> 4u64);
    let d = c | (c >> 8u64);
    let e = d | (d >> 16u64);
    e | (e >> 32u64)
}

proof fn lemma_smear_monotone(a: u64, b: u64)
    requires
        within(a, b),
    ensures
        within(smear(a), smear(b)),
{
    assert((a & !b == 0) ==> ((a | (a >> 1u64) | ((a | (a >> 1u64)) >> 2u64)) & !(b | (b >> 1u64) | ((b | (b >> 1u64)) >> 2u64))
        == 0)) by (bit_vector);
    let a2 = (a | (a >> 1u64)) | ((a | (a >> 1u64)) >> 2u64);
    let b2 = (b | (b >> 1u64)) | ((b | (b >> 1u64)) >> 2u64);
    assert((a2 & !b2 == 0) ==> ((a2 | (a2 >> 4u64) | ((a2 | (a2 >> 4u64)) >> 8u64)) & !(b2 | (b2 >> 4u64) | ((b2 | (b2 >> 4u64))
        >> 8u64)) == 0)) by (bit_vector);
    let a4 = (a2 | (a2 >> 4u64)) | ((a2 | (a2 >> 4u64)) >> 8u64);
    let b4 = (b2 | (b2 >> 4u64)) | ((b2 | (b2 >> 4u64)) >> 8u64);
    assert((a4 & !b4 == 0) ==> ((a4 | (a4 >> 16u64) | ((a4 | (a4 >> 16u64)) >> 32u64)) & !(b4 | (b4 >> 16u64) | ((b4 | (b4
        >> 16u64)) >> 32u64)) == 0)) by (bit_vector);
}

/// A value's own bits are among those its covering mask consumes.
pub proof fn lemma_smear_covers(m: u64)
    ensures
        within(m, smear(m)),
{
    let a = m | (m >> 1u64);
    assert((m & !(m | (m >> 1u64))) == 0) by (bit_vector);
    let b = a | (a >> 2u64);
    let c = b | (b >> 4u64);
    let d = c | (c >> 8u64);
    let e = d | (d >> 16u64);
    assert(forall|x: u64, y: u64, z: u64| (x & !y == 0) && (y & !(y | z) == 0) ==> #[trigger] (x & !(y | z)) == 0)
        by (bit_vector);
    assert((a & !(a | (a >> 2u64))) == 0) by (bit_vector);
    assert((b & !(b | (b >> 4u64))) == 0) by (bit_vector);
    assert((c & !(c | (c >> 8u64))) == 0) by (bit_vector);
    assert((d & !(d | (d >> 16u64))) == 0) by (bit_vector);
    assert((e & !(e | (e >> 32u64))) == 0) by (bit_vector);
}

proof fn lemma_within_facts(a: u64, b: u64, c: u64)
    ensures
        within(a, b) && within(b, c) ==> within(a, c),
        within(a, a | b),
        within(b, a | b),
        within(a, c) && within(b, c) ==> within(a | b, c),
        within(a, u64::MAX),
        within(0, a),
        within(a, b) && a != 0 ==> b != 0,
        (b & !a != 0) ==> (a | b) > a,
        (b & !a == 0) ==> (a | b) == a,
        within(a, b) ==> within(a & c, b & c),
        within(a, b) ==> within(a & c, b),
        within(a, a),
{
    assert(within(a, a)) by (bit_vector);
    assert(within(a, b) && within(b, c) ==> within(a, c)) by (bit_vector);
    assert(within(a, a | b)) by (bit_vector);
    assert(within(b, a | b)) by (bit_vector);
    assert(within(a, c) && within(b, c) ==> within(a | b, c)) by (bit_vector);
    assert(within(a, u64::MAX)) by (bit_vector);
    assert(within(0, a)) by (bit_vector);
    assert(within(a, b) && a != 0 ==> b != 0) by (bit_vector);
    assert((b & !a != 0) ==> (a | b) > a) by (bit_vector);
    assert((b & !a == 0) ==> (a | b) == a) by (bit_vector);
    assert(within(a, b) ==> within(a & c, b & c)) by (bit_vector);
    assert(within(a, b) ==> within(a & c, b)) by (bit_vector);
}

proof fn lemma_shift_monotone(a: u64, b: u64, s: u64)
    requires
        within(a, b),
        s < 64,
    ensures
        within(a >> s, b >> s),
        within(a << s, b << s),
{
    assert(within(a, b) && s < 64 ==> within(a >> s, b >> s)) by (bit_vector);
    assert(within(a, b) && s < 64 ==> within(a << s, b << s)) by (bit_vector);
}

/// The mask a sign extension reads of its operand when `out` of the result
/// is consumed: the consumed low bits, and the sign bit as soon as any
/// extension bit is consumed.
pub open spec fn sext_mask(out: u64, source: u64) -> u64 {
    if out > source {
        (out & source) | (source ^ (source >> 1u64))
    } else {
        out & source
    }
}

proof fn lemma_sext_monotone(a: u64, b: u64, source: u64)
    requires
        within(a, b),
    ensures
        within(sext_mask(a, source), sext_mask(b, source)),
{
    assert(within(a, b) ==> within(sext_mask(a, source), sext_mask(b, source))) by (bit_vector);
}

/// The two masks a `PIECE` reads of its high and low operands when `out` of
/// the result is consumed; `low` is the low operand's size in bytes.
pub open spec fn piece_high(out: u64, low: u32) -> u64 {
    if low >= 8 {
        0
    } else {
        out >> ((low * 8) as u64)
    }
}

pub open spec fn piece_low(out: u64, low: u32) -> u64 {
    let shift: u64 = if low >= 8 { 56 } else { (low * 8) as u64 };
    out ^ (piece_high(out, low) << shift)
}

proof fn lemma_piece_monotone(a: u64, b: u64, low: u32)
    requires
        within(a, b),
    ensures
        within(piece_high(a, low), piece_high(b, low)),
        within(piece_low(a, low), piece_low(b, low)),
{
    if low >= 8 {
        lemma_within_facts(0, 0, 0);
        assert(piece_low(a, low) == a ^ (0u64 << 56u64));
        assert(a ^ (0u64 << 56u64) == a) by (bit_vector);
        assert(b ^ (0u64 << 56u64) == b) by (bit_vector);
    } else {
        let s: u64 = (low * 8) as u64;
        lemma_shift_monotone(a, b, s);
        assert(within(a, b) && s < 64 ==> within(a ^ ((a >> s) << s), b ^ ((b >> s) << s))) by (bit_vector);
    }
}

/// Whether an operation's inputs are consumed in full because the program's
/// observable behaviour depends on them.
pub open spec fn is_sink(opcode: i32) -> bool {
    opcode == STORE || opcode == RETURN || opcode == BRANCH || opcode == CBRANCH || opcode == BRANCHIND || opcode == CALL
        || opcode == CALLIND || opcode == CALLOTHER
}

/// The shift amount a constant second operand gives, if there is one.
pub open spec fn constant_shift(d: &Funcdata, o: GraphOp) -> Option<u64> {
    if o.inputs@.len() > 1 && d.vn(o.inputs@[1]).flags.constant {
        Some(d.vn(o.inputs@[1]).offset)
    } else {
        None
    }
}

/// The bits of operand `slot` that operation `o` consumes when the bits
/// `out` of its result are consumed.
pub open spec fn sent(d: &Funcdata, o: GraphOp, out: u64, slot: int) -> u64 {
    let len = o.inputs@.len();
    let opc = o.opcode;
    if !(0 <= slot < len) {
        0
    } else if opc == INT_ADD || opc == INT_SUB || opc == PTRADD || opc == PTRSUB || opc == INT_MULT {
        if slot < 2 { smear(out) } else { 0 }
    } else if opc == COPY || opc == INT_NEGATE || opc == INT_ZEXT || opc == CAST {
        if slot == 0 { out } else { 0 }
    } else if opc == INT_XOR || opc == INT_OR {
        if slot < 2 { out } else { 0 }
    } else if opc == INT_AND {
        if slot == 0 {
            if len > 1 && d.vn(o.inputs@[1]).flags.constant { out & d.vn(o.inputs@[1]).offset } else { out }
        } else if slot == 1 {
            out
        } else {
            0
        }
    } else if opc == INT_SEXT {
        if slot == 0 { sext_mask(out, all_bits(d.vn(o.inputs@[0]).size)) } else { 0 }
    } else if opc == SUBPIECE {
        let shift: u64 = if len > 1 { d.vn(o.inputs@[1]).offset } else { 0 };
        if slot == 0 {
            if shift >= 8 { 0 } else { out << ((shift * 8) as u64) }
        } else if slot == 1 {
            if out == 0 { 0 } else { u64::MAX }
        } else {
            0
        }
    } else if opc == PIECE {
        let low: u32 = if len > 1 { d.vn(o.inputs@[1]).size } else { 0 };
        if slot == 0 {
            piece_high(out, low)
        } else if slot == 1 {
            piece_low(out, low)
        } else {
            0
        }
    } else if opc == INT_LEFT || opc == INT_RIGHT {
        if slot == 0 {
            match constant_shift(d, o) {
                Some(s) => if s < 64 {
                    if opc == INT_LEFT { out >> s } else { out << s }
                } else {
                    0
                },
                None => u64::MAX,
            }
        } else if slot == 1 {
            u64::MAX
        } else {
            0
        }
    } else if opc == MULTIEQUAL {
        out
    } else if opc == INDIRECT {
        if slot == 0 { out } else { 0 }
    } else {
        all_bits(d.vn(o.inputs@[slot]).size)
    }
}

proof fn lemma_agreement(x: u64, y: u64, z: u64, out: u64, s: u64)
    by (bit_vector)
    requires
        s < 64,
    ensures
        (x ^ y) & (out << s) == 0 ==> ((x >> s) ^ (y >> s)) & out == 0,
        (x ^ y) & (out >> s) == 0 ==> ((x << s) ^ (y << s)) & out == 0,
        (x ^ y) & out == 0 ==> ((x ^ z) ^ (y ^ z)) & out == 0,
        (x ^ y) & out == 0 ==> ((x | z) ^ (y | z)) & out == 0,
        (x ^ y) & out == 0 ==> ((x & z) ^ (y & z)) & out == 0,
        (x ^ y) & out == 0 ==> (!x ^ !y) & out == 0,
        (x ^ y) & (out & z) == 0 ==> ((x & z) ^ (y & z)) & out == 0,
{
}

/// A shift by a constant below 64 asks of its shifted operand every bit that
/// reaches a consumed bit of the result: two operand values `x` and `y` that
/// agree on the bits `sent` names give results that agree on every consumed
/// bit `out`, and the bits sent are exactly the consumed bits moved back
/// across the shift (up for a right shift, down for a left shift).
pub proof fn lemma_shift_sent_sound(d: &Funcdata, o: GraphOp, out: u64, x: u64, y: u64)
    requires
        o.opcode == INT_LEFT || o.opcode == INT_RIGHT,
        constant_shift(d, o) matches Some(s) && s < 64,
        (x ^ y) & sent(d, o, out, 0) == 0,
    ensures
        o.opcode == INT_RIGHT ==> ((x >> constant_shift(d, o).unwrap()) ^ (y >> constant_shift(d, o).unwrap())) & out
            == 0,
        o.opcode == INT_LEFT ==> ((x << constant_shift(d, o).unwrap()) ^ (y << constant_shift(d, o).unwrap())) & out
            == 0,
        o.opcode == INT_RIGHT ==> sent(d, o, out, 0) == out << constant_shift(d, o).unwrap(),
        o.opcode == INT_LEFT ==> sent(d, o, out, 0) == out >> constant_shift(d, o).unwrap(),
{
    lemma_agreement(x, y, 0, out, constant_shift(d, o).unwrap());
}

/// For the operations whose result bits are copies or bitwise functions of
/// the matching bits of their first operand, two values `x` and `y` of that
/// operand which agree on the bits `sent` names give results that agree on
/// every consumed bit `out`, whatever the second operand `z` holds (for a
/// masking `AND`, `z` is its constant); a truncation reads its operand from
/// the byte it starts at.
pub proof fn lemma_sent_sound(d: &Funcdata, o: GraphOp, out: u64, x: u64, y: u64, z: u64)
    requires
        o.inputs@.len() > 0,
        (x ^ y) & sent(d, o, out, 0) == 0,
    ensures
        o.opcode == COPY || o.opcode == INT_ZEXT || o.opcode == CAST ==> (x ^ y) & out == 0,
        o.opcode == INT_NEGATE ==> (fold_constant(o.opcode, x, z).unwrap() ^ fold_constant(o.opcode, y, z).unwrap())
            & out == 0,
        o.opcode == INT_XOR || o.opcode == INT_OR ==> (fold_constant(o.opcode, x, z).unwrap() ^ fold_constant(
            o.opcode,
            y,
            z,
        ).unwrap()) & out == 0,
        o.opcode == INT_AND && (o.inputs@.len() > 1 && d.vn(o.inputs@[1]).flags.constant ==> z == d.vn(
            o.inputs@[1],
        ).offset) ==> (fold_constant(o.opcode, x, z).unwrap() ^ fold_constant(o.opcode, y, z).unwrap()) & out == 0,
        o.opcode == SUBPIECE && o.inputs@.len() > 1 && d.vn(o.inputs@[1]).offset < 8 ==> ({
            let s: u64 = (d.vn(o.inputs@[1]).offset * 8) as u64;
            ((x >> s) ^ (y >> s)) & out == 0
        }),
{
    if o.opcode == SUBPIECE && o.inputs@.len() > 1 && d.vn(o.inputs@[1]).offset < 8 {
        lemma_agreement(x, y, z, out, (d.vn(o.inputs@[1]).offset * 8) as u64);
    } else {
        lemma_agreement(x, y, z, out, 0);
    }
}

/// Consuming more of a result never consumes less of an operand.
pub proof fn lemma_sent_monotone(d: &Funcdata, o: GraphOp, a: u64, b: u64, slot: int)
    requires
        within(a, b),
        a != 0,
    ensures
        within(sent(d, o, a, slot), sent(d, o, b, slot)),
{
    lemma_within_facts(a, b, 0);
    lemma_within_facts(0, 0, 0);
    lemma_within_facts(u64::MAX, u64::MAX, 0);
    let len = o.inputs@.len();
    let opc = o.opcode;
    if 0 <= slot < len {
        if opc == INT_ADD || opc == INT_SUB || opc == PTRADD || opc == PTRSUB || opc == INT_MULT {
            lemma_smear_monotone(a, b);
        } else if opc == INT_AND {
            if len > 1 {
                lemma_within_facts(a, b, d.vn(o.inputs@[1]).offset);
            }
        } else if opc == INT_SEXT {
            lemma_sext_monotone(a, b, all_bits(d.vn(o.inputs@[0]).size));
        } else if opc == SUBPIECE {
            let shift: u64 = if len > 1 { d.vn(o.inputs@[1]).offset } else { 0 };
            if shift < 8 {
                lemma_shift_monotone(a, b, (shift * 8) as u64);
            }
        } else if opc == PIECE {
            let low: u32 = if len > 1 { d.vn(o.inputs@[1]).size } else { 0 };
            lemma_piece_monotone(a, b, low);
        } else if opc == INT_LEFT || opc == INT_RIGHT {
            if let Some(s) = constant_shift(d, o) {
                if s < 64 {
                    lemma_shift_monotone(a, b, s);
                }
            }
        } else {
            lemma_within_facts(all_bits(d.vn(o.inputs@[slot]).size), all_bits(d.vn(o.inputs@[slot]).size), 0);
        }
    }
}

/// The bits of operand `slot` of `operation` consumed when bits `out` of its
/// result are consumed.
fn sent_mask(data: &Funcdata, operation: &GraphOp, out: u64, slot: usize) -> (r: u64)
    requires
        vns_below(operation.inputs@, data.vns().len() as int),
    ensures
        r == sent(data, *operation, out, slot as int),
{
    let len = operation.inputs.len();
    let opc = operation.opcode;
    if slot >= len {
        return 0;
    }
    proof {
        assert(operation.inputs@[slot as int].0 < data.vns().len());
        if len > 1 {
            assert(operation.inputs@[1].0 < data.vns().len());
        }
        assert(operation.inputs@[0].0 < data.vns().len());
    }
    if opc == INT_ADD || opc == INT_SUB || opc == PTRADD || opc == PTRSUB || opc == INT_MULT {
        if slot < 2 { covering_mask(out) } else { 0 }
    } else if opc == COPY || opc == INT_NEGATE || opc == INT_ZEXT || opc == CAST {
        if slot == 0 { out } else { 0 }
    } else if opc == INT_XOR || opc == INT_OR {
        if slot < 2 { out } else { 0 }
    } else if opc == INT_AND {
        if slot == 0 {
            if len > 1 && data.varnode(operation.inputs[1]).flags.constant {
                out & data.varnode(operation.inputs[1]).offset
            } else {
                out
            }
        } else if slot == 1 {
            out
        } else {
            0
        }
    } else if opc == INT_SEXT {
        if slot == 0 {
            let source = calc_mask(data.varnode(operation.inputs[0]).size);
            let mut mask = out & source;
            if out > source {
                mask = mask | (source ^ (source >> 1u64));
            }
            mask
        } else {
            0
        }
    } else if opc == SUBPIECE {
        let shift: u64 = if len > 1 { data.varnode(operation.inputs[1]).offset } else { 0 };
        if slot == 0 {
            if shift >= 8 { 0 } else { out << (shift * 8) }
        } else if slot == 1 {
            if out == 0 { 0 } else { u64::MAX }
        } else {
            0
        }
    } else if opc == PIECE {
        let low: u32 = if len > 1 { data.varnode(operation.inputs[1]).size } else { 0 };
        let high_mask: u64 = if low >= 8 { 0 } else { out >> ((low * 8) as u64) };
        let shift: u64 = if low >= 8 { 56 } else { (low * 8) as u64 };
        if slot == 0 {
            high_mask
        } else if slot == 1 {
            out ^ (high_mask << shift)
        } else {
            0
        }
    } else if opc == INT_LEFT || opc == INT_RIGHT {
        if slot == 0 {
            if len > 1 && data.varnode(operation.inputs[1]).flags.constant {
                let s = data.varnode(operation.inputs[1]).offset;
                if s < 64 {
                    if opc == INT_LEFT { out >> s } else { out << s }
                } else {
                    0
                }
            } else {
                u64::MAX
            }
        } else if slot == 1 {
            u64::MAX
        } else {
            0
        }
    } else if opc == MULTIEQUAL {
        out
    } else if opc == INDIRECT {
        if slot == 0 { out } else { 0 }
    } else {
        calc_mask(data.varnode(operation.inputs[slot]).size)
    }
}

/// Every mask in `r` is within the matching mask of `s`.
pub open spec fn below_all(r: Seq<u64>, s: Seq<u64>) -> bool {
    &&& r.len() == s.len()
    &&& forall|k: int| 0 <= k < r.len() ==> within(#[trigger] r[k], s[k])
}

/// A sink consumes every bit of each of its operands.
pub open spec fn sink_met(d: &Funcdata, r: Seq<u64>, o: OpId) -> bool {
    forall|k: int|
        0 <= k < d.opn(o).inputs@.len() ==> within(
            all_bits(d.vn(#[trigger] d.opn(o).inputs@[k]).size),
            r[d.opn(o).inputs@[k].0 as int],
        )
}

/// The operation defining `v` consumes of its operands what the consumed
/// bits of `v` demand.
pub open spec fn obligation_met(d: &Funcdata, r: Seq<u64>, v: VarnodeId) -> bool {
    match d.vn(v).def {
        Some(o) => forall|k: int|
            0 <= k < d.opn(o).inputs@.len() ==> within(
                sent(d, d.opn(o), r[v.0 as int], k),
                r[(#[trigger] d.opn(o).inputs@[k]).0 as int],
            ),
        None => true,
    }
}

/// `r` assigns each value a consumed mask closed under the consumption
/// rules: sinks consume their operands, and a consumed result consumes its
/// operands in turn.
pub open spec fn consumption_closed(d: &Funcdata, r: Seq<u64>) -> bool {
    &&& r.len() == d.vns().len()
    &&& forall|o: OpId| d.valid_op(o) && !d.opn(o).dead && is_sink(d.opn(o).opcode) ==> #[trigger] sink_met(d, r, o)
    &&& forall|v: VarnodeId| d.valid_vn(v) && r[v.0 as int] != 0 ==> #[trigger] obligation_met(d, r, v)
}

/// `r` is the least closed assignment: exactly the bits something
/// observable depends on.
pub open spec fn least_consumption(d: &Funcdata, r: Seq<u64>) -> bool {
    &&& consumption_closed(d, r)
    &&& forall|s: Seq<u64>| #[trigger] consumption_closed(d, s) ==> below_all(r, s)
}

/// How far `r` is from having every bit set: each step of the search sets
/// at least one more bit.
pub open spec fn potential(r: Seq<u64>, n: int) -> int
    decreases n,
{
    if n <= 0 {
        0
    } else {
        potential(r, n - 1) + (u64::MAX - r[n - 1])
    }
}

proof fn lemma_potential_nonneg(r: Seq<u64>, n: int)
    requires
        0 <= n <= r.len(),
    ensures
        potential(r, n) >= 0,
    decreases n,
{
    if n > 0 {
        lemma_potential_nonneg(r, n - 1);
    }
}

proof fn lemma_potential_update(r: Seq<u64>, i: int, x: u64, n: int)
    requires
        0 <= i < r.len(),
        0 <= n <= r.len(),
    ensures
        potential(r.update(i, x), n) == potential(r, n) - (if i < n { x - r[i] } else { 0 }),
    decreases n,
{
    if n > 0 {
        lemma_potential_update(r, i, x, n - 1);
    }
}

/// Live operations are exactly the ones `live_op_ids` lists.
proof fn lemma_live_op_ids_contains(d: &Funcdata, n: int, o: OpId)
    requires
        0 <= n <= d.opv().len(),
        d.opv().len() <= u32::MAX,
    ensures
        live_op_ids(d.opv(), n).contains(o) <== ((o.0 as int) < n && !d.opn(o).dead),
    decreases n,
{
    if n > 0 {
        lemma_live_op_ids_contains(d, n - 1, o);
        let prev = live_op_ids(d.opv(), n - 1);
        if (o.0 as int) < n - 1 && !d.opn(o).dead {
            let k = choose|k: int| 0 <= k < prev.len() && prev[k] == o;
            if !d.opv()[n - 1].dead {
                assert(live_op_ids(d.opv(), n)[k] == o);
            }
        } else if o.0 as int == n - 1 && !d.opn(o).dead {
            assert(o == OpId((n - 1) as u32));
            assert(live_op_ids(d.opv(), n)[prev.len() as int] == o);
        }
    }
}

/// Every operation `live_op_ids` lists is live.
proof fn lemma_live_op_ids_live(d: &Funcdata, n: int)
    requires
        0 <= n <= d.opv().len(),
        d.opv().len() <= u32::MAX,
    ensures
        forall|k: int| 0 <= k < live_op_ids(d.opv(), n).len() ==> !d.opn(#[trigger] live_op_ids(d.opv(), n)[k]).dead,
    decreases n,
{
    if n > 0 {
        lemma_live_op_ids_live(d, n - 1);
        let prev = live_op_ids(d.opv(), n - 1);
        assert forall|k: int| 0 <= k < live_op_ids(d.opv(), n).len() implies !d.opn(#[trigger] live_op_ids(d.opv(), n)[k]).dead by {
            if k < prev.len() {
                assert(live_op_ids(d.opv(), n)[k] == prev[k]);
            } else {
                assert(live_op_ids(d.opv(), n)[k] == OpId((n - 1) as u32));
            }
        }
    }
}

/// Growing masks never undo a met obligation of a value whose own mask
/// stayed the same.
proof fn lemma_growth_keeps_obligation(d: &Funcdata, r: Seq<u64>, s: Seq<u64>, v: VarnodeId)
    requires
        d.wf(),
        d.valid_vn(v),
        below_all(r, s),
        r.len() == d.vns().len(),
        s[v.0 as int] == r[v.0 as int],
        obligation_met(d, r, v),
    ensures
        obligation_met(d, s, v),
{
    if let Some(o) = d.vn(v).def {
        assert(d.vn_wf(v));
        assert(d.op_wf(o));
        assert forall|k: int| 0 <= k < d.opn(o).inputs@.len() implies within(
            sent(d, d.opn(o), s[v.0 as int], k),
            s[(#[trigger] d.opn(o).inputs@[k]).0 as int],
        ) by {
            let w = d.opn(o).inputs@[k];
            assert(w.0 < d.vns().len());
            lemma_within_facts(sent(d, d.opn(o), r[v.0 as int], k), r[w.0 as int], s[w.0 as int]);
        }
    }
}

proof fn lemma_growth_keeps_sink(d: &Funcdata, r: Seq<u64>, s: Seq<u64>, o: OpId)
    requires
        d.wf(),
        d.valid_op(o),
        below_all(r, s),
        r.len() == d.vns().len(),
        sink_met(d, r, o),
    ensures
        sink_met(d, s, o),
{
    assert(d.op_wf(o));
    assert forall|k: int| 0 <= k < d.opn(o).inputs@.len() implies within(
        all_bits(d.vn(#[trigger] d.opn(o).inputs@[k]).size),
        s[d.opn(o).inputs@[k].0 as int],
    ) by {
        let w = d.opn(o).inputs@[k];
        assert(w.0 < d.vns().len());
        lemma_within_facts(all_bits(d.vn(w).size), r[w.0 as int], s[w.0 as int]);
    }
}

/// Adds `mask` to the consumed bits of `value`, and queues the value when
/// it gained a bit and has a definition to pass the demand on to.
fn push_consumed(data: &Funcdata, consumed: &mut Vec<u64>, worklist: &mut Vec<VarnodeId>, value: VarnodeId, mask: u64)
    requires
        data.valid_vn(value),
        old(consumed)@.len() == data.vns().len(),
    ensures
        final(consumed)@ == old(consumed)@.update(value.0 as int, old(consumed)@[value.0 as int] | mask),
        final(worklist)@ == (if (mask & !old(consumed)@[value.0 as int]) != 0 && data.vn(value).def is Some {
            old(worklist)@.push(value)
        } else {
            old(worklist)@
        }),
{
    let index = value.0 as usize;
    let entry = consumed[index];
    if mask & !entry == 0 {
        proof {
            lemma_within_facts(entry, mask, 0);
            assert(old(consumed)@.update(value.0 as int, entry | mask) =~= old(consumed)@);
        }
        return;
    }
    consumed.set(index, entry | mask);
    if data.varnode(value).def.is_some() {
        worklist.push(value);
    }
}

/// One addition of demand keeps the least-ness of the masks, when every
/// closed assignment already demands what is added.
proof fn lemma_push_keeps_least(d: &Funcdata, r: Seq<u64>, v: VarnodeId, mask: u64)
    requires
        d.valid_vn(v),
        r.len() == d.vns().len(),
        forall|s: Seq<u64>| #[trigger] consumption_closed(d, s) ==> below_all(r, s),
        forall|s: Seq<u64>| #[trigger] consumption_closed(d, s) ==> within(mask, s[v.0 as int]),
    ensures
        forall|s: Seq<u64>|
            #[trigger] consumption_closed(d, s) ==> below_all(r.update(v.0 as int, r[v.0 as int] | mask), s),
{
    assert forall|s: Seq<u64>| #[trigger] consumption_closed(d, s) implies below_all(r.update(v.0 as int, r[v.0 as int] | mask), s) by {
        let t = r.update(v.0 as int, r[v.0 as int] | mask);
        assert(below_all(r, s));
        assert forall|k: int| 0 <= k < t.len() implies within(#[trigger] t[k], s[k]) by {
            if k == v.0 as int {
                lemma_within_facts(r[k], mask, s[k]);
            } else {
                assert(within(r[k], s[k]));
            }
        }
    }
}

/// The consumed-bit mask of every value, propagated backwards from the
/// operations whose inputs the program's behaviour depends on. Entry `i`
/// belongs to the value with identifier `i`.
pub fn propagate(data: &Funcdata) -> (consumed: Vec<u64>)
    requires
        data.wf(),
    ensures
        least_consumption(data, consumed@),
{
    let n = data.varnode_count();
    let mut consumed: Vec<u64> = Vec::new();
    let mut fill: usize = 0;
    while fill < n
        invariant
            n == data.vns().len(),
            fill <= n,
            consumed@.len() == fill,
            forall|k: int| 0 <= k < fill ==> consumed@[k] == 0,
        decreases n - fill,
    {
        consumed.push(0);
        fill += 1;
    }
    let mut worklist: Vec<VarnodeId> = Vec::new();
    proof {
        assert forall|s: Seq<u64>| #[trigger] consumption_closed(data, s) implies below_all(consumed@, s) by {
            assert forall|k: int| 0 <= k < consumed@.len() implies within(#[trigger] consumed@[k], s[k]) by {
                lemma_within_facts(s[k], 0, 0);
            }
        }
    }
    let live = data.live_ops();
    proof {
        lemma_live_op_ids_below(data.opv(), data.opv().len() as int);
        lemma_live_op_ids_live(data, data.opv().len() as int);
    }
    let mut i: usize = 0;
    while i < live.len()
        invariant
            data.wf(),
            n == data.vns().len(),
            live@ == live_op_ids(data.opv(), data.opv().len() as int),
            ops_below(live@, data.opv().len() as int),
            forall|k: int| 0 <= k < live@.len() ==> !data.opn(#[trigger] live@[k]).dead,
            i <= live@.len(),
            consumed@.len() == n,
            vns_below(worklist@, n as int),
            forall|k: int| 0 <= k < worklist@.len() ==> consumed@[(#[trigger] worklist@[k]).0 as int] != 0,
            forall|v: VarnodeId| data.valid_vn(v) && consumed@[v.0 as int] != 0 ==> #[trigger] worklist@.contains(v) || obligation_met(data, consumed@, v),
            forall|k: int| 0 <= k < i && is_sink(data.opn(live@[k]).opcode) ==> #[trigger] sink_met(data, consumed@, live@[k]),
            forall|s: Seq<u64>| #[trigger] consumption_closed(data, s) ==> below_all(consumed@, s),
        decreases live@.len() - i,
    {
        let id = live[i];
        proof {
            assert(live@[i as int].0 < data.opv().len());
            assert(data.op_wf(id));
        }
        let operation = data.op(id);
        let opc = operation.opcode;
        if opc == STORE || opc == RETURN || opc == BRANCH || opc == CBRANCH || opc == BRANCHIND || opc == CALL || opc == CALLIND
            || opc == CALLOTHER {
            let ghost start = consumed@;
            proof {
                assert forall|k: int| 0 <= k < start.len() implies within(#[trigger] start[k], consumed@[k]) by {
                    lemma_within_facts(start[k], 0, 0);
                }
            }
            let mut j: usize = 0;
            while j < operation.inputs.len()
                invariant
                    data.wf(),
                    n == data.vns().len(),
                    data.valid_op(id),
                    *operation == data.opn(id),
                    !data.opn(id).dead,
                    is_sink(data.opn(id).opcode),
                    vns_below(operation.inputs@, n as int),
                    j <= operation.inputs@.len(),
                    consumed@.len() == n,
                    below_all(start, consumed@),
                    vns_below(worklist@, n as int),
                    forall|k: int| 0 <= k < worklist@.len() ==> consumed@[(#[trigger] worklist@[k]).0 as int] != 0,
                    forall|v: VarnodeId|
                        data.valid_vn(v) && consumed@[v.0 as int] != 0 ==> #[trigger] worklist@.contains(v) || obligation_met(
                            data,
                            consumed@,
                            v,
                        ),
                    forall|k: int|
                        0 <= k < j ==> within(
                            all_bits(data.vn(#[trigger] operation.inputs@[k]).size),
                            consumed@[operation.inputs@[k].0 as int],
                        ),
                    forall|s: Seq<u64>| #[trigger] consumption_closed(data, s) ==> below_all(consumed@, s),
                decreases operation.inputs@.len() - j,
            {
                let input = operation.inputs[j];
                proof {
                    assert(operation.inputs@[j as int].0 < n);
                }
                let mask = calc_mask(data.varnode(input).size);
                let ghost before = consumed@;
                let ghost wl = worklist@;
                proof {
                    assert forall|s: Seq<u64>| #[trigger] consumption_closed(data, s) implies within(mask, s[input.0 as int]) by {
                        assert(sink_met(data, s, id));
                        assert(operation.inputs@[j as int] == input);
                    }
                    lemma_push_keeps_least(data, before, input, mask);
                }
                push_consumed(data, &mut consumed, &mut worklist, input, mask);
                proof {
                    lemma_within_facts(before[input.0 as int], mask, 0);
                    assert(below_all(before, consumed@)) by {
                        assert forall|k: int| 0 <= k < before.len() implies within(#[trigger] before[k], consumed@[k]) by {
                            lemma_within_facts(before[k], before[k], 0);
                        }
                    }
                    assert(below_all(start, consumed@)) by {
                        assert forall|k: int| 0 <= k < start.len() implies within(#[trigger] start[k], consumed@[k]) by {
                            lemma_within_facts(start[k], before[k], consumed@[k]);
                        }
                    }
                    assert forall|k: int| 0 <= k < worklist@.len() implies consumed@[(#[trigger] worklist@[k]).0 as int] != 0 by {
                        if k < wl.len() {
                            assert(worklist@[k] == wl[k]);
                            lemma_within_facts(before[wl[k].0 as int], consumed@[wl[k].0 as int], 0);
                        }
                    }
                    assert forall|v: VarnodeId|
                        data.valid_vn(v) && consumed@[v.0 as int] != 0 implies #[trigger] worklist@.contains(v) || obligation_met(
                            data,
                            consumed@,
                            v,
                        ) by {
                        if v == input {
                            if consumed@[v.0 as int] != before[v.0 as int] {
                                if data.vn(v).def is Some {
                                    assert(worklist@[worklist@.len() - 1] == v);
                                }
                            } else if before[v.0 as int] != 0 {
                                if wl.contains(v) {
                                    let k = choose|k: int| 0 <= k < wl.len() && wl[k] == v;
                                    assert(worklist@[k] == v);
                                } else {
                                    lemma_growth_keeps_obligation(data, before, consumed@, v);
                                }
                            }
                        } else {
                            assert(consumed@[v.0 as int] == before[v.0 as int]);
                            if wl.contains(v) {
                                let k = choose|k: int| 0 <= k < wl.len() && wl[k] == v;
                                assert(worklist@[k] == v);
                            } else {
                                lemma_growth_keeps_obligation(data, before, consumed@, v);
                            }
                        }
                    }
                    assert forall|k: int|
                        0 <= k < j + 1 implies within(
                            all_bits(data.vn(#[trigger] operation.inputs@[k]).size),
                            consumed@[operation.inputs@[k].0 as int],
                        ) by {
                        let w = operation.inputs@[k];
                        assert(w.0 < n);
                        if k < j {
                            lemma_within_facts(all_bits(data.vn(w).size), before[w.0 as int], consumed@[w.0 as int]);
                        } else {
                            lemma_within_facts(before[w.0 as int], mask, 0);
                        }
                    }
                    assert(vns_below(worklist@, n as int)) by {
                        assert forall|k: int| 0 <= k < worklist@.len() implies (#[trigger] worklist@[k]).0 < n by {
                            if k < wl.len() {
                                assert(worklist@[k] == wl[k]);
                            }
                        }
                    }
                }
                j += 1;
            }
            proof {
                assert(sink_met(data, consumed@, id));
                assert forall|k: int| 0 <= k < i && is_sink(data.opn(live@[k]).opcode) implies #[trigger] sink_met(
                    data,
                    consumed@,
                    live@[k],
                ) by {
                    assert(live@[k].0 < data.opv().len());
                    lemma_growth_keeps_sink(data, start, consumed@, live@[k]);
                }
            }
        }
        i += 1;
    }
    proof {
        assert forall|o: OpId| data.valid_op(o) && !data.opn(o).dead && is_sink(data.opn(o).opcode) implies #[trigger] sink_met(
            data,
            consumed@,
            o,
        ) by {
            lemma_live_op_ids_contains(data, data.opv().len() as int, o);
            let k = choose|k: int| 0 <= k < live@.len() && live@[k] == o;
            assert(sink_met(data, consumed@, live@[k]));
        }
    }
    proof {
        lemma_potential_nonneg(consumed@, n as int);
    }
    while worklist.len() > 0
        invariant
            data.wf(),
            n == data.vns().len(),
            consumed@.len() == n,
            potential(consumed@, n as int) >= 0,
            vns_below(worklist@, n as int),
            forall|k: int| 0 <= k < worklist@.len() ==> consumed@[(#[trigger] worklist@[k]).0 as int] != 0,
            forall|v: VarnodeId| data.valid_vn(v) && consumed@[v.0 as int] != 0 ==> #[trigger] worklist@.contains(v) || obligation_met(data, consumed@, v),
            forall|o: OpId| data.valid_op(o) && !data.opn(o).dead && is_sink(data.opn(o).opcode) ==> #[trigger] sink_met(data, consumed@, o),
            forall|s: Seq<u64>| #[trigger] consumption_closed(data, s) ==> below_all(consumed@, s),
        decreases potential(consumed@, n as int), worklist@.len(),
    {
        let ghost wl_full = worklist@;
        let value = worklist.pop().unwrap();
        let ghost popped = worklist@;
        let ghost c0 = consumed@;
        proof {
            assert(wl_full == popped.push(value));
            assert(wl_full[wl_full.len() - 1] == value);
            assert(value.0 < n);
        }
        let out = consumed[value.0 as usize];
        let def = data.varnode(value).def;
        match def {
            None => {
                proof {
                    assert forall|v: VarnodeId| data.valid_vn(v) && consumed@[v.0 as int] != 0 implies #[trigger] worklist@.contains(v)
                        || obligation_met(data, consumed@, v) by {
                        if v != value && wl_full.contains(v) {
                            let k = choose|k: int| 0 <= k < wl_full.len() && wl_full[k] == v;
                            assert(k < popped.len());
                            assert(worklist@[k] == v);
                        }
                    }
                    assert forall|k: int| 0 <= k < worklist@.len() implies consumed@[(#[trigger] worklist@[k]).0 as int] != 0 by {
                        assert(worklist@[k] == wl_full[k]);
                    }
                    assert(vns_below(worklist@, n as int)) by {
                        assert forall|k: int| 0 <= k < worklist@.len() implies (#[trigger] worklist@[k]).0 < n by {
                            assert(worklist@[k] == wl_full[k]);
                        }
                    }
                }
            },
            Some(def_op) => {
                proof {
                    assert(data.vn_wf(value));
                    assert(data.op_wf(def_op));
                    assert(consumed@[value.0 as int] != 0) by {
                        assert(consumed@[wl_full[wl_full.len() - 1].0 as int] != 0);
                    }
                }
                let operation = data.op(def_op);
                proof {
                    assert forall|k: int| 0 <= k < c0.len() implies within(#[trigger] c0[k], consumed@[k]) by {
                        lemma_within_facts(c0[k], 0, 0);
                    }
                    assert forall|v: VarnodeId|
                        data.valid_vn(v) && consumed@[v.0 as int] != 0 && v != value implies #[trigger] worklist@.contains(v)
                            || obligation_met(data, consumed@, v) by {
                        if wl_full.contains(v) {
                            let k = choose|k: int| 0 <= k < wl_full.len() && wl_full[k] == v;
                            assert(k < popped.len());
                            assert(worklist@[k] == v);
                        }
                    }
                    assert forall|k: int| 0 <= k < worklist@.len() implies consumed@[(#[trigger] worklist@[k]).0 as int] != 0 by {
                        assert(worklist@[k] == wl_full[k]);
                    }
                    assert(vns_below(worklist@, n as int)) by {
                        assert forall|k: int| 0 <= k < worklist@.len() implies (#[trigger] worklist@[k]).0 < n by {
                            assert(worklist@[k] == wl_full[k]);
                        }
                    }
                }
                let mut j: usize = 0;
                while j < operation.inputs.len()
                    invariant
                        data.wf(),
                        n == data.vns().len(),
                        data.valid_vn(value),
                        data.vn(value).def == Some(def_op),
                        data.valid_op(def_op),
                        *operation == data.opn(def_op),
                        vns_below(operation.inputs@, n as int),
                        out == c0[value.0 as int],
                        out != 0,
                        c0.len() == n,
                        j <= operation.inputs@.len(),
                        consumed@.len() == n,
                        below_all(c0, consumed@),
                        forall|s: Seq<u64>| #[trigger] consumption_closed(data, s) ==> below_all(c0, s),
                        vns_below(worklist@, n as int),
                        forall|k: int| 0 <= k < worklist@.len() ==> consumed@[(#[trigger] worklist@[k]).0 as int] != 0,
                        forall|v: VarnodeId|
                            data.valid_vn(v) && consumed@[v.0 as int] != 0 && v != value ==> #[trigger] worklist@.contains(v)
                                || obligation_met(data, consumed@, v),
                        forall|w: VarnodeId| #[trigger] popped.contains(w) ==> worklist@.contains(w),
                        consumed@[value.0 as int] != out ==> worklist@.contains(value),
                        forall|k: int|
                            0 <= k < j ==> within(
                                sent(data, *operation, out, k),
                                consumed@[(#[trigger] operation.inputs@[k]).0 as int],
                            ),
                        forall|o: OpId|
                            data.valid_op(o) && !data.opn(o).dead && is_sink(data.opn(o).opcode) ==> #[trigger] sink_met(data, consumed@, o),
                        forall|s: Seq<u64>| #[trigger] consumption_closed(data, s) ==> below_all(consumed@, s),
                        potential(consumed@, n as int) < potential(c0, n as int) || (consumed@ == c0 && worklist@ == popped),
                    decreases operation.inputs@.len() - j,
                {
                    let input = operation.inputs[j];
                    proof {
                        assert(operation.inputs@[j as int].0 < n);
                    }
                    let mask = sent_mask(data, operation, out, j);
                    let ghost before = consumed@;
                    let ghost wl = worklist@;
                    proof {
                        assert forall|s: Seq<u64>| #[trigger] consumption_closed(data, s) implies within(mask, s[input.0 as int]) by {
                            assert(below_all(c0, s));
                            assert(within(c0[value.0 as int], s[value.0 as int]));
                            lemma_within_facts(out, s[value.0 as int], 0);
                            assert(obligation_met(data, s, value));
                            assert(operation.inputs@[j as int] == input);
                            lemma_sent_monotone(data, *operation, out, s[value.0 as int], j as int);
                            lemma_within_facts(mask, sent(data, *operation, s[value.0 as int], j as int), s[input.0 as int]);
                        }
                        lemma_push_keeps_least(data, before, input, mask);
                    }
                    push_consumed(data, &mut consumed, &mut worklist, input, mask);
                    proof {
                        lemma_within_facts(before[input.0 as int], mask, 0);
                        lemma_potential_update(before, input.0 as int, before[input.0 as int] | mask, n as int);
                        if (mask & !before[input.0 as int]) == 0 {
                            assert(consumed@ =~= before);
                        }
                        assert(below_all(before, consumed@)) by {
                            assert forall|k: int| 0 <= k < before.len() implies within(#[trigger] before[k], consumed@[k]) by {
                                lemma_within_facts(before[k], before[k], 0);
                            }
                        }
                        assert(below_all(c0, consumed@)) by {
                            assert forall|k: int| 0 <= k < c0.len() implies within(#[trigger] c0[k], consumed@[k]) by {
                                lemma_within_facts(c0[k], before[k], consumed@[k]);
                            }
                        }
                        assert forall|k: int| 0 <= k < worklist@.len() implies consumed@[(#[trigger] worklist@[k]).0 as int] != 0 by {
                            if k < wl.len() {
                                assert(worklist@[k] == wl[k]);
                                lemma_within_facts(before[wl[k].0 as int], consumed@[wl[k].0 as int], 0);
                            }
                        }
                        assert forall|w: VarnodeId| #[trigger] wl.contains(w) implies worklist@.contains(w) by {
                            let k = choose|k: int| 0 <= k < wl.len() && wl[k] == w;
                            assert(worklist@[k] == w);
                        }
                        assert forall|w: VarnodeId| #[trigger] popped.contains(w) implies worklist@.contains(w) by {
                            assert(wl.contains(w));
                        }
                        if consumed@[value.0 as int] != out {
                            if before[value.0 as int] != out {
                                assert(wl.contains(value));
                            } else {
                                assert(input == value);
                                assert(worklist@[worklist@.len() - 1] == value);
                            }
                        }
                        assert forall|v: VarnodeId|
                            data.valid_vn(v) && consumed@[v.0 as int] != 0 && v != value implies #[trigger] worklist@.contains(v)
                                || obligation_met(data, consumed@, v) by {
                            if v == input {
                                if consumed@[v.0 as int] != before[v.0 as int] {
                                    if data.vn(v).def is Some {
                                        assert(worklist@[worklist@.len() - 1] == v);
                                    }
                                } else if before[v.0 as int] != 0 {
                                    if !wl.contains(v) {
                                        lemma_growth_keeps_obligation(data, before, consumed@, v);
                                    }
                                }
                            } else {
                                assert(consumed@[v.0 as int] == before[v.0 as int]);
                                if !wl.contains(v) {
                                    lemma_growth_keeps_obligation(data, before, consumed@, v);
                                }
                            }
                        }
                        assert forall|k: int|
                            0 <= k < j + 1 implies within(
                                sent(data, *operation, out, k),
                                consumed@[(#[trigger] operation.inputs@[k]).0 as int],
                            ) by {
                            let w = operation.inputs@[k];
                            assert(w.0 < n);
                            if k < j {
                                lemma_within_facts(sent(data, *operation, out, k), before[w.0 as int], consumed@[w.0 as int]);
                            } else {
                                lemma_within_facts(before[w.0 as int], mask, 0);
                            }
                        }
                        assert forall|o: OpId|
                            data.valid_op(o) && !data.opn(o).dead && is_sink(data.opn(o).opcode) implies #[trigger] sink_met(
                                data,
                                consumed@,
                                o,
                            ) by {
                            lemma_growth_keeps_sink(data, before, consumed@, o);
                        }
                        assert(vns_below(worklist@, n as int)) by {
                            assert forall|k: int| 0 <= k < worklist@.len() implies (#[trigger] worklist@[k]).0 < n by {
                                if k < wl.len() {
                                    assert(worklist@[k] == wl[k]);
                                }
                            }
                        }
                    }
                    j += 1;
                }
                proof {
                    if !worklist@.contains(value) {
                        assert(consumed@[value.0 as int] == out);
                        assert(obligation_met(data, consumed@, value));
                    }
                    assert forall|v: VarnodeId| data.valid_vn(v) && consumed@[v.0 as int] != 0 implies #[trigger] worklist@.contains(v)
                        || obligation_met(data, consumed@, v) by {
                        if v == value && !worklist@.contains(value) {
                            assert(obligation_met(data, consumed@, value));
                        }
                    }
                }
            },
        }
        proof {
            lemma_potential_nonneg(consumed@, n as int);
            assert(popped.len() == wl_full.len() - 1);
            assert(potential(consumed@, n as int) < potential(c0, n as int) || (potential(consumed@, n as int) == potential(
                c0,
                n as int,
            ) && worklist@.len() < wl_full.len()));
        }
    }
    proof {
        assert forall|v: VarnodeId| data.valid_vn(v) && consumed@[v.0 as int] != 0 implies #[trigger] obligation_met(data, consumed@, v) by {
            assert(!worklist@.contains(v));
        }
        assert(consumption_closed(data, consumed@));
    }
    consumed
}

/// The consumed-bit masks of a graph: its least closed assignment.
pub open spec fn consumed_bits(d: &Funcdata) -> Seq<u64> {
    choose|r: Seq<u64>| least_consumption(d, r)
}

/// The least closed assignment is unique.
pub proof fn lemma_least_unique(d: &Funcdata, r: Seq<u64>)
    requires
        least_consumption(d, r),
    ensures
        r == consumed_bits(d),
{
    let c = consumed_bits(d);
    assert(least_consumption(d, c));
    assert(below_all(r, c));
    assert(below_all(c, r));
    assert forall|k: int| 0 <= k < r.len() implies r[k] == c[k] by {
        let a = r[k];
        let b = c[k];
        assert(within(a, b) && within(b, a) ==> a == b) by (bit_vector);
    }
    assert(r =~= c);
}

/// Operation `o` produces a result no bit of which anything consumes, and
/// is not a store: dead code elimination takes it away.
pub open spec fn unconsumed_result(d: &Funcdata, r: Seq<u64>, o: OpId) -> bool {
    &&& !d.opn(o).dead
    &&& d.opn(o).opcode != STORE
    &&& d.opn(o).output matches Some(v) && r[v.0 as int] == 0
}

/// The number of operations among the first `n` with an unconsumed result.
pub open spec fn unconsumed_count(d: &Funcdata, r: Seq<u64>, n: int) -> nat
    decreases n,
{
    if n <= 0 {
        0
    } else {
        unconsumed_count(d, r, n - 1) + if unconsumed_result(d, r, OpId((n - 1) as u32)) { 1nat } else { 0nat }
    }
}

/// A call keeps its effect; only its unread result goes.
pub open spec fn is_call(opcode: i32) -> bool {
    opcode == CALL || opcode == CALLIND
}

/// What dead code elimination does to operation `o`.
pub open spec fn eliminated(pre: &Funcdata, post: &Funcdata, r: Seq<u64>, o: OpId) -> bool {
    if unconsumed_result(pre, r, o) {
        if is_call(pre.opn(o).opcode) {
            post.opn(o) == (GraphOp { output: None, ..pre.opn(o) })
        } else {
            &&& post.opn(o).dead
            &&& post.opn(o).opcode == pre.opn(o).opcode
            &&& post.opn(o).seq == pre.opn(o).seq
        }
    } else {
        post.opn(o) == pre.opn(o)
    }
}

/// Removes every operation whose result nothing observable consumes, and
/// drops the unread result of a call, which itself must still happen.
/// Returns the number of operations changed.
pub fn eliminate_dead_code(data: &mut Funcdata) -> (removed: usize)
    requires
        old(data).wf(),
    ensures
        final(data).wf(),
        final(data).vns().len() == old(data).vns().len(),
        final(data).opv().len() == old(data).opv().len(),
        final(data).bls().len() == old(data).bls().len(),
        final(data).same_header(&*old(data)),
        removed == unconsumed_count(&*old(data), consumed_bits(&*old(data)), old(data).opv().len() as int),
        forall|o: OpId|
            #![trigger final(data).opn(o)]
            final(data).valid_op(o) ==> eliminated(&*old(data), &*final(data), consumed_bits(&*old(data)), o),
{
    let ghost pre = *data;
    let consumed = propagate(data);
    proof {
        lemma_least_unique(&pre, consumed@);
    }
    let count = data.op_arena_len();
    let mut removed: usize = 0;
    let mut index: usize = 0;
    while index < count
        invariant
            pre.wf(),
            data.wf(),
            count == pre.opv().len(),
            index <= count,
            consumed@ == consumed_bits(&pre),
            consumed@.len() == pre.vns().len(),
            data.vns().len() == pre.vns().len(),
            data.opv().len() == pre.opv().len(),
            data.bls().len() == pre.bls().len(),
            data.same_header(&pre),
            removed == unconsumed_count(&pre, consumed@, index as int),
            removed <= index,
            forall|o: OpId|
                #![trigger data.opn(o)]
                data.valid_op(o) ==> if (o.0 as int) < index {
                    eliminated(&pre, data, consumed@, o)
                } else {
                    data.opn(o) == pre.opn(o)
                },
        decreases count - index,
    {
        let id = OpId(index as u32);
        let operation = data.op(id);
        proof {
            assert(data.opn(id) == pre.opn(id));
            assert(pre.op_wf(id));
        }
        let ghost before = *data;
        let mut changed = false;
        if !operation.dead && operation.opcode != STORE {
            if let Some(output) = operation.output {
                if consumed[output.0 as usize] == 0 {
                    if operation.opcode == CALL || operation.opcode == CALLIND {
                        data.op_set_output(id, None);
                    } else {
                        data.op_destroy(id);
                    }
                    changed = true;
                }
            }
        }
        proof {
            assert(changed == unconsumed_result(&pre, consumed@, id));
            assert forall|o: OpId|
                #![trigger data.opn(o)]
                data.valid_op(o) implies if (o.0 as int) < index + 1 {
                    eliminated(&pre, data, consumed@, o)
                } else {
                    data.opn(o) == pre.opn(o)
                } by {
                if o != id {
                    assert(data.opn(o) == before.opn(o));
                } else if !changed {
                    assert(data.opn(o) == before.opn(o));
                }
            }
        }
        if changed {
            removed += 1;
        }
        index += 1;
    }
    removed
}

} // verus!
