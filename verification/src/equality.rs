//! Deciding whether two values are the same without solving the graph.
//!
//! Two definition trees are compared one level at a time, stopping at the
//! first pair of values that cannot be settled on the spot; that pair is
//! reported back, so that a caller merging two paths knows which value the
//! merged block still has to join.

use vstd::prelude::*;
use crate::action::{fold_constant, lemma_bits_of_ops};
use crate::graph::{Funcdata, VarnodeId};
use crate::pcode::{
    BOOL_AND, BOOL_OR, BOOL_XOR, CALL, CALLIND, CALLOTHER, FLOAT_ADD, FLOAT_DIV, FLOAT_EQUAL, FLOAT_LESS,
    FLOAT_LESSEQUAL, FLOAT_MULT, FLOAT_NOTEQUAL, FLOAT_SUB, INDIRECT, INT_ADD, INT_AND, INT_CARRY, INT_DIV,
    INT_EQUAL, INT_LEFT, INT_LESS, INT_LESSEQUAL, INT_MULT, INT_NOTEQUAL, INT_OR, INT_REM, INT_RIGHT,
    INT_SBORROW, INT_SCARRY, INT_SDIV, INT_SLESS, INT_SLESSEQUAL, INT_SREM, INT_SRIGHT, INT_SUB, INT_XOR,
    LOAD, MULTIEQUAL, PIECE, PTRADD, SUBPIECE,
};

verus! {

/// What comparing one pair of values establishes without looking at their
/// definitions.
#[derive(Clone, Copy, Debug, PartialEq, Eq, Structural)]
pub enum Level {
    /// The values are the same.
    Same,
    /// They are not, or it cannot be settled here.
    Different,
    /// Settled only by comparing their definitions.
    Deeper,
}

/// The outcome of comparing two values one level at a time.
#[derive(Clone, Copy, Debug, PartialEq, Eq, Structural)]
pub enum Equality {
    /// The two values are the same.
    Same,
    /// They are the same if this remaining pair is.
    Contingent(VarnodeId, VarnodeId),
    /// They are not, or it cannot be immediately verified.
    Different,
}

/// A value with no definition that is neither a constant nor a function
/// input: nothing says it holds the same thing on two paths.
pub open spec fn free_value(d: &Funcdata, v: VarnodeId) -> bool {
    d.vn(v).def.is_none() && !d.vn(v).flags.constant && !d.vn(v).flags.input
}

/// The comparison of two values that needs no definitions.
pub open spec fn level_of(d: &Funcdata, a: VarnodeId, b: VarnodeId) -> Level {
    if a == b {
        Level::Same
    } else if d.vn(a).size != d.vn(b).size {
        Level::Different
    } else if d.vn(a).flags.constant {
        if d.vn(b).flags.constant && d.vn(a).offset == d.vn(b).offset {
            Level::Same
        } else {
            Level::Different
        }
    } else if d.vn(b).flags.constant {
        Level::Different
    } else if free_value(d, a) || free_value(d, b) {
        Level::Different
    } else {
        Level::Deeper
    }
}

/// Phi-nodes and indirect-effect markers, whose results are not computed
/// from their operands alone.
pub open spec fn marker_opcode(opcode: i32) -> bool {
    opcode == MULTIEQUAL || opcode == INDIRECT
}

/// The call operations.
pub open spec fn call_opcode(opcode: i32) -> bool {
    opcode == CALL || opcode == CALLIND || opcode == CALLOTHER
}

/// The operations whose two operands may be swapped.
pub open spec fn commutative_opcode(opcode: i32) -> bool {
    ||| opcode == INT_EQUAL
    ||| opcode == INT_NOTEQUAL
    ||| opcode == INT_ADD
    ||| opcode == INT_CARRY
    ||| opcode == INT_SCARRY
    ||| opcode == INT_XOR
    ||| opcode == INT_AND
    ||| opcode == INT_OR
    ||| opcode == INT_MULT
    ||| opcode == BOOL_XOR
    ||| opcode == BOOL_AND
    ||| opcode == BOOL_OR
    ||| opcode == FLOAT_EQUAL
    ||| opcode == FLOAT_NOTEQUAL
    ||| opcode == FLOAT_ADD
    ||| opcode == FLOAT_MULT
}

/// Swapping the two operands of a commutative operation leaves its value
/// unchanged: wherever the value of an opcode on constant operands is
/// defined, the operation on `(l, r)` and on `(r, l)` agree.
pub proof fn lemma_commutative_opcodes_commute(opcode: i32, l: u64, r: u64)
    requires
        commutative_opcode(opcode),
    ensures
        fold_constant(opcode, l, r) == fold_constant(opcode, r, l),
{
    lemma_bits_of_ops(l, r, 0, 0);
    vstd::arithmetic::mul::lemma_mul_is_commutative(l as int, r as int);
}

/// The operations whose value depends on the order of their operands are not
/// treated as commutative: the ordering comparisons, subtraction, borrow,
/// shifts, division and remainder, and the concatenation and truncation of
/// words.
pub proof fn lemma_ordered_opcodes_not_commutative()
    ensures
        !commutative_opcode(INT_SUB),
        !commutative_opcode(INT_LESS),
        !commutative_opcode(INT_LESSEQUAL),
        !commutative_opcode(INT_SLESS),
        !commutative_opcode(INT_SLESSEQUAL),
        !commutative_opcode(INT_SBORROW),
        !commutative_opcode(INT_LEFT),
        !commutative_opcode(INT_RIGHT),
        !commutative_opcode(INT_SRIGHT),
        !commutative_opcode(INT_DIV),
        !commutative_opcode(INT_SDIV),
        !commutative_opcode(INT_REM),
        !commutative_opcode(INT_SREM),
        !commutative_opcode(FLOAT_LESS),
        !commutative_opcode(FLOAT_LESSEQUAL),
        !commutative_opcode(FLOAT_SUB),
        !commutative_opcode(FLOAT_DIV),
        !commutative_opcode(PIECE),
        !commutative_opcode(SUBPIECE),
{
}

/// Whether the comparison of `first` and `second` goes on to the operands of
/// their definitions: both are written, by operations of one opcode and one
/// operand count that are neither markers nor calls; loads must come from one
/// instruction, and an operation with three or more operands must be a
/// pointer addition with one element size.
pub open spec fn operands_compared(d: &Funcdata, first: VarnodeId, second: VarnodeId) -> bool {
    &&& level_of(d, first, second) == Level::Deeper
    &&& d.vn(first).def is Some
    &&& d.vn(second).def is Some
    &&& {
        let o1 = d.opn(d.vn(first).def.unwrap());
        let o2 = d.opn(d.vn(second).def.unwrap());
        &&& o1.opcode == o2.opcode
        &&& o1.inputs.len() == o2.inputs.len()
        &&& !marker_opcode(o1.opcode)
        &&& !call_opcode(o2.opcode)
        &&& !(o1.opcode == LOAD && o1.seq.address != o2.seq.address)
        &&& (o1.inputs.len() >= 3 ==> o1.opcode == PTRADD && d.vn(o1.inputs@[2]).offset
            == d.vn(o2.inputs@[2]).offset)
    }
}

/// The outcome once the operand pairs `(l0, r0)` and `(l1, r1)` of two
/// definitions with `count` compared operands are weighed: at most one pair
/// may stay unsettled, and a commutative operation may settle its pairs
/// crosswise.
pub open spec fn operand_outcome(
    d: &Funcdata,
    l0: VarnodeId,
    l1: VarnodeId,
    r0: VarnodeId,
    r1: VarnodeId,
    count: int,
    opcode: i32,
) -> Equality {
    let first_pair = level_of(d, l0, r0);
    if first_pair == Level::Same {
        if count == 1 {
            Equality::Same
        } else {
            match level_of(d, l1, r1) {
                Level::Same => Equality::Same,
                Level::Different => Equality::Different,
                Level::Deeper => Equality::Contingent(l1, r1),
            }
        }
    } else if count == 1 {
        if first_pair == Level::Deeper {
            Equality::Contingent(l0, r0)
        } else {
            Equality::Different
        }
    } else if level_of(d, l1, r1) == Level::Same {
        if first_pair == Level::Deeper {
            Equality::Contingent(l0, r0)
        } else {
            Equality::Different
        }
    } else if !commutative_opcode(opcode) {
        Equality::Different
    } else {
        let crossed1 = level_of(d, l0, r1);
        let crossed2 = level_of(d, l1, r0);
        if crossed1 == Level::Same && crossed2 == Level::Same {
            Equality::Same
        } else if crossed1 == Level::Different || crossed2 == Level::Different {
            Equality::Different
        } else if crossed1 == Level::Same {
            Equality::Contingent(l1, r0)
        } else if crossed2 == Level::Same {
            Equality::Contingent(l0, r1)
        } else {
            Equality::Different
        }
    }
}

/// The second compared operand of an operation: the first stands in when
/// there is only one.
pub open spec fn second_operand(inputs: Seq<VarnodeId>) -> VarnodeId {
    if inputs.len() >= 2 {
        inputs[1]
    } else {
        inputs[0]
    }
}

/// What comparing `first` and `second` one level deep establishes.
pub open spec fn equality_of(d: &Funcdata, first: VarnodeId, second: VarnodeId) -> Equality {
    match level_of(d, first, second) {
        Level::Same => Equality::Same,
        Level::Different => Equality::Different,
        Level::Deeper => {
            if !operands_compared(d, first, second) {
                Equality::Different
            } else {
                let o1 = d.opn(d.vn(first).def.unwrap());
                let o2 = d.opn(d.vn(second).def.unwrap());
                let count = if o1.inputs.len() >= 3 {
                    2
                } else {
                    o1.inputs.len() as int
                };
                operand_outcome(
                    d,
                    o1.inputs@[0],
                    second_operand(o1.inputs@),
                    o2.inputs@[0],
                    second_operand(o2.inputs@),
                    count,
                    o1.opcode,
                )
            }
        },
    }
}

/// What a `Same` outcome rests on: the two values are one value, or
/// constants of one size and value, or are written by operations of one
/// opcode whose operands are pairwise the same, in order or, for a
/// commutative operation only, crosswise.
pub proof fn lemma_same_means(d: &Funcdata, a: VarnodeId, b: VarnodeId)
    requires
        equality_of(d, a, b) == Equality::Same,
    ensures
        level_of(d, a, b) == Level::Same || ({
            let o1 = d.opn(d.vn(a).def.unwrap());
            let o2 = d.opn(d.vn(b).def.unwrap());
            &&& operands_compared(d, a, b)
            &&& o1.opcode == o2.opcode
            &&& {
                ||| level_of(d, o1.inputs@[0], o2.inputs@[0]) == Level::Same && level_of(
                    d,
                    second_operand(o1.inputs@),
                    second_operand(o2.inputs@),
                ) == Level::Same
                ||| commutative_opcode(o1.opcode) && level_of(d, o1.inputs@[0], second_operand(o2.inputs@))
                    == Level::Same && level_of(d, second_operand(o1.inputs@), o2.inputs@[0]) == Level::Same
            }
        }),
        level_of(d, a, b) == Level::Same ==> a == b || (d.vn(a).flags.constant && d.vn(b).flags.constant && d.vn(
            a,
        ).offset == d.vn(b).offset && d.vn(a).size == d.vn(b).size),
{
}

/// An outcome seen from the other side: the remaining pair is swapped.
pub open spec fn flipped(e: Equality) -> Equality {
    match e {
        Equality::Contingent(a, b) => Equality::Contingent(b, a),
        other => other,
    }
}

/// The comparison that needs no definitions.
fn level0(data: &Funcdata, first: VarnodeId, second: VarnodeId) -> (r: Level)
    requires
        data.valid_vn(first),
        data.valid_vn(second),
    ensures
        r == level_of(data, first, second),
{
    if first == second {
        return Level::Same;
    }
    let left = data.varnode(first);
    let right = data.varnode(second);
    if left.size != right.size {
        return Level::Different;
    }
    if left.flags.constant {
        return if right.flags.constant && left.offset == right.offset {
            Level::Same
        } else {
            Level::Different
        };
    }
    if right.flags.constant {
        return Level::Different;
    }
    if is_free(data, first) || is_free(data, second) {
        return Level::Different;
    }
    Level::Deeper
}

/// Whether `value` has no definition and is neither a constant nor an input.
fn is_free(data: &Funcdata, value: VarnodeId) -> (r: bool)
    requires
        data.valid_vn(value),
    ensures
        r == free_value(data, value),
{
    let varnode = data.varnode(value);
    varnode.def.is_none() && !varnode.flags.constant && !varnode.flags.input
}

fn is_marker(opcode: i32) -> (r: bool)
    ensures
        r == marker_opcode(opcode),
{
    opcode == MULTIEQUAL || opcode == INDIRECT
}

fn is_call(opcode: i32) -> (r: bool)
    ensures
        r == call_opcode(opcode),
{
    opcode == CALL || opcode == CALLIND || opcode == CALLOTHER
}

fn is_commutative(opcode: i32) -> (r: bool)
    ensures
        r == commutative_opcode(opcode),
{
    opcode == INT_EQUAL || opcode == INT_NOTEQUAL || opcode == INT_ADD || opcode == INT_CARRY
        || opcode == INT_SCARRY || opcode == INT_XOR || opcode == INT_AND || opcode == INT_OR
        || opcode == INT_MULT || opcode == BOOL_XOR || opcode == BOOL_AND || opcode == BOOL_OR
        || opcode == FLOAT_EQUAL || opcode == FLOAT_NOTEQUAL || opcode == FLOAT_ADD
        || opcode == FLOAT_MULT
}

/// Compares `first` and `second` one level deep, reporting at most one
/// remaining pair; an outcome that would leave two pairs is `Different`.
///
/// The comparison reads the first operand of each definition, so a pair of
/// definitions whose operands it compares must have at least one.
pub fn functional_equality(data: &Funcdata, first: VarnodeId, second: VarnodeId) -> (r: Equality)
    requires
        data.wf(),
        data.valid_vn(first),
        data.valid_vn(second),
        operands_compared(data, first, second) ==> data.opn(
            data.vn(first).def.unwrap(),
        ).inputs.len() >= 1,
    ensures
        r == equality_of(data, first, second),
{
    match level0(data, first, second) {
        Level::Same => return Equality::Same,
        Level::Different => return Equality::Different,
        Level::Deeper => {},
    }
    let def1 = match data.varnode(first).def {
        Some(o) => o,
        None => return Equality::Different,
    };
    let def2 = match data.varnode(second).def {
        Some(o) => o,
        None => return Equality::Different,
    };
    proof {
        assert(data.vn_wf(first));
        assert(data.vn_wf(second));
    }
    let op1 = data.op(def1);
    let op2 = data.op(def2);
    let opcode = op1.opcode;
    if opcode != op2.opcode || op1.inputs.len() != op2.inputs.len() {
        return Equality::Different;
    }
    if is_marker(opcode) || is_call(op2.opcode) {
        return Equality::Different;
    }
    if opcode == LOAD && op1.seq.address != op2.seq.address {
        return Equality::Different;
    }
    proof {
        assert(data.op_wf(def1));
        assert(data.op_wf(def2));
    }
    let mut count = op1.inputs.len();
    if count >= 3 {
        if opcode != PTRADD {
            return Equality::Different;
        }
        let size1 = op1.inputs[2];
        let size2 = op2.inputs[2];
        if data.varnode(size1).offset != data.varnode(size2).offset {
            return Equality::Different;
        }
        count = 2;
    }
    let left0 = op1.inputs[0];
    let left1 = if op1.inputs.len() >= 2 { op1.inputs[1] } else { op1.inputs[0] };
    let right0 = op2.inputs[0];
    let right1 = if op2.inputs.len() >= 2 { op2.inputs[1] } else { op2.inputs[0] };

    let first_pair = level0(data, left0, right0);
    if first_pair == Level::Same {
        if count == 1 {
            return Equality::Same;
        }
        return match level0(data, left1, right1) {
            Level::Same => Equality::Same,
            Level::Different => Equality::Different,
            Level::Deeper => Equality::Contingent(left1, right1),
        };
    }
    if count == 1 {
        return match first_pair {
            Level::Deeper => Equality::Contingent(left0, right0),
            _ => Equality::Different,
        };
    }
    let second_pair = level0(data, left1, right1);
    if second_pair == Level::Same {
        return match first_pair {
            Level::Deeper => Equality::Contingent(left0, right0),
            _ => Equality::Different,
        };
    }
    if !is_commutative(opcode) {
        return Equality::Different;
    }
    let crossed1 = level0(data, left0, right1);
    let crossed2 = level0(data, left1, right0);
    if crossed1 == Level::Same && crossed2 == Level::Same {
        return Equality::Same;
    }
    if crossed1 == Level::Different || crossed2 == Level::Different {
        return Equality::Different;
    }
    if crossed1 == Level::Same {
        return Equality::Contingent(left1, right0);
    }
    if crossed2 == Level::Same {
        return Equality::Contingent(left0, right1);
    }
    Equality::Different
}

/// The one-level comparison needs no definitions to compare a value with
/// itself.
pub proof fn lemma_equality_reflexive(d: &Funcdata, v: VarnodeId)
    ensures
        equality_of(d, v, v) == Equality::Same,
{
}

/// The comparison that needs no definitions does not depend on the order of
/// its two values.
pub proof fn lemma_level_symmetric(d: &Funcdata, a: VarnodeId, b: VarnodeId)
    ensures
        level_of(d, a, b) == level_of(d, b, a),
{
}

/// Comparing two values in the other order gives the same outcome, with any
/// remaining pair swapped.
pub proof fn lemma_equality_symmetric(d: &Funcdata, first: VarnodeId, second: VarnodeId)
    ensures
        equality_of(d, second, first) == flipped(equality_of(d, first, second)),
{
    lemma_level_symmetric(d, first, second);
    if level_of(d, first, second) == Level::Deeper && operands_compared(d, first, second) {
        let o1 = d.opn(d.vn(first).def.unwrap());
        let o2 = d.opn(d.vn(second).def.unwrap());
        let l0 = o1.inputs@[0];
        let l1 = second_operand(o1.inputs@);
        let r0 = o2.inputs@[0];
        let r1 = second_operand(o2.inputs@);
        lemma_level_symmetric(d, l0, r0);
        lemma_level_symmetric(d, l1, r1);
        lemma_level_symmetric(d, l0, r1);
        lemma_level_symmetric(d, l1, r0);
        assert(operands_compared(d, second, first));
    } else if level_of(d, first, second) == Level::Deeper {
        assert(!operands_compared(d, second, first));
    }
}

} // verus!
