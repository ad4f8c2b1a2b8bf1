//! Bit-field expression rewrites.
//!
//! The rules here simplify explicit bit-range pulls (`ZPULL`, `SPULL`) and
//! insertions (`INSERT`) by absorbing the shifts, masks, comparisons and
//! extensions around them. They use only operation shape and widths.

use vstd::prelude::*;

use crate::action::{Rule, arenas_grow};
use crate::graph::{Funcdata, GraphOp, OpId, VarnodeId, copy_op_ids, copy_vn_ids, live_op_count, ops_below, replace_in};
use crate::pcode::{
    BOOL_AND, BOOL_NEGATE, BOOL_OR, BOOL_XOR, BRANCH, BRANCHIND, CALL, CALLIND, CALLOTHER, CBRANCH, COPY, FLOAT_EQUAL,
    FLOAT_LESS, FLOAT_LESSEQUAL, FLOAT_NAN, FLOAT_NOTEQUAL, INDIRECT, INSERT, INT_ADD, INT_AND, INT_CARRY, INT_EQUAL,
    INT_LEFT, INT_LESSEQUAL, INT_MULT, INT_OR, INT_SCARRY, INT_XOR,
    INT_LESS, INT_NOTEQUAL, INT_RIGHT, INT_SEXT, INT_SLESS, INT_SLESSEQUAL, INT_SRIGHT, INT_ZEXT, LOAD, RETURN, SPULL,
    STORE, SUBPIECE, ZPULL,
};

verus! {

/// The all-ones mask of a value `size` bytes wide.
pub open spec fn full_mask_of(size: u32) -> u64 {
    let width = if size * 8 > u32::MAX { u32::MAX as int } else { size * 8 };
    if width == 0 {
        0
    } else if width >= 64 {
        u64::MAX
    } else {
        ((1u64 << (width as u64)) - 1) as u64
    }
}

/// The mask of the low `bits` bits.
pub open spec fn low_mask_of(bits: u32) -> u64 {
    if bits == 0 {
        0
    } else if bits >= 64 {
        u64::MAX
    } else {
        ((1u64 << (bits as u64)) - 1) as u64
    }
}

fn full_mask(size: u32) -> (r: u64)
    ensures
        r == full_mask_of(size),
{
    let width: u32 = if size > 0x1FFF_FFFF { u32::MAX } else { size * 8 };
    if width == 0 {
        0
    } else if width >= 64 {
        u64::MAX
    } else {
        proof {
            assert(1u64 << (width as u64) >= 1) by (bit_vector)
                requires
                    width < 64,
            ;
        }
        (1u64 << width) - 1
    }
}

fn low_mask(bits: u32) -> (r: u64)
    ensures
        r == low_mask_of(bits),
{
    if bits == 0 {
        0
    } else if bits >= 64 {
        u64::MAX
    } else {
        proof {
            assert(1u64 << (bits as u64) >= 1) by (bit_vector)
                requires
                    bits < 64,
            ;
        }
        (1u64 << bits) - 1
    }
}

/// The value a constant holds, or `None` for any other value.
pub open spec fn const_of(d: &Funcdata, v: VarnodeId) -> Option<u64> {
    if d.vn(v).flags.constant {
        Some(d.vn(v).offset)
    } else {
        None
    }
}

fn constant(data: &Funcdata, value: VarnodeId) -> (r: Option<u64>)
    requires
        data.valid_vn(value),
    ensures
        r == const_of(data, value),
{
    let node = data.varnode(value);
    if node.flags.constant {
        Some(node.offset)
    } else {
        None
    }
}

/// The operand in `slot` of operation `o`, when it has one.
pub open spec fn input_of(d: &Funcdata, o: OpId, slot: int) -> Option<VarnodeId> {
    if 0 <= slot < d.opn(o).inputs@.len() {
        Some(d.opn(o).inputs@[slot])
    } else {
        None
    }
}

fn input(data: &Funcdata, id: OpId, slot: usize) -> (r: Option<VarnodeId>)
    requires
        data.wf(),
        data.valid_op(id),
    ensures
        r == input_of(data, id, slot as int),
        r matches Some(v) ==> data.valid_vn(v),
{
    let operation = data.op(id);
    if slot < operation.inputs.len() {
        proof {
            assert(data.op_wf(id));
            assert(operation.inputs@[slot as int].0 < data.vns().len());
        }
        Some(operation.inputs[slot])
    } else {
        None
    }
}

/// The value an operand slot holds, when that value is a constant.
pub open spec fn const_input(d: &Funcdata, o: OpId, slot: int) -> Option<u64> {
    match input_of(d, o, slot) {
        Some(v) => const_of(d, v),
        None => None,
    }
}

fn constant_input(data: &Funcdata, id: OpId, slot: usize) -> (r: Option<u64>)
    requires
        data.wf(),
        data.valid_op(id),
    ensures
        r == const_input(data, id, slot as int),
{
    match input(data, id, slot) {
        Some(v) => constant(data, v),
        None => None,
    }
}

fn output(data: &Funcdata, id: OpId) -> (r: Option<VarnodeId>)
    requires
        data.wf(),
        data.valid_op(id),
    ensures
        r == data.opn(id).output,
        r matches Some(v) ==> data.valid_vn(v),
{
    proof {
        assert(data.op_wf(id));
    }
    data.op(id).output
}

fn is_zero(data: &Funcdata, value: VarnodeId) -> (r: bool)
    requires
        data.valid_vn(value),
    ensures
        r == (const_of(data, value) == Some(0u64)),
{
    match constant(data, value) {
        Some(c) => c == 0,
        None => false,
    }
}

/// From `pre` to `post` operations were at most destroyed: every operation
/// is either unchanged or was live and is now dead; values keep their
/// location, size and constant flag.
pub open spec fn destroys_only(pre: &Funcdata, post: &Funcdata) -> bool {
    &&& post.vns().len() == pre.vns().len()
    &&& post.opv().len() == pre.opv().len()
    &&& post.bls().len() == pre.bls().len()
    &&& forall|o: OpId|
        #![trigger post.opn(o)]
        post.valid_op(o) ==> (post.opn(o) == pre.opn(o) || (post.opn(o).dead && !pre.opn(o).dead))
    &&& forall|v: VarnodeId|
        #![trigger post.vn(v)]
        post.valid_vn(v) ==> {
            &&& post.vn(v).space == pre.vn(v).space
            &&& post.vn(v).offset == pre.vn(v).offset
            &&& post.vn(v).size == pre.vn(v).size
            &&& post.vn(v).flags.constant == pre.vn(v).flags.constant
        }
}

proof fn lemma_destroys_only_trans(a: &Funcdata, b: &Funcdata, c: &Funcdata)
    requires
        destroys_only(a, b),
        destroys_only(b, c),
    ensures
        destroys_only(a, c),
{
    assert forall|o: OpId| #![trigger c.opn(o)] c.valid_op(o) implies (c.opn(o) == a.opn(o) || (c.opn(o).dead
        && !a.opn(o).dead)) by {
        assert(b.opn(o) == a.opn(o) || (b.opn(o).dead && !a.opn(o).dead));
    }
    assert forall|v: VarnodeId| #![trigger c.vn(v)] c.valid_vn(v) implies {
        &&& c.vn(v).space == a.vn(v).space
        &&& c.vn(v).offset == a.vn(v).offset
        &&& c.vn(v).size == a.vn(v).size
        &&& c.vn(v).flags.constant == a.vn(v).flags.constant
    } by {
        assert(b.valid_vn(v));
    }
}

/// Turning live operations dead never adds to the live count, and turning
/// one dead lowers it.
proof fn lemma_live_count_mono(pre: Seq<GraphOp>, post: Seq<GraphOp>, n: int)
    requires
        0 <= n <= pre.len(),
        pre.len() == post.len(),
        forall|i: int| 0 <= i < n && !(#[trigger] post[i]).dead ==> !pre[i].dead,
    ensures
        live_op_count(post, n) <= live_op_count(pre, n),
        (exists|i: int| 0 <= i < n && !pre[i].dead && (#[trigger] post[i]).dead) ==> live_op_count(post, n)
            < live_op_count(pre, n),
    decreases n,
{
    if n > 0 {
        lemma_live_count_mono(pre, post, n - 1);
        if exists|i: int| 0 <= i < n && !pre[i].dead && (#[trigger] post[i]).dead {
            let i = choose|i: int| 0 <= i < n && !pre[i].dead && (#[trigger] post[i]).dead;
            if i < n - 1 {
                assert(exists|j: int| 0 <= j < n - 1 && !pre[j].dead && (#[trigger] post[j]).dead);
            }
        }
    }
}

proof fn lemma_destroys_count(pre: &Funcdata, post: &Funcdata)
    requires
        destroys_only(pre, post),
        post.opv().len() <= u32::MAX,
    ensures
        live_op_count(post.opv(), post.opv().len() as int) <= live_op_count(pre.opv(), pre.opv().len() as int),
{
    assert forall|i: int| 0 <= i < post.opv().len() && !(#[trigger] post.opv()[i]).dead implies !pre.opv()[i].dead by {
        let o = OpId(i as u32);
        assert(post.opn(o) == post.opv()[i]);
    }
    lemma_live_count_mono(pre.opv(), post.opv(), pre.opv().len() as int);
}

/// `value` is a written, unread, non-constant, non-input value whose live
/// defining operation has no effect beyond its result.
pub open spec fn dead_value(d: &Funcdata, value: VarnodeId) -> bool {
    &&& !d.vn(value).flags.constant
    &&& !d.vn(value).flags.input
    &&& d.vn(value).descendants@.len() == 0
    &&& d.vn(value).def matches Some(o) && {
        let opcode = d.opn(o).opcode;
        &&& !d.opn(o).dead
        &&& opcode != STORE && opcode != LOAD && opcode != CALL && opcode != CALLIND && opcode != CALLOTHER
        &&& opcode != BRANCH && opcode != CBRANCH && opcode != BRANCHIND && opcode != RETURN
    }
}

/// Destroys the operation that defines `value` when nothing reads `value`
/// and the operation has no effect beyond its result, then does the same
/// for each of its operands in turn.
fn destroy_dead_value(data: &mut Funcdata, value: VarnodeId)
    requires
        old(data).wf(),
        old(data).valid_vn(value),
    ensures
        final(data).wf(),
        destroys_only(&*old(data), &*final(data)),
        final(data).same_header(&*old(data)),
        !dead_value(&*old(data), value) ==> *final(data) == *old(data),
        dead_value(&*old(data), value) ==> final(data).opn(old(data).vn(value).def.unwrap()).dead,
    decreases live_op_count(old(data).opv(), old(data).opv().len() as int),
{
    let ghost pre = *data;
    let node = data.varnode(value);
    if node.flags.constant || node.flags.input || node.descendants.len() > 0 {
        return;
    }
    let definition = match node.def {
        Some(d) => d,
        None => return,
    };
    proof {
        assert(pre.vn_wf(value));
    }
    let operation = data.op(definition);
    let opcode = operation.opcode;
    if operation.dead || opcode == STORE || opcode == LOAD || opcode == CALL || opcode == CALLIND || opcode == CALLOTHER
        || opcode == BRANCH || opcode == CBRANCH || opcode == BRANCHIND || opcode == RETURN {
        return;
    }
    proof {
        assert(pre.op_wf(definition));
    }
    let operands = copy_vn_ids(&operation.inputs);
    data.op_destroy(definition);
    proof {
        let post = *data;
        assert forall|o: OpId| #![trigger post.opn(o)] post.valid_op(o) implies (post.opn(o) == pre.opn(o) || (
        post.opn(o).dead && !pre.opn(o).dead)) by {}
        assert(destroys_only(&pre, &post));
        assert forall|i: int| 0 <= i < post.opv().len() && !(#[trigger] post.opv()[i]).dead implies !pre.opv()[i].dead by {
            let o = OpId(i as u32);
            assert(post.opn(o) == post.opv()[i]);
        }
        assert(!pre.opv()[definition.0 as int].dead && post.opv()[definition.0 as int].dead);
        lemma_live_count_mono(pre.opv(), post.opv(), pre.opv().len() as int);
    }
    let mut i: usize = 0;
    while i < operands.len()
        invariant
            pre == *old(data),
            data.wf(),
            destroys_only(&pre, data),
            data.same_header(&pre),
            live_op_count(data.opv(), data.opv().len() as int) < live_op_count(pre.opv(), pre.opv().len() as int),
            crate::graph::vns_below(operands@, pre.vns().len() as int),
            i <= operands@.len(),
            pre.vn(value).def == Some(definition),
            pre.valid_op(definition),
            data.opn(definition).dead,
        decreases operands@.len() - i,
    {
        let ghost before = *data;
        proof {
            assert(operands@[i as int].0 < pre.vns().len());
        }
        destroy_dead_value(data, operands[i]);
        proof {
            lemma_destroys_count(&before, data);
            lemma_destroys_only_trans(&pre, &before, data);
        }
        i += 1;
    }
}

/// The opcode of a live operation; `None` once it is destroyed.
pub open spec fn live_opcode(d: &Funcdata, o: OpId) -> Option<i32> {
    if d.opn(o).dead {
        None
    } else {
        Some(d.opn(o).opcode)
    }
}

/// `a + b`, saturating at the top of `u64`.
pub open spec fn sat_add(a: u64, b: u64) -> u64 {
    if a + b > u64::MAX {
        u64::MAX
    } else {
        (a + b) as u64
    }
}

fn saturating_add(a: u64, b: u64) -> (r: u64)
    ensures
        r == sat_add(a, b),
{
    if a > u64::MAX - b {
        u64::MAX
    } else {
        a + b
    }
}

/// A rewrite that absorbs a bit-range pull into a comparison.
pub enum CompareRewrite {
    /// Every read of `old` reads `by` instead.
    Replace { old: VarnodeId, by: VarnodeId },
    /// The comparison becomes `BOOL_NEGATE(by)`.
    Negate { by: VarnodeId, source: VarnodeId },
    /// Operand `slot` becomes `by` and the other operand a new constant
    /// `value` of `size` bytes.
    Rebase { slot: usize, by: VarnodeId, value: u64, size: u32, source: VarnodeId },
}

/// The value a pull is compared through: the left shift's result when there
/// is one with a result, else the pull's own result.
pub open spec fn pulled_source(d: &Funcdata, left: Option<OpId>, pull: OpId) -> Option<VarnodeId> {
    match left {
        Some(l) => match d.opn(l).output {
            Some(v) => Some(v),
            None => d.opn(pull).output,
        },
        None => d.opn(pull).output,
    }
}

/// The comparison constant moved below a shift: rounded up when the
/// shifted-out bits are one, for a strict comparison against a pulled value
/// on the left.
pub open spec fn rebased_left(unshifted: u64, shift: u64, size: u32) -> u64 {
    let low_bits = unshifted & low_mask_of(shift as u32);
    if low_bits == 1 {
        ((unshifted.wrapping_sub(1) >> shift).wrapping_add(1)) & full_mask_of(size)
    } else {
        unshifted >> shift
    }
}

/// The comparison constant moved below a shift, for a pulled value on the
/// right: rounded down when the shifted-out bits are all ones.
pub open spec fn rebased_right(unshifted: u64, shift: u64, size: u32) -> u64 {
    let low = low_mask_of(shift as u32);
    if unshifted & low == low {
        ((unshifted.wrapping_add(1) >> shift).wrapping_sub(1)) & full_mask_of(size)
    } else {
        unshifted >> shift
    }
}

/// The rewrite of a signed or unsigned comparison of a pulled value, shifted
/// left by `left`'s constant amount when `left` is given, such that the pull
/// spans the whole container; `None` when the comparison does not take that
/// shape.
pub open spec fn pull_compare_plan(d: &Funcdata, compare: OpId, left: Option<OpId>, pull: OpId) -> Option<CompareRewrite> {
    let shift_opt = match left {
        Some(l) => const_input(d, l, 1),
        None => Some(0u64),
    };
    let bits_opt = const_input(d, pull, 2);
    let root_opt = input_of(d, pull, 0);
    let source_opt = pulled_source(d, left, pull);
    let lv = input_of(d, compare, 0);
    let rv = input_of(d, compare, 1);
    if shift_opt is None || bits_opt is None || root_opt is None {
        None
    } else if sat_add(bits_opt.unwrap(), shift_opt.unwrap()) != d.vn(root_opt.unwrap()).size * 8 {
        None
    } else if source_opt is None || lv is None || rv is None {
        None
    } else {
        let shift = shift_opt.unwrap();
        let bits = bits_opt.unwrap();
        let source = source_opt.unwrap();
        let l = lv.unwrap();
        let r = rv.unwrap();
        let pull_out = d.opn(pull).output;
        let strict_bit = live_opcode(d, compare) == Some(INT_SLESS) && bits == 1;
        if strict_bit && l == source && const_of(d, r) == Some(0u64) {
            match (d.opn(compare).output, pull_out) {
                (Some(old), Some(by)) => Some(CompareRewrite::Replace { old, by }),
                _ => None,
            }
        } else if strict_bit && r == source && const_of(d, l) == Some(full_mask_of(d.vn(source).size)) {
            match pull_out {
                Some(by) => Some(CompareRewrite::Negate { by, source }),
                None => None,
            }
        } else if shift == 0 || shift >= 64 {
            None
        } else if l == source {
            match (const_of(d, r), pull_out) {
                (Some(unshifted), Some(by)) => {
                    let low_bits = unshifted & low_mask_of(shift as u32);
                    if low_bits == 0 || low_bits == 1 {
                        Some(
                            CompareRewrite::Rebase {
                                slot: 0,
                                by,
                                value: rebased_left(unshifted, shift, d.vn(source).size),
                                size: d.vn(source).size,
                                source,
                            },
                        )
                    } else {
                        None
                    }
                },
                _ => None,
            }
        } else if r == source {
            match (const_of(d, l), pull_out) {
                (Some(unshifted), Some(by)) => {
                    let low = low_mask_of(shift as u32);
                    let low_bits = unshifted & low;
                    if low_bits == 0 || low_bits == low {
                        Some(
                            CompareRewrite::Rebase {
                                slot: 1,
                                by,
                                value: rebased_right(unshifted, shift, d.vn(source).size),
                                size: d.vn(source).size,
                                source,
                            },
                        )
                    } else {
                        None
                    }
                },
                _ => None,
            }
        } else {
            None
        }
    }
}

/// Whether a planned rewrite can be carried out: a rebase needs room for one
/// more value.
pub open spec fn rewrite_fits(d: &Funcdata, p: CompareRewrite) -> bool {
    p is Rebase ==> d.vns().len() < u32::MAX
}

/// What a carried-out comparison rewrite leaves behind, for every operation
/// the cleanup that follows it keeps live.
pub open spec fn compare_rewritten(pre: &Funcdata, post: &Funcdata, compare: OpId, p: CompareRewrite) -> bool {
    match p {
        CompareRewrite::Replace { old, by } => forall|o: OpId|
            #![trigger post.opn(o)]
            post.valid_op(o) && !post.opn(o).dead ==> {
                &&& post.opn(o).inputs@ == replace_in(pre.opn(o).inputs@, old, by)
                &&& post.opn(o).opcode == pre.opn(o).opcode
                &&& post.opn(o).output == pre.opn(o).output
            },
        CompareRewrite::Negate { by, source } => {
            &&& !post.opn(compare).dead ==> post.opn(compare).opcode == BOOL_NEGATE && post.opn(compare).inputs@ == seq![
                by,
            ]
            &&& forall|o: OpId|
                #![trigger post.opn(o)]
                post.valid_op(o) && o != compare && !post.opn(o).dead ==> post.opn(o) == pre.opn(o)
        },
        CompareRewrite::Rebase { slot, by, value, size, source } => {
            let c = VarnodeId(pre.vns().len() as u32);
            &&& post.vns().len() == pre.vns().len() + 1
            &&& post.vn(c).flags.constant
            &&& post.vn(c).offset == value
            &&& post.vn(c).size == size
            &&& !post.opn(compare).dead ==> post.opn(compare).opcode == pre.opn(compare).opcode
                && post.opn(compare).inputs@ == pre.opn(compare).inputs@.update(slot as int, by).update(
                1 - slot,
                c,
            )
            &&& forall|o: OpId|
                #![trigger post.opn(o)]
                post.valid_op(o) && o != compare && !post.opn(o).dead ==> post.opn(o) == pre.opn(o)
        },
    }
}

/// Absorbs a pull that spans its container, possibly shifted left, into a
/// signed or unsigned comparison that reads it: the comparison reads the
/// pull's result directly, with its constant moved below the shift, or
/// becomes a negation, or is replaced by the pull's result outright.
fn absorb_pull_compare(data: &mut Funcdata, compare: OpId, left: Option<OpId>, pull: OpId) -> (changes: usize)
    requires
        old(data).wf(),
        old(data).valid_op(compare),
        old(data).valid_op(pull),
        left matches Some(l) ==> old(data).valid_op(l),
    ensures
        final(data).wf(),
        arenas_grow(&*old(data), &*final(data)),
        changes == (if pull_compare_plan(&*old(data), compare, left, pull) matches Some(p) && rewrite_fits(
            &*old(data),
            p,
        ) {
            1usize
        } else {
            0
        }),
        changes == 0 ==> *final(data) == *old(data),
        changes == 1 ==> compare_rewritten(
            &*old(data),
            &*final(data),
            compare,
            pull_compare_plan(&*old(data), compare, left, pull).unwrap(),
        ),
{
    let ghost pre = *data;
    let shift = match left {
        Some(l) => match constant_input(data, l, 1) {
            Some(value) => value,
            None => return 0,
        },
        None => 0,
    };
    let bits = match constant_input(data, pull, 2) {
        Some(b) => b,
        None => return 0,
    };
    let root = match input(data, pull, 0) {
        Some(r) => r,
        None => return 0,
    };
    let width = data.varnode(root).size as u64 * 8;
    if saturating_add(bits, shift) != width {
        return 0;
    }
    let source = match left {
        Some(l) => match output(data, l) {
            Some(v) => v,
            None => match output(data, pull) {
                Some(v) => v,
                None => return 0,
            },
        },
        None => match output(data, pull) {
            Some(v) => v,
            None => return 0,
        },
    };
    let left_value = match input(data, compare, 0) {
        Some(v) => v,
        None => return 0,
    };
    let right_value = match input(data, compare, 1) {
        Some(v) => v,
        None => return 0,
    };
    if data.opcode_of(compare) == Some(INT_SLESS) && bits == 1 {
        if left_value == source && is_zero(data, right_value) {
            let old = match output(data, compare) {
                Some(v) => v,
                None => return 0,
            };
            let pull_out = match output(data, pull) {
                Some(v) => v,
                None => return 0,
            };
            data.total_replace(old, pull_out);
            let ghost mid = *data;
            destroy_dead_value(data, old);
            proof {
                assert forall|o: OpId| #![trigger data.opn(o)] data.valid_op(o) && !data.opn(o).dead implies {
                    &&& data.opn(o).inputs@ == replace_in(pre.opn(o).inputs@, old, pull_out)
                    &&& data.opn(o).opcode == pre.opn(o).opcode
                    &&& data.opn(o).output == pre.opn(o).output
                } by {
                    assert(mid.valid_op(o));
                }
            }
            return 1;
        }
        if right_value == source && constant(data, left_value) == Some(full_mask(data.varnode(source).size)) {
            let pull_out = match output(data, pull) {
                Some(v) => v,
                None => return 0,
            };
            data.op_set_opcode(compare, BOOL_NEGATE);
            let ghost m1 = *data;
            data.op_set_inputs(compare, vec![pull_out]);
            let ghost mid = *data;
            destroy_dead_value(data, source);
            proof {
                assert(mid.opn(compare).inputs@ =~= seq![pull_out]);
                assert forall|o: OpId| #![trigger data.opn(o)] data.valid_op(o) && o != compare && !data.opn(
                    o,
                ).dead implies data.opn(o) == pre.opn(o) by {
                    assert(mid.opn(o) == m1.opn(o));
                }
            }
            return 1;
        }
    }
    if shift == 0 || shift >= 64 {
        return 0;
    }
    let low = low_mask(shift as u32);
    if left_value == source {
        let unshifted = match constant(data, right_value) {
            Some(c) => c,
            None => return 0,
        };
        let low_bits = unshifted & low;
        if low_bits == 0 || low_bits == 1 {
            let pull_out = match output(data, pull) {
                Some(v) => v,
                None => return 0,
            };
            if data.varnode_count() >= 0xFFFF_FFFF {
                return 0;
            }
            let size = data.varnode(source).size;
            data.op_set_input(compare, pull_out, 0);
            let ghost m1 = *data;
            let shifted = if low_bits == 1 {
                ((unshifted.wrapping_sub(1) >> shift).wrapping_add(1)) & full_mask(size)
            } else {
                unshifted >> shift
            };
            let value = data.new_constant(shifted, size);
            let ghost m2 = *data;
            data.op_set_input(compare, value, 1);
            let ghost mid = *data;
            destroy_dead_value(data, source);
            proof {
                assert(mid.vn(value).flags.constant && mid.vn(value).offset == shifted && mid.vn(value).size == size);
                assert(data.vn(value).flags.constant);
                assert(m1.opn(compare).inputs@ == pre.opn(compare).inputs@.update(0, pull_out));
                assert(mid.opn(compare).inputs@ == pre.opn(compare).inputs@.update(0, pull_out).update(1, value));
                assert forall|o: OpId| #![trigger data.opn(o)] data.valid_op(o) && o != compare && !data.opn(
                    o,
                ).dead implies data.opn(o) == pre.opn(o) by {
                    assert(mid.opn(o) == m2.opn(o));
                    assert(m2.opn(o) == m1.opn(o));
                }
            }
            return 1;
        }
    } else if right_value == source {
        let unshifted = match constant(data, left_value) {
            Some(c) => c,
            None => return 0,
        };
        let low_bits = unshifted & low;
        if low_bits == 0 || low_bits == low {
            let pull_out = match output(data, pull) {
                Some(v) => v,
                None => return 0,
            };
            if data.varnode_count() >= 0xFFFF_FFFF {
                return 0;
            }
            let size = data.varnode(source).size;
            data.op_set_input(compare, pull_out, 1);
            let ghost m1 = *data;
            let shifted = if low_bits == low {
                ((unshifted.wrapping_add(1) >> shift).wrapping_sub(1)) & full_mask(size)
            } else {
                unshifted >> shift
            };
            let value = data.new_constant(shifted, size);
            let ghost m2 = *data;
            data.op_set_input(compare, value, 0);
            let ghost mid = *data;
            destroy_dead_value(data, source);
            proof {
                assert(mid.vn(value).flags.constant && mid.vn(value).offset == shifted && mid.vn(value).size == size);
                assert(data.vn(value).flags.constant);
                assert(m1.opn(compare).inputs@ == pre.opn(compare).inputs@.update(1, pull_out));
                assert(mid.opn(compare).inputs@ == pre.opn(compare).inputs@.update(1, pull_out).update(0, value));
                assert forall|o: OpId| #![trigger data.opn(o)] data.valid_op(o) && o != compare && !data.opn(
                    o,
                ).dead implies data.opn(o) == pre.opn(o) by {
                    assert(mid.opn(o) == m2.opn(o));
                    assert(m2.opn(o) == m1.opn(o));
                }
            }
            return 1;
        }
    }
    0
}

/// `c` is a live equality or inequality test of something against zero.
pub open spec fn zero_test(d: &Funcdata, c: OpId) -> bool {
    &&& (live_opcode(d, c) == Some(INT_EQUAL) || live_opcode(d, c) == Some(INT_NOTEQUAL))
    &&& input_of(d, c, 1) matches Some(s) && const_of(d, s) == Some(0u64)
}

/// The first zero test among `list[i..]`.
pub open spec fn first_zero_test(d: &Funcdata, list: Seq<OpId>, i: int) -> Option<OpId>
    decreases list.len() - i,
{
    if i < 0 || i >= list.len() {
        None
    } else if zero_test(d, list[i]) {
        Some(list[i])
    } else {
        first_zero_test(d, list, i + 1)
    }
}

proof fn lemma_first_zero_test_in(d: &Funcdata, list: Seq<OpId>, i: int)
    requires
        0 <= i,
    ensures
        first_zero_test(d, list, i) matches Some(c) ==> list.contains(c) && zero_test(d, c),
    decreases list.len() - i,
{
    if 0 <= i < list.len() {
        if zero_test(d, list[i]) {
            assert(list[i] == list[i]);
        } else {
            lemma_first_zero_test_in(d, list, i + 1);
        }
    }
}

/// Finds the first zero test among `list`.
fn find_zero_test(data: &Funcdata, list: &Vec<OpId>) -> (r: Option<OpId>)
    requires
        data.wf(),
        ops_below(list@, data.opv().len() as int),
    ensures
        r == first_zero_test(data, list@, 0),
        r matches Some(c) ==> data.valid_op(c) && zero_test(data, c),
{
    proof {
        lemma_first_zero_test_in(data, list@, 0);
    }
    let mut i: usize = 0;
    while i < list.len()
        invariant
            data.wf(),
            ops_below(list@, data.opv().len() as int),
            i <= list@.len(),
            first_zero_test(data, list@, 0) == first_zero_test(data, list@, i as int),
        decreases list@.len() - i,
    {
        let compare = list[i];
        proof {
            assert(list@[i as int].0 < data.opv().len());
        }
        let opcode = data.opcode_of(compare);
        match input(data, compare, 1) {
            Some(second) => {
                if (opcode == Some(INT_EQUAL) || opcode == Some(INT_NOTEQUAL)) && is_zero(data, second) {
                    return Some(compare);
                }
            },
            None => {},
        }
        i += 1;
    }
    None
}

/// The readers of a value, as a copy.
fn readers_of(data: &Funcdata, value: VarnodeId) -> (r: Vec<OpId>)
    requires
        data.wf(),
        data.valid_vn(value),
    ensures
        r@ == data.vn(value).descendants@,
        ops_below(r@, data.opv().len() as int),
{
    proof {
        assert(data.vn_wf(value));
    }
    copy_op_ids(&data.varnode(value).descendants)
}

/// The sign-bit test of a signed pull: the result of `INT_AND(right, 1)`,
/// where `right` shifts the pull right to its top bit, is tested against
/// zero by `compare`.
pub open spec fn sign_test_plan(d: &Funcdata, right: OpId, and_op: OpId, pull: OpId) -> Option<OpId> {
    if live_opcode(d, pull) != Some(SPULL) || const_input(d, right, 1) is None || const_input(d, pull, 2) is None {
        None
    } else {
        let shift = const_input(d, right, 1).unwrap();
        let bits = const_input(d, pull, 2).unwrap();
        if bits == 0 || bits - 1 != shift || const_input(d, and_op, 1) != Some(1u64) {
            None
        } else {
            match (d.opn(and_op).output, d.opn(pull).output) {
                (Some(and_out), Some(_)) => first_zero_test(d, d.vn(and_out).descendants@, 0),
                _ => None,
            }
        }
    }
}

/// A test of a sign bit against zero becomes a signed comparison of the
/// pulled value itself.
fn absorb_pull_right_and_zero(data: &mut Funcdata, right: OpId, and_op: OpId, pull: OpId) -> (changes: usize)
    requires
        old(data).wf(),
        old(data).valid_op(right),
        old(data).valid_op(and_op),
        old(data).valid_op(pull),
    ensures
        final(data).wf(),
        arenas_grow(&*old(data), &*final(data)),
        changes == (if sign_test_plan(&*old(data), right, and_op, pull) is Some {
            1usize
        } else {
            0
        }),
        changes == 0 ==> *final(data) == *old(data),
        sign_test_plan(&*old(data), right, and_op, pull) matches Some(c) ==> {
            let pull_out = old(data).opn(pull).output.unwrap();
            let zero = old(data).opn(c).inputs@[1];
            !final(data).opn(c).dead ==> if old(data).opn(c).opcode == INT_EQUAL {
                &&& final(data).opn(c).opcode == INT_LESSEQUAL
                &&& final(data).opn(c).inputs@ == old(data).opn(c).inputs@.update(0, zero).update(1, pull_out)
            } else {
                &&& final(data).opn(c).opcode == INT_SLESS
                &&& final(data).opn(c).inputs@ == old(data).opn(c).inputs@.update(0, pull_out)
            }
        },
{
    let ghost pre = *data;
    if data.opcode_of(pull) != Some(SPULL) {
        return 0;
    }
    let shift = match constant_input(data, right, 1) {
        Some(v) => v,
        None => return 0,
    };
    let bits = match constant_input(data, pull, 2) {
        Some(v) => v,
        None => return 0,
    };
    if bits == 0 || bits - 1 != shift {
        return 0;
    }
    if constant_input(data, and_op, 1) != Some(1u64) {
        return 0;
    }
    let and_out = match output(data, and_op) {
        Some(v) => v,
        None => return 0,
    };
    let pull_out = match output(data, pull) {
        Some(v) => v,
        None => return 0,
    };
    let readers = readers_of(data, and_out);
    let compare = match find_zero_test(data, &readers) {
        Some(c) => c,
        None => return 0,
    };
    let second = match input(data, compare, 1) {
        Some(v) => v,
        None => return 0,
    };
    if data.opcode_of(compare) == Some(INT_EQUAL) {
        data.op_set_opcode(compare, INT_LESSEQUAL);
        data.op_set_input(compare, second, 0);
        data.op_set_input(compare, pull_out, 1);
    } else {
        data.op_set_opcode(compare, INT_SLESS);
        data.op_set_input(compare, pull_out, 0);
    }
    let ghost mid = *data;
    destroy_dead_value(data, and_out);
    proof {
        assert(data.opn(compare) == mid.opn(compare) || data.opn(compare).dead);
    }
    1
}

/// The compare-against-zero of a sign-bit mask: `INT_AND(pull, 1 << (bits -
/// 1))` tested against zero, where `pull` is a signed pull of `bits` bits.
pub open spec fn sign_mask_plan(d: &Funcdata, and_op: OpId, pull: OpId) -> Option<OpId> {
    if live_opcode(d, pull) != Some(SPULL) || const_input(d, pull, 2) is None {
        None
    } else {
        let bits = const_input(d, pull, 2).unwrap();
        if bits == 0 || bits > 63 || const_input(d, and_op, 1) != Some((1u64 << ((bits - 1) as u64)) as u64) {
            None
        } else {
            match (d.opn(and_op).output, d.opn(pull).output) {
                (Some(and_out), Some(_)) => first_zero_test(d, d.vn(and_out).descendants@, 0),
                _ => None,
            }
        }
    }
}

/// A sign-bit mask of a signed pull tested against zero becomes a signed
/// comparison of the pulled value with a new zero.
fn absorb_pull_and(data: &mut Funcdata, and_op: OpId, pull: OpId) -> (changes: usize)
    requires
        old(data).wf(),
        old(data).valid_op(and_op),
        old(data).valid_op(pull),
    ensures
        final(data).wf(),
        arenas_grow(&*old(data), &*final(data)),
        changes == (if sign_mask_plan(&*old(data), and_op, pull) is Some && old(data).vns().len() < u32::MAX {
            1usize
        } else {
            0
        }),
        changes == 0 ==> *final(data) == *old(data),
        changes == 1 ==> {
            let c = sign_mask_plan(&*old(data), and_op, pull).unwrap();
            let pull_out = old(data).opn(pull).output.unwrap();
            let zero = VarnodeId(old(data).vns().len() as u32);
            &&& final(data).vn(zero).flags.constant
            &&& final(data).vn(zero).offset == 0
            &&& final(data).vn(zero).size == old(data).vn(pull_out).size
            &&& !final(data).opn(c).dead ==> if old(data).opn(c).opcode == INT_EQUAL {
                &&& final(data).opn(c).opcode == INT_SLESSEQUAL
                &&& final(data).opn(c).inputs@ == old(data).opn(c).inputs@.update(0, zero).update(1, pull_out)
            } else {
                &&& final(data).opn(c).opcode == INT_SLESS
                &&& final(data).opn(c).inputs@ == old(data).opn(c).inputs@.update(0, pull_out).update(1, zero)
            }
        },
{
    let ghost pre = *data;
    if data.opcode_of(pull) != Some(SPULL) {
        return 0;
    }
    let bits = match constant_input(data, pull, 2) {
        Some(v) => v,
        None => return 0,
    };
    if bits == 0 || bits > 63 {
        return 0;
    }
    let expected = 1u64 << (bits - 1);
    if constant_input(data, and_op, 1) != Some(expected) {
        return 0;
    }
    let and_out = match output(data, and_op) {
        Some(v) => v,
        None => return 0,
    };
    let pull_out = match output(data, pull) {
        Some(v) => v,
        None => return 0,
    };
    let readers = readers_of(data, and_out);
    let compare = match find_zero_test(data, &readers) {
        Some(c) => c,
        None => return 0,
    };
    if data.varnode_count() >= 0xFFFF_FFFF {
        return 0;
    }
    let zero = data.new_constant(0, data.varnode(pull_out).size);
    if data.opcode_of(compare) == Some(INT_EQUAL) {
        data.op_set_opcode(compare, INT_SLESSEQUAL);
        data.op_set_input(compare, zero, 0);
        data.op_set_input(compare, pull_out, 1);
    } else {
        data.op_set_opcode(compare, INT_SLESS);
        data.op_set_input(compare, pull_out, 0);
        data.op_set_input(compare, zero, 1);
    }
    let ghost mid = *data;
    destroy_dead_value(data, and_out);
    proof {
        assert(data.opn(compare) == mid.opn(compare) || data.opn(compare).dead);
        assert(mid.vn(zero).flags.constant && mid.vn(zero).offset == 0);
    }
    1
}

/// The first `INT_AND` among `list[i..]` whose sign-bit test
/// `absorb_pull_right_and_zero` can absorb.
pub open spec fn first_sign_test(d: &Funcdata, right: OpId, list: Seq<OpId>, pull: OpId, i: int) -> Option<OpId>
    decreases list.len() - i,
{
    if i < 0 || i >= list.len() {
        None
    } else if live_opcode(d, list[i]) == Some(INT_AND) && sign_test_plan(d, right, list[i], pull) is Some {
        Some(list[i])
    } else {
        first_sign_test(d, right, list, pull, i + 1)
    }
}

/// The `INT_AND` reading a right shift of a pull whose sign-bit test can be
/// absorbed.
pub open spec fn right_shift_plan(d: &Funcdata, right: OpId, pull: OpId) -> Option<OpId> {
    match d.opn(right).output {
        Some(out) => first_sign_test(d, right, d.vn(out).descendants@, pull, 0),
        None => None,
    }
}

/// Looks through the readers of a right shift of a pull for a sign-bit test
/// to absorb.
fn absorb_pull_right(data: &mut Funcdata, right: OpId, pull: OpId) -> (changes: usize)
    requires
        old(data).wf(),
        old(data).valid_op(right),
        old(data).valid_op(pull),
    ensures
        final(data).wf(),
        arenas_grow(&*old(data), &*final(data)),
        changes == (if right_shift_plan(&*old(data), right, pull) is Some {
            1usize
        } else {
            0
        }),
        changes == 0 ==> *final(data) == *old(data),
{
    let ghost pre = *data;
    let right_out = match output(data, right) {
        Some(v) => v,
        None => return 0,
    };
    let readers = readers_of(data, right_out);
    let mut i: usize = 0;
    while i < readers.len()
        invariant
            pre == *old(data),
            *data == pre,
            data.wf(),
            data.valid_op(right),
            data.valid_op(pull),
            data.opn(right).output == Some(right_out),
            readers@ == data.vn(right_out).descendants@,
            ops_below(readers@, data.opv().len() as int),
            i <= readers@.len(),
            first_sign_test(data, right, readers@, pull, 0) == first_sign_test(data, right, readers@, pull, i as int),
        decreases readers@.len() - i,
    {
        let and_op = readers[i];
        proof {
            assert(readers@[i as int].0 < data.opv().len());
        }
        if data.opcode_of(and_op) == Some(INT_AND) {
            let changed = absorb_pull_right_and_zero(data, right, and_op, pull);
            if changed != 0 {
                return changed;
            }
        }
        i += 1;
    }
    0
}

/// A right shift of a left shift of a pull that stays inside the pull's
/// container: equal amounts cancel, and unequal ones leave their difference.
pub enum ShiftPairRewrite {
    /// Every read of `old` reads `by` instead.
    Replace { old: VarnodeId, by: VarnodeId },
    /// The right shift shifts `by` by a new constant `amount`, with `opcode`.
    Reshift { opcode: i32, by: VarnodeId, amount: u64 },
}

/// The shift-pair rewrite for `right(left(pull))`, when it applies.
pub open spec fn shift_pair_plan(d: &Funcdata, right: OpId, left: OpId, pull: OpId) -> Option<ShiftPairRewrite> {
    let ls = const_input(d, left, 1);
    let rs = const_input(d, right, 1);
    let bits = const_input(d, pull, 2);
    let root = input_of(d, pull, 0);
    if ls is None || rs is None || bits is None || root is None {
        None
    } else if sat_add(ls.unwrap(), bits.unwrap()) > d.vn(root.unwrap()).size * 8 {
        None
    } else {
        match (d.opn(right).output, d.opn(left).output, d.opn(pull).output) {
            (Some(right_out), Some(_), Some(pull_out)) => if rs.unwrap() == ls.unwrap() {
                Some(ShiftPairRewrite::Replace { old: right_out, by: pull_out })
            } else if rs.unwrap() > ls.unwrap() {
                Some(ShiftPairRewrite::Reshift { opcode: INT_RIGHT, by: pull_out, amount: (rs.unwrap() - ls.unwrap()) as u64 })
            } else {
                Some(ShiftPairRewrite::Reshift { opcode: INT_LEFT, by: pull_out, amount: (ls.unwrap() - rs.unwrap()) as u64 })
            },
            _ => None,
        }
    }
}

/// Folds a left shift followed by a right shift of a pulled value.
fn absorb_pull_left_right(data: &mut Funcdata, right: OpId, left: OpId, pull: OpId) -> (changes: usize)
    requires
        old(data).wf(),
        old(data).valid_op(right),
        old(data).valid_op(left),
        old(data).valid_op(pull),
    ensures
        final(data).wf(),
        arenas_grow(&*old(data), &*final(data)),
        changes == (if shift_pair_plan(&*old(data), right, left, pull) matches Some(p) && (p is Reshift ==> old(data).vns().len() < u32::MAX) {
            1usize
        } else {
            0
        }),
        changes == 0 ==> *final(data) == *old(data),
        changes == 1 ==> match shift_pair_plan(&*old(data), right, left, pull).unwrap() {
            ShiftPairRewrite::Replace { old: replaced, by } => forall|o: OpId|
                #![trigger final(data).opn(o)]
                final(data).valid_op(o) && !final(data).opn(o).dead ==> final(data).opn(o).inputs@ == replace_in(
                    old(data).opn(o).inputs@,
                    replaced,
                    by,
                ),
            ShiftPairRewrite::Reshift { opcode, by, amount } => {
                let c = VarnodeId(old(data).vns().len() as u32);
                &&& final(data).vn(c).flags.constant
                &&& final(data).vn(c).offset == amount
                &&& final(data).vn(c).size == 4
                &&& !final(data).opn(right).dead ==> final(data).opn(right).opcode == opcode && final(data).opn(
                    right,
                ).inputs@ == old(data).opn(right).inputs@.update(0, by).update(1, c)
            },
        },
{
    let ghost pre = *data;
    let left_shift = match constant_input(data, left, 1) {
        Some(v) => v,
        None => return 0,
    };
    let right_shift = match constant_input(data, right, 1) {
        Some(v) => v,
        None => return 0,
    };
    let bits = match constant_input(data, pull, 2) {
        Some(v) => v,
        None => return 0,
    };
    let root = match input(data, pull, 0) {
        Some(v) => v,
        None => return 0,
    };
    let container_bits = data.varnode(root).size as u64 * 8;
    if saturating_add(left_shift, bits) > container_bits {
        return 0;
    }
    let right_out = match output(data, right) {
        Some(v) => v,
        None => return 0,
    };
    let left_out = match output(data, left) {
        Some(v) => v,
        None => return 0,
    };
    let pull_out = match output(data, pull) {
        Some(v) => v,
        None => return 0,
    };
    if right_shift == left_shift {
        data.total_replace(right_out, pull_out);
        let ghost mid = *data;
        destroy_dead_value(data, right_out);
        proof {
            assert forall|o: OpId| #![trigger data.opn(o)] data.valid_op(o) && !data.opn(o).dead implies data.opn(
                o,
            ).inputs@ == replace_in(pre.opn(o).inputs@, right_out, pull_out) by {
                assert(mid.valid_op(o));
            }
        }
    } else {
        if data.varnode_count() >= 0xFFFF_FFFF {
            return 0;
        }
        let (opcode, amount) = if right_shift > left_shift {
            (INT_RIGHT, right_shift - left_shift)
        } else {
            (INT_LEFT, left_shift - right_shift)
        };
        data.op_set_opcode(right, opcode);
        data.op_set_input(right, pull_out, 0);
        let amount_vn = data.new_constant(amount, 4);
        let ghost m2 = *data;
        data.op_set_input(right, amount_vn, 1);
        let ghost mid = *data;
        destroy_dead_value(data, left_out);
        proof {
            assert(mid.vn(amount_vn).flags.constant && mid.vn(amount_vn).offset == amount && mid.vn(amount_vn).size == 4);
            assert(data.opn(right) == mid.opn(right) || data.opn(right).dead);
        }
    }
    1
}

/// `c` is a live equality or inequality test against a constant whose low
/// `shift` bits are clear.
pub open spec fn shift_clean_test(d: &Funcdata, c: OpId, shift: u64) -> bool {
    &&& (live_opcode(d, c) == Some(INT_EQUAL) || live_opcode(d, c) == Some(INT_NOTEQUAL))
    &&& const_input(d, c, 1) matches Some(unshifted) && ((unshifted >> shift) << shift) == unshifted
}

/// The first such test among `list[i..]`.
pub open spec fn first_shift_clean(d: &Funcdata, list: Seq<OpId>, shift: u64, i: int) -> Option<OpId>
    decreases list.len() - i,
{
    if i < 0 || i >= list.len() {
        None
    } else if shift_clean_test(d, list[i], shift) {
        Some(list[i])
    } else {
        first_shift_clean(d, list, shift, i + 1)
    }
}

proof fn lemma_first_shift_clean_in(d: &Funcdata, list: Seq<OpId>, shift: u64, i: int)
    requires
        0 <= i,
    ensures
        first_shift_clean(d, list, shift, i) matches Some(c) ==> list.contains(c) && shift_clean_test(d, c, shift),
    decreases list.len() - i,
{
    if 0 <= i < list.len() {
        if shift_clean_test(d, list[i], shift) {
            assert(list[i] == list[i]);
        } else {
            lemma_first_shift_clean_in(d, list, shift, i + 1);
        }
    }
}

fn find_shift_clean(data: &Funcdata, list: &Vec<OpId>, shift: u64) -> (r: Option<OpId>)
    requires
        shift < 64,
        data.wf(),
        ops_below(list@, data.opv().len() as int),
    ensures
        r == first_shift_clean(data, list@, shift, 0),
        r matches Some(c) ==> data.valid_op(c) && shift_clean_test(data, c, shift),
{
    proof {
        lemma_first_shift_clean_in(data, list@, shift, 0);
    }
    let mut i: usize = 0;
    while i < list.len()
        invariant
            shift < 64,
            data.wf(),
            ops_below(list@, data.opv().len() as int),
            i <= list@.len(),
            first_shift_clean(data, list@, shift, 0) == first_shift_clean(data, list@, shift, i as int),
        decreases list@.len() - i,
    {
        let compare = list[i];
        proof {
            assert(list@[i as int].0 < data.opv().len());
        }
        let opcode = data.opcode_of(compare);
        if opcode == Some(INT_EQUAL) || opcode == Some(INT_NOTEQUAL) {
            if let Some(unshifted) = constant_input(data, compare, 1) {
                if (unshifted >> shift) << shift == unshifted {
                    return Some(compare);
                }
            }
        }
        i += 1;
    }
    None
}

/// A mask of a left shift tested against a constant with its low bits clear:
/// `INT_AND(left, mask)` compared with a constant, where `left` shifts by
/// less than 64.
pub open spec fn masked_shift_plan(d: &Funcdata, and_op: OpId, left: OpId) -> Option<OpId> {
    match (const_input(d, left, 1), const_input(d, and_op, 1), d.opn(and_op).output) {
        (Some(shift), Some(_), Some(and_out)) => if shift >= 64 {
            None
        } else {
            first_shift_clean(d, d.vn(and_out).descendants@, shift, 0)
        },
        _ => None,
    }
}

/// Moves a mask-and-compare below a left shift: the mask and the compared
/// constant are shifted right instead, and the mask reads the shift's
/// source.
fn absorb_pull_left_and(data: &mut Funcdata, and_op: OpId, left: OpId, pull: OpId) -> (changes: usize)
    requires
        old(data).wf(),
        old(data).valid_op(and_op),
        old(data).valid_op(left),
        old(data).valid_op(pull),
        old(data).opn(and_op).opcode == INT_AND,
        old(data).opn(left).opcode == INT_LEFT,
    ensures
        final(data).wf(),
        arenas_grow(&*old(data), &*final(data)),
        changes == (if masked_shift_plan(&*old(data), and_op, left) is Some && old(data).vns().len() < 0xFFFF_FFFE {
            1usize
        } else {
            0
        }),
        changes == 0 ==> *final(data) == *old(data),
        changes == 1 ==> {
            let shift = const_input(&*old(data), left, 1).unwrap();
            let mask = const_input(&*old(data), and_op, 1).unwrap();
            let m = VarnodeId(old(data).vns().len() as u32);
            &&& final(data).vn(m).flags.constant
            &&& final(data).vn(m).offset == mask >> shift
            &&& !final(data).opn(and_op).dead ==> final(data).opn(and_op).inputs@ == old(data).opn(
                and_op,
            ).inputs@.update(1, m).update(0, old(data).opn(left).inputs@[0])
        },
{
    let ghost pre = *data;
    let shift = match constant_input(data, left, 1) {
        Some(v) => v,
        None => return 0,
    };
    if shift >= 64 {
        return 0;
    }
    let mask_value = match constant_input(data, and_op, 1) {
        Some(v) => v,
        None => return 0,
    };
    let and_out = match output(data, and_op) {
        Some(v) => v,
        None => return 0,
    };
    let readers = readers_of(data, and_out);
    let compare = match find_shift_clean(data, &readers, shift) {
        Some(c) => c,
        None => return 0,
    };
    let compared = match input(data, compare, 1) {
        Some(v) => v,
        None => return 0,
    };
    let unshifted = match constant(data, compared) {
        Some(v) => v,
        None => return 0,
    };
    let shifted = unshifted >> shift;
    let mask_input = match input(data, and_op, 1) {
        Some(v) => v,
        None => return 0,
    };
    let left_source = match input(data, left, 0) {
        Some(v) => v,
        None => return 0,
    };
    if data.varnode_count() >= 0xFFFF_FFFE {
        return 0;
    }
    let mask_size = data.varnode(mask_input).size;
    let new_mask = data.new_constant(mask_value >> shift, mask_size);
    let ghost g1 = *data;
    data.op_set_input(and_op, new_mask, 1);
    let ghost g2 = *data;
    proof {
        assert(g2.vn(new_mask).offset == g1.vn(new_mask).offset && g2.vn(new_mask).flags == g1.vn(new_mask).flags);
        assert(g2.opn(and_op).inputs@ == pre.opn(and_op).inputs@.update(1, new_mask));
    }
    if shifted != unshifted {
        let new_value = data.new_constant(shifted, data.varnode(compared).size);
        let ghost g3 = *data;
        proof {
            assert(g3.vns().take(g2.vns().len() as int)[new_mask.0 as int] == g3.vn(new_mask));
            assert(g3.opn(and_op) == g2.opn(and_op));
        }
        data.op_set_input(compare, new_value, 1);
        proof {
            assert(data.vn(new_mask).offset == g3.vn(new_mask).offset && data.vn(new_mask).flags == g3.vn(new_mask).flags);
            assert(data.opn(and_op) == g3.opn(and_op));
        }
    }
    let ghost g4 = *data;
    data.op_set_input(and_op, left_source, 0);
    let ghost mid = *data;
    proof {
        assert(mid.vn(new_mask).offset == g4.vn(new_mask).offset && mid.vn(new_mask).flags == g4.vn(new_mask).flags);
    }
    match output(data, left) {
        Some(left_out) => {
            destroy_dead_value(data, left_out);
        },
        None => {},
    }
    proof {
        assert(mid.vn(new_mask).flags.constant && mid.vn(new_mask).offset == mask_value >> shift);
        assert(data.opn(and_op) == mid.opn(and_op) || data.opn(and_op).dead);
    }
    1
}

/// Whether an extension of a pulled value, of the pull's own signedness,
/// is its only reader: `(root, position, bits, pull opcode)` when so.
pub open spec fn ext_plan(d: &Funcdata, ext: OpId, pull: OpId) -> Option<(VarnodeId, VarnodeId, VarnodeId, i32)> {
    let pull_signed = live_opcode(d, pull) == Some(SPULL);
    let ext_signed = live_opcode(d, ext) == Some(INT_SEXT);
    if pull_signed != ext_signed {
        None
    } else {
        match input_of(d, ext, 0) {
            Some(value) => if d.vn(value).descendants@.len() != 1 || d.vn(value).descendants@[0] != ext {
                None
            } else {
                match (input_of(d, pull, 0), input_of(d, pull, 1), input_of(d, pull, 2), live_opcode(d, pull)) {
                    (Some(r), Some(p), Some(b), Some(opc)) => Some((r, p, b, opc)),
                    _ => None,
                }
            },
            None => None,
        }
    }
}

/// The pulled operation becomes the pull itself, reading the pull's
/// operands: `pull_opcode(root, position, bits)`.
pub open spec fn became_pull(post: &Funcdata, o: OpId, plan: (VarnodeId, VarnodeId, VarnodeId, i32)) -> bool {
    !post.opn(o).dead ==> post.opn(o).opcode == plan.3 && post.opn(o).inputs@ == seq![plan.0, plan.1, plan.2]
}

fn set_pull(data: &mut Funcdata, target: OpId, pull: OpId, opcode: i32)
    requires
        old(data).wf(),
        old(data).valid_op(target),
        old(data).valid_op(pull),
        old(data).opn(pull).inputs@.len() >= 3,
    ensures
        final(data).wf(),
        final(data).opn(target).opcode == opcode,
        final(data).opn(target).inputs@ == seq![
            old(data).opn(pull).inputs@[0],
            old(data).opn(pull).inputs@[1],
            old(data).opn(pull).inputs@[2],
        ],
        final(data).vns().len() == old(data).vns().len(),
        final(data).opv().len() == old(data).opv().len(),
        final(data).bls().len() == old(data).bls().len(),
{
    let root = input(data, pull, 0).unwrap();
    let position = input(data, pull, 1).unwrap();
    let bits = input(data, pull, 2).unwrap();
    data.op_set_opcode(target, opcode);
    let inputs = vec![root, position, bits];
    proof {
        assert(inputs@ =~= seq![root, position, bits]);
        assert forall|m: int| 0 <= m < inputs@.len() implies (#[trigger] inputs@[m]).0 < data.vns().len() by {}
    }
    data.op_set_inputs(target, inputs);
}

/// An extension that alone reads a pulled value of its signedness becomes
/// the pull.
fn absorb_pull_ext(data: &mut Funcdata, ext: OpId, pull: OpId) -> (changes: usize)
    requires
        old(data).wf(),
        old(data).valid_op(ext),
        old(data).valid_op(pull),
    ensures
        final(data).wf(),
        arenas_grow(&*old(data), &*final(data)),
        changes == (if ext_plan(&*old(data), ext, pull) is Some {
            1usize
        } else {
            0
        }),
        changes == 0 ==> *final(data) == *old(data),
        changes == 1 ==> became_pull(&*final(data), ext, ext_plan(&*old(data), ext, pull).unwrap()),
{
    let pull_signed = data.opcode_of(pull) == Some(SPULL);
    let ext_signed = data.opcode_of(ext) == Some(INT_SEXT);
    if pull_signed != ext_signed {
        return 0;
    }
    let value = match input(data, ext, 0) {
        Some(v) => v,
        None => return 0,
    };
    if data.lone_descend(value) != Some(ext) {
        return 0;
    }
    if input(data, pull, 0).is_none() || input(data, pull, 1).is_none() || input(data, pull, 2).is_none() {
        return 0;
    }
    let pull_opcode = match data.opcode_of(pull) {
        Some(o) => o,
        None => return 0,
    };
    set_pull(data, ext, pull, pull_opcode);
    let ghost mid = *data;
    destroy_dead_value(data, value);
    proof {
        assert(data.opn(ext) == mid.opn(ext) || data.opn(ext).dead);
    }
    1
}

/// Whether a truncation to the low bytes of a pulled value, wide enough for
/// the pulled bits, is the value's only reader.
pub open spec fn subpiece_plan(d: &Funcdata, sub: OpId, pull: OpId) -> Option<(VarnodeId, VarnodeId, VarnodeId, i32)> {
    if const_input(d, sub, 1) != Some(0u64) || const_input(d, pull, 2) is None || d.opn(sub).output is None {
        None
    } else if const_input(d, pull, 2).unwrap() > d.vn(d.opn(sub).output.unwrap()).size * 8 {
        None
    } else {
        match input_of(d, sub, 0) {
            Some(value) => if d.vn(value).descendants@.len() != 1 || d.vn(value).descendants@[0] != sub {
                None
            } else {
                match (input_of(d, pull, 0), input_of(d, pull, 1), input_of(d, pull, 2), live_opcode(d, pull)) {
                    (Some(r), Some(p), Some(b), Some(opc)) => Some((r, p, b, opc)),
                    _ => None,
                }
            },
            None => None,
        }
    }
}

/// A low truncation that alone reads a pulled value, and keeps all its bits,
/// becomes the pull.
fn absorb_pull_subpiece(data: &mut Funcdata, sub: OpId, pull: OpId) -> (changes: usize)
    requires
        old(data).wf(),
        old(data).valid_op(sub),
        old(data).valid_op(pull),
    ensures
        final(data).wf(),
        arenas_grow(&*old(data), &*final(data)),
        changes == (if subpiece_plan(&*old(data), sub, pull) is Some {
            1usize
        } else {
            0
        }),
        changes == 0 ==> *final(data) == *old(data),
        changes == 1 ==> became_pull(&*final(data), sub, subpiece_plan(&*old(data), sub, pull).unwrap()),
{
    if constant_input(data, sub, 1) != Some(0u64) {
        return 0;
    }
    let bits = match constant_input(data, pull, 2) {
        Some(v) => v,
        None => return 0,
    };
    let out = match output(data, sub) {
        Some(v) => v,
        None => return 0,
    };
    if bits > data.varnode(out).size as u64 * 8 {
        return 0;
    }
    let value = match input(data, sub, 0) {
        Some(v) => v,
        None => return 0,
    };
    if data.lone_descend(value) != Some(sub) {
        return 0;
    }
    if input(data, pull, 0).is_none() || input(data, pull, 1).is_none() || input(data, pull, 2).is_none() {
        return 0;
    }
    let pull_opcode = match data.opcode_of(pull) {
        Some(o) => o,
        None => return 0,
    };
    set_pull(data, sub, pull, pull_opcode);
    let ghost mid = *data;
    destroy_dead_value(data, value);
    proof {
        assert(data.opn(sub) == mid.opn(sub) || data.opn(sub).dead);
    }
    1
}

/// A one-byte temporary test of a one-bit zero-extended pull against zero,
/// read only by the test.
pub open spec fn bit_test_plan(d: &Funcdata, compare: OpId, pull: OpId) -> Option<VarnodeId> {
    match (input_of(d, compare, 1), input_of(d, compare, 0)) {
        (Some(second), Some(value)) => if const_of(d, second) != Some(0u64) || const_input(d, pull, 2) != Some(1u64)
            || live_opcode(d, pull) != Some(ZPULL) {
            None
        } else if d.vn(value).descendants@.len() != 1 || d.vn(value).descendants@[0] != compare || d.vn(value).size
            != 1 || !d.vn(value).flags.unique {
            None
        } else if input_of(d, pull, 0) is None || input_of(d, pull, 1) is None || input_of(d, pull, 2) is None {
            None
        } else if live_opcode(d, compare) == Some(INT_EQUAL) || live_opcode(d, compare) == Some(INT_NOTEQUAL) {
            Some(value)
        } else {
            None
        },
        _ => None,
    }
}

/// A bit test against zero absorbs the pull: equality becomes a negation of
/// the tested value, inequality the pull itself.
fn absorb_pull_comp_zero(data: &mut Funcdata, compare: OpId, pull: OpId) -> (changes: usize)
    requires
        old(data).wf(),
        old(data).valid_op(compare),
        old(data).valid_op(pull),
    ensures
        final(data).wf(),
        arenas_grow(&*old(data), &*final(data)),
        changes == (if bit_test_plan(&*old(data), compare, pull) is Some {
            1usize
        } else {
            0
        }),
        changes == 0 ==> *final(data) == *old(data),
        changes == 1 && old(data).opn(compare).opcode == INT_EQUAL && !final(data).opn(compare).dead ==> final(data).opn(compare).opcode == BOOL_NEGATE && final(data).opn(compare).inputs@ == seq![
            bit_test_plan(&*old(data), compare, pull).unwrap(),
        ],
        changes == 1 && old(data).opn(compare).opcode == INT_NOTEQUAL ==> became_pull(
            &*final(data),
            compare,
            (old(data).opn(pull).inputs@[0], old(data).opn(pull).inputs@[1], old(data).opn(pull).inputs@[2], ZPULL),
        ),
{
    let second = match input(data, compare, 1) {
        Some(v) => v,
        None => return 0,
    };
    if !is_zero(data, second) {
        return 0;
    }
    if constant_input(data, pull, 2) != Some(1u64) || data.opcode_of(pull) != Some(ZPULL) {
        return 0;
    }
    let value = match input(data, compare, 0) {
        Some(v) => v,
        None => return 0,
    };
    if data.lone_descend(value) != Some(compare) || data.varnode(value).size != 1 || !data.varnode(value).flags.unique {
        return 0;
    }
    let pull_opcode = match data.opcode_of(pull) {
        Some(o) => o,
        None => return 0,
    };
    if input(data, pull, 0).is_none() || input(data, pull, 1).is_none() || input(data, pull, 2).is_none() {
        return 0;
    }
    let opcode = data.opcode_of(compare);
    if opcode == Some(INT_EQUAL) {
        data.op_set_opcode(compare, BOOL_NEGATE);
        let inputs = vec![value];
        proof {
            assert(inputs@ =~= seq![value]);
            assert forall|m: int| 0 <= m < inputs@.len() implies (#[trigger] inputs@[m]).0 < data.vns().len() by {}
        }
        data.op_set_inputs(compare, inputs);
    } else if opcode == Some(INT_NOTEQUAL) {
        set_pull(data, compare, pull, pull_opcode);
    } else {
        return 0;
    }
    let ghost mid = *data;
    destroy_dead_value(data, value);
    proof {
        assert(data.opn(compare) == mid.opn(compare) || data.opn(compare).dead);
    }
    1
}

/// Whether one of the absorptions through the left shift `read` of a pull
/// applies to `candidate`, a reader of the shift.
pub open spec fn through_left_applies(d: &Funcdata, candidate: OpId, read: OpId, pull: OpId) -> bool {
    let opcode = live_opcode(d, candidate);
    if opcode == Some(INT_RIGHT) {
        shift_pair_plan(d, candidate, read, pull) matches Some(p) && (p is Reshift ==> d.vns().len() < u32::MAX)
    } else if opcode == Some(INT_AND) {
        masked_shift_plan(d, candidate, read) is Some && d.vns().len() < 0xFFFF_FFFE
    } else if opcode == Some(INT_SLESS) {
        pull_compare_plan(d, candidate, Some(read), pull) matches Some(p) && rewrite_fits(d, p)
    } else {
        false
    }
}

/// Whether such an absorption applies to one of `list[i..]`.
pub open spec fn any_through_left(d: &Funcdata, list: Seq<OpId>, read: OpId, pull: OpId, i: int) -> bool
    decreases list.len() - i,
{
    if i < 0 || i >= list.len() {
        false
    } else {
        through_left_applies(d, list[i], read, pull) || any_through_left(d, list, read, pull, i + 1)
    }
}

/// Whether an absorption applies to some reader of the left shift `read`.
pub open spec fn through_left_fires(d: &Funcdata, read: OpId, pull: OpId) -> bool {
    match d.opn(read).output {
        Some(v) => any_through_left(d, d.vn(v).descendants@, read, pull, 0),
        None => false,
    }
}

/// Tries the absorptions that go through a left shift of a pull, on each
/// reader of the shift in turn, until one applies.
fn absorb_through_left(data: &mut Funcdata, read: OpId, pull: OpId) -> (changes: usize)
    requires
        old(data).wf(),
        old(data).valid_op(read),
        old(data).valid_op(pull),
        old(data).opn(read).opcode == INT_LEFT,
    ensures
        final(data).wf(),
        arenas_grow(&*old(data), &*final(data)),
        changes == (if through_left_fires(&*old(data), read, pull) {
            1usize
        } else {
            0
        }),
        changes == 0 ==> *final(data) == *old(data),
{
    let ghost pre = *data;
    let next = match output(data, read) {
        Some(value) => readers_of(data, value),
        None => Vec::new(),
    };
    proof {
        if pre.opn(read).output is None {
            assert(!any_through_left(&pre, next@, read, pull, 0));
        }
    }
    let mut changed: usize = 0;
    let mut i: usize = 0;
    while i < next.len()
        invariant
            pre == *old(data),
            pre.wf(),
            *data == pre,
            ops_below(next@, pre.opv().len() as int),
            pre.valid_op(read),
            pre.valid_op(pull),
            pre.opn(read).opcode == INT_LEFT,
            i <= next@.len(),
            changed == 0,
            through_left_fires(&pre, read, pull) == any_through_left(&pre, next@, read, pull, i as int),
        decreases next@.len() - i,
    {
        let candidate = next[i];
        proof {
            assert(next@[i as int].0 < pre.opv().len());
        }
        let opcode = data.opcode_of(candidate);
        changed = if opcode == Some(INT_RIGHT) {
            absorb_pull_left_right(data, candidate, read, pull)
        } else if opcode == Some(INT_AND) {
            absorb_pull_left_and(data, candidate, read, pull)
        } else if opcode == Some(INT_SLESS) {
            absorb_pull_compare(data, candidate, Some(read), pull)
        } else {
            0
        };
        if changed != 0 {
            return changed;
        }
        i += 1;
    }
    changed
}

/// Whether one of the absorptions into the pull `pull` applies to `read`, a
/// reader of its result.
pub open spec fn pull_absorb_applies(d: &Funcdata, read: OpId, pull: OpId) -> bool {
    match live_opcode(d, read) {
        Some(opcode) => if opcode == INT_RIGHT || opcode == INT_SRIGHT {
            right_shift_plan(d, read, pull) is Some
        } else if opcode == INT_LEFT {
            through_left_fires(d, read, pull)
        } else if opcode == INT_AND {
            sign_mask_plan(d, read, pull) is Some && d.vns().len() < u32::MAX
        } else if opcode == INT_SLESS || opcode == INT_LESS {
            pull_compare_plan(d, read, None, pull) matches Some(p) && rewrite_fits(d, p)
        } else if opcode == INT_ZEXT || opcode == INT_SEXT {
            ext_plan(d, read, pull) is Some
        } else if opcode == SUBPIECE {
            subpiece_plan(d, read, pull) is Some
        } else if opcode == INT_EQUAL || opcode == INT_NOTEQUAL {
            bit_test_plan(d, read, pull) is Some
        } else {
            false
        },
        None => false,
    }
}

/// Whether such an absorption applies to one of `list[i..]`.
pub open spec fn any_pull_absorb(d: &Funcdata, list: Seq<OpId>, pull: OpId, i: int) -> bool
    decreases list.len() - i,
{
    if i < 0 || i >= list.len() {
        false
    } else {
        pull_absorb_applies(d, list[i], pull) || any_pull_absorb(d, list, pull, i + 1)
    }
}

/// Whether an absorption applies to some reader of the pull's result.
pub open spec fn pull_absorb_fires(d: &Funcdata, pull: OpId) -> bool {
    match d.opn(pull).output {
        Some(v) => any_pull_absorb(d, d.vn(v).descendants@, pull, 0),
        None => false,
    }
}

/// Simplifies the readers of a `ZPULL` or `SPULL`: shifts, masks, sign tests,
/// comparisons, extensions and truncations of the pulled value are absorbed
/// into the pull. These rewrites use only operation shape and widths.
pub struct RulePullAbsorb;

impl Rule for RulePullAbsorb {
    open spec fn title(&self) -> Seq<char> {
        "pull_absorb"@
    }

    fn name(&self) -> (r: &'static str) {
        "pull_absorb"
    }

    open spec fn reports(&self, op: OpId, pre: Funcdata, post: Funcdata, changes: usize) -> bool {
        changes == (if pull_absorb_fires(&pre, op) {
            1usize
        } else {
            0
        })
    }

    open spec fn opcodes(&self) -> Seq<i32> {
        seq![ZPULL, SPULL]
    }

    fn op_list(&self) -> (r: Vec<i32>)
        ensures
            r@ == seq![ZPULL, SPULL],
    {
        let mut r = Vec::new();
        r.push(ZPULL);
        r.push(SPULL);
        r
    }

    fn apply_op(&self, id: OpId, data: &mut Funcdata) -> (changes: usize)
        ensures
            changes == (if pull_absorb_fires(&*old(data), id) {
                1usize
            } else {
                0
            }),
            changes == 0 ==> *final(data) == *old(data),
    {
        let ghost pre = *data;
        let out = match output(data, id) {
            Some(v) => v,
            None => return 0,
        };
        let readers = readers_of(data, out);
        let mut i: usize = 0;
        while i < readers.len()
            invariant
                pre == *old(data),
                pre.wf(),
                *data == pre,
                ops_below(readers@, pre.opv().len() as int),
                pre.valid_op(id),
                i <= readers@.len(),
                pull_absorb_fires(&pre, id) == any_pull_absorb(&pre, readers@, id, i as int),
            decreases readers@.len() - i,
        {
            let read = readers[i];
            proof {
                assert(readers@[i as int].0 < pre.opv().len());
            }
            let opcode = match data.opcode_of(read) {
                Some(o) => o,
                None => {
                    i += 1;
                    continue;
                },
            };
            let changed = if opcode == INT_RIGHT || opcode == INT_SRIGHT {
                absorb_pull_right(data, read, id)
            } else if opcode == INT_LEFT {
                absorb_through_left(data, read, id)
            } else if opcode == INT_AND {
                absorb_pull_and(data, read, id)
            } else if opcode == INT_SLESS || opcode == INT_LESS {
                absorb_pull_compare(data, read, None, id)
            } else if opcode == INT_ZEXT || opcode == INT_SEXT {
                absorb_pull_ext(data, read, id)
            } else if opcode == SUBPIECE {
                absorb_pull_subpiece(data, read, id)
            } else if opcode == INT_EQUAL || opcode == INT_NOTEQUAL {
                absorb_pull_comp_zero(data, read, id)
            } else {
                0
            };
            if changed != 0 {
                return changed;
            }
            i += 1;
        }
        0
    }
}

/// The definition of a value, when it is written.
pub open spec fn def_of(d: &Funcdata, v: VarnodeId) -> Option<OpId> {
    d.vn(v).def
}

fn definition(data: &Funcdata, value: VarnodeId) -> (r: Option<OpId>)
    requires
        data.wf(),
        data.valid_vn(value),
    ensures
        r == def_of(data, value),
        r matches Some(o) ==> data.valid_op(o),
{
    proof {
        assert(data.vn_wf(value));
    }
    data.varnode(value).def
}

/// The width operand of an `INSERT`, when it is a constant that fits 32 bits.
pub open spec fn insert_bits_of(d: &Funcdata, insert: OpId) -> Option<u32> {
    match const_input(d, insert, 3) {
        Some(c) => if c <= u32::MAX {
            Some(c as u32)
        } else {
            None
        },
        None => None,
    }
}

fn insert_bits(data: &Funcdata, insert: OpId) -> (r: Option<u32>)
    requires
        data.wf(),
        data.valid_op(insert),
    ensures
        r == insert_bits_of(data, insert),
{
    match constant_input(data, insert, 3) {
        Some(c) => if c <= 0xFFFF_FFFF {
            Some(c as u32)
        } else {
            None
        },
        None => None,
    }
}

/// The value an `INSERT` operand slot holds once a redundant producer is
/// skipped: the insert reads `source` in slot 1, and the producer's result
/// `old` is left to cleanup.
pub open spec fn inserts_source(pre: &Funcdata, post: &Funcdata, insert: OpId, source: VarnodeId) -> bool {
    &&& !post.opn(insert).dead ==> post.opn(insert).inputs@ == pre.opn(insert).inputs@.update(1, source)
        && post.opn(insert).opcode == pre.opn(insert).opcode
    &&& forall|o: OpId|
        #![trigger post.opn(o)]
        post.valid_op(o) && o != insert && !post.opn(o).dead ==> post.opn(o) == pre.opn(o)
}

/// A mask that keeps every inserted bit, read by an insert: the source
/// before the mask, when the mask is redundant.
pub open spec fn insert_and_plan(d: &Funcdata, and_op: OpId, insert: OpId) -> Option<VarnodeId> {
    match (const_input(d, and_op, 1), insert_bits_of(d, insert), input_of(d, and_op, 0), d.opn(and_op).output) {
        (Some(mask_value), Some(bits), Some(source), Some(_)) => {
            let mask = low_mask_of(bits);
            if mask & mask_value != mask {
                None
            } else {
                Some(source)
            }
        },
        _ => None,
    }
}

/// A mask keeping every inserted bit is skipped: the insert reads the
/// mask's source.
fn absorb_insert_and(data: &mut Funcdata, and_op: OpId, insert: OpId) -> (changes: usize)
    requires
        old(data).wf(),
        old(data).valid_op(and_op),
        old(data).valid_op(insert),
        old(data).opn(insert).inputs@.len() >= 2,
    ensures
        final(data).wf(),
        arenas_grow(&*old(data), &*final(data)),
        changes == (if insert_and_plan(&*old(data), and_op, insert) is Some {
            1usize
        } else {
            0
        }),
        changes == 0 ==> *final(data) == *old(data),
        changes == 1 ==> inserts_source(&*old(data), &*final(data), insert, insert_and_plan(&*old(data), and_op, insert).unwrap()),
{
    let ghost pre = *data;
    let mask_value = match constant_input(data, and_op, 1) {
        Some(v) => v,
        None => return 0,
    };
    let mask = match insert_bits(data, insert) {
        Some(b) => low_mask(b),
        None => return 0,
    };
    if mask & mask_value != mask {
        return 0;
    }
    let source = match input(data, and_op, 0) {
        Some(v) => v,
        None => return 0,
    };
    let old = match output(data, and_op) {
        Some(v) => v,
        None => return 0,
    };
    data.op_set_input(insert, source, 1);
    let ghost mid = *data;
    destroy_dead_value(data, old);
    proof {
        assert(data.opn(insert) == mid.opn(insert) || data.opn(insert).dead);
        assert forall|o: OpId| #![trigger data.opn(o)] data.valid_op(o) && o != insert && !data.opn(o).dead implies data.opn(
            o,
        ) == pre.opn(o) by {
            assert(mid.opn(o) == pre.opn(o));
        }
    }
    1
}

/// The left shift under a right shift read by an insert: `next` itself, or
/// the shift below a truncation to the low bytes.
pub open spec fn left_under(d: &Funcdata, next: OpId) -> Option<OpId> {
    if live_opcode(d, next) == Some(INT_LEFT) {
        Some(next)
    } else if const_input(d, next, 1) != Some(0u64) {
        None
    } else {
        match input_of(d, next, 0) {
            Some(sub_input) => match def_of(d, sub_input) {
                Some(l) => if live_opcode(d, l) == Some(INT_LEFT) {
                    Some(l)
                } else {
                    None
                },
                None => None,
            },
            None => None,
        }
    }
}

/// `a - b`, stopping at zero.
pub open spec fn sat_sub(a: u64, b: u64) -> u64 {
    if a < b {
        0
    } else {
        (a - b) as u64
    }
}

/// A right shift undoing a left shift by the same amount, read by an insert
/// that keeps no more bits than survive both: the left shift's source.
pub open spec fn right_left_plan(d: &Funcdata, next: OpId, right: OpId, insert: OpId) -> Option<VarnodeId> {
    match left_under(d, next) {
        Some(left) => match (const_input(d, left, 1), const_input(d, right, 1), const_input(d, insert, 3), input_of(
            d,
            insert,
            1,
        )) {
            (Some(la), Some(ra), Some(bits), Some(insert_value)) => if la != ra || bits > sat_sub(
                (d.vn(insert_value).size * 8) as u64,
                la,
            ) {
                None
            } else {
                match (d.opn(right).output, input_of(d, left, 0)) {
                    (Some(_), Some(source)) => Some(source),
                    _ => None,
                }
            },
            _ => None,
        },
        None => None,
    }
}

/// A right shift that undoes a left shift, read by an insert, is skipped:
/// the insert reads the left shift's source.
fn absorb_insert_right_left(data: &mut Funcdata, next: OpId, right: OpId, insert: OpId) -> (changes: usize)
    requires
        old(data).wf(),
        old(data).valid_op(next),
        old(data).valid_op(right),
        old(data).valid_op(insert),
        old(data).opn(insert).inputs@.len() >= 2,
    ensures
        final(data).wf(),
        arenas_grow(&*old(data), &*final(data)),
        changes == (if right_left_plan(&*old(data), next, right, insert) is Some {
            1usize
        } else {
            0
        }),
        changes == 0 ==> *final(data) == *old(data),
        changes == 1 ==> inserts_source(
            &*old(data),
            &*final(data),
            insert,
            right_left_plan(&*old(data), next, right, insert).unwrap(),
        ),
{
    let ghost pre = *data;
    let left = if data.opcode_of(next) == Some(INT_LEFT) {
        next
    } else {
        if constant_input(data, next, 1) != Some(0u64) {
            return 0;
        }
        let sub_input = match input(data, next, 0) {
            Some(v) => v,
            None => return 0,
        };
        let l = match definition(data, sub_input) {
            Some(o) => o,
            None => return 0,
        };
        if data.opcode_of(l) != Some(INT_LEFT) {
            return 0;
        }
        l
    };
    let left_amount = match constant_input(data, left, 1) {
        Some(v) => v,
        None => return 0,
    };
    let right_amount = match constant_input(data, right, 1) {
        Some(v) => v,
        None => return 0,
    };
    if left_amount != right_amount {
        return 0;
    }
    let bits = match constant_input(data, insert, 3) {
        Some(v) => v,
        None => return 0,
    };
    let insert_value = match input(data, insert, 1) {
        Some(v) => v,
        None => return 0,
    };
    let room = data.varnode(insert_value).size as u64 * 8;
    let room = if room < left_amount { 0 } else { room - left_amount };
    if bits > room {
        return 0;
    }
    let old = match output(data, right) {
        Some(v) => v,
        None => return 0,
    };
    let source = match input(data, left, 0) {
        Some(v) => v,
        None => return 0,
    };
    data.op_set_input(insert, source, 1);
    let ghost mid = *data;
    destroy_dead_value(data, old);
    proof {
        assert(data.opn(insert) == mid.opn(insert) || data.opn(insert).dead);
        assert forall|o: OpId| #![trigger data.opn(o)] data.valid_op(o) && o != insert && !data.opn(o).dead implies data.opn(
            o,
        ) == pre.opn(o) by {
            assert(mid.opn(o) == pre.opn(o));
        }
    }
    1
}

/// The value shifted left by `shift` bits to give `value`: by a left shift
/// of that amount, or a multiplication by that power of two.
pub open spec fn left_shift_source(d: &Funcdata, value: VarnodeId, shift: u32) -> Option<VarnodeId> {
    match def_of(d, value) {
        Some(def) => match (const_input(d, def, 1), live_opcode(d, def)) {
            (Some(amount), Some(opcode)) => {
                let expected: Option<u64> = if opcode == INT_MULT && shift < 64 {
                    Some((1u64 << (shift as u64)) as u64)
                } else if opcode == INT_LEFT {
                    Some(shift as u64)
                } else {
                    None
                };
                if expected == Some(amount) {
                    input_of(d, def, 0)
                } else {
                    None
                }
            },
            _ => None,
        },
        None => None,
    }
}

fn left_shift_varnode(data: &Funcdata, value: VarnodeId, shift: u32) -> (r: Option<VarnodeId>)
    requires
        data.wf(),
        data.valid_vn(value),
    ensures
        r == left_shift_source(data, value, shift),
        r matches Some(v) ==> data.valid_vn(v),
{
    let def = match definition(data, value) {
        Some(o) => o,
        None => return None,
    };
    let amount = match constant_input(data, def, 1) {
        Some(a) => a,
        None => return None,
    };
    let opcode = match data.opcode_of(def) {
        Some(o) => o,
        None => return None,
    };
    let expected = if opcode == INT_MULT && shift < 64 {
        1u64 << shift
    } else if opcode == INT_LEFT {
        shift as u64
    } else {
        return None;
    };
    if amount == expected {
        input(data, def, 0)
    } else {
        None
    }
}

/// The sum below a right shift whose two terms are shifted left by the same
/// amount (or are a constant with clear low bits): the right shift can add
/// the unshifted terms instead. `Some((first, second, new_constant))`, where
/// `second` is `None` when a new constant must stand for it.
pub open spec fn shift_add_plan(d: &Funcdata, right: OpId, add: OpId, insert: OpId) -> Option<(VarnodeId, Option<VarnodeId>, u64)> {
    match (const_input(d, right, 1), input_of(d, add, 0)) {
        (Some(shift), Some(first_input)) => if shift == 0 || shift >= 64 {
            None
        } else {
            match left_shift_source(d, first_input, shift as u32) {
                Some(first) => {
                    let second: Option<(Option<VarnodeId>, u64)> = match const_input(d, add, 1) {
                        Some(value) => if (value >> shift) << shift != value {
                            None
                        } else {
                            Some((None, value >> shift))
                        },
                        None => match input_of(d, add, 1) {
                            Some(second_input) => match left_shift_source(d, second_input, shift as u32) {
                                Some(v) => Some((Some(v), 0u64)),
                                None => None,
                            },
                            None => None,
                        },
                    };
                    match (second, const_input(d, insert, 3), d.opn(add).output) {
                        (Some((s, c)), Some(bits), Some(_)) => if bits > sat_sub((d.vn(first).size * 8) as u64, shift) {
                            None
                        } else {
                            Some((first, s, c))
                        },
                        _ => None,
                    }
                },
                None => None,
            }
        },
        _ => None,
    }
}

/// A right shift of a sum of left-shifted terms becomes the sum of the
/// unshifted terms.
fn absorb_insert_shift_add(data: &mut Funcdata, right: OpId, add: OpId, insert: OpId) -> (changes: usize)
    requires
        old(data).wf(),
        old(data).valid_op(right),
        old(data).valid_op(add),
        old(data).valid_op(insert),
    ensures
        final(data).wf(),
        arenas_grow(&*old(data), &*final(data)),
        changes <= 1,
        changes == 1 <==> shift_add_plan(&*old(data), right, add, insert) is Some && old(data).vns().len() < u32::MAX,
        changes == 0 ==> final(data).opv() == old(data).opv() && final(data).bls() == old(data).bls(),
        changes == 1 ==> {
            let p = shift_add_plan(&*old(data), right, add, insert).unwrap();
            !final(data).opn(right).dead ==> final(data).opn(right).opcode == INT_ADD && final(data).opn(
                right,
            ).inputs@[0] == p.0 && final(data).opn(right).inputs@.len() == 2
                && (p.1 matches Some(v) ==> final(data).opn(right).inputs@[1] == v)
        },
{
    let ghost pre = *data;
    let shift = match constant_input(data, right, 1) {
        Some(v) => v,
        None => return 0,
    };
    if shift == 0 || shift >= 64 {
        return 0;
    }
    let first_input = match input(data, add, 0) {
        Some(v) => v,
        None => return 0,
    };
    let first = match left_shift_varnode(data, first_input, shift as u32) {
        Some(v) => v,
        None => return 0,
    };
    if data.varnode_count() >= 0xFFFF_FFFF {
        return 0;
    }
    let second = match constant_input(data, add, 1) {
        Some(value) => {
            if (value >> shift) << shift != value {
                return 0;
            }
            data.new_constant(value >> shift, data.varnode(first).size)
        },
        None => {
            let second_input = match input(data, add, 1) {
                Some(v) => v,
                None => return 0,
            };
            match left_shift_varnode(data, second_input, shift as u32) {
                Some(v) => v,
                None => return 0,
            }
        },
    };
    let ghost g1 = *data;
    proof {
        assert(g1.opv() == pre.opv());
        assert(pre.op_wf(insert));
        if input_of(&pre, insert, 3) is Some {
            let v = input_of(&pre, insert, 3).unwrap();
            assert(v.0 < pre.vns().len());
            assert(g1.vns().take(pre.vns().len() as int)[v.0 as int] == g1.vn(v));
        }
        assert(g1.vns().take(pre.vns().len() as int)[first.0 as int] == g1.vn(first));
    }
    let bits = match constant_input(data, insert, 3) {
        Some(v) => v,
        None => return 0,
    };
    let room = data.varnode(first).size as u64 * 8;
    let room = if room < shift { 0 } else { room - shift };
    if bits > room {
        return 0;
    }
    let old = match output(data, add) {
        Some(v) => v,
        None => return 0,
    };
    data.op_set_opcode(right, INT_ADD);
    let inputs = vec![first, second];
    proof {
        assert(inputs@ =~= seq![first, second]);
        assert forall|m: int| 0 <= m < inputs@.len() implies (#[trigger] inputs@[m]).0 < data.vns().len() by {}
    }
    data.op_set_inputs(right, inputs);
    let ghost mid = *data;
    destroy_dead_value(data, old);
    proof {
        assert(data.opn(right) == mid.opn(right) || data.opn(right).dead);
    }
    1
}

/// The number of one bits in `x`.
pub open spec fn ones(x: u64) -> nat
    decreases x,
{
    if x == 0 {
        0
    } else {
        (x % 2) as nat + ones(x / 2)
    }
}

fn count_ones(x: u64) -> (r: u32)
    ensures
        r == ones(x),
{
    proof {
        vstd::arithmetic::power2::lemma2_to64();
        lemma_ones_bits(x, 64);
    }
    let mut rest = x;
    let mut count: u32 = 0;
    while rest != 0
        invariant
            count + ones(rest) == ones(x),
            ones(x) <= 64,
        decreases rest,
    {
        proof {
            assert(rest & 1 == rest % 2) by (bit_vector);
            assert(rest >> 1 == rest / 2) by (bit_vector);
        }
        count = count + (rest & 1) as u32;
        rest = rest >> 1;
    }
    count
}

proof fn lemma_ones_bits(x: u64, n: nat)
    requires
        x < vstd::arithmetic::power2::pow2(n),
    ensures
        ones(x) <= n,
    decreases n,
{
    if x != 0 {
        if n == 0 {
            vstd::arithmetic::power2::lemma2_to64();
            assert(false);
        } else {
            vstd::arithmetic::power2::lemma_pow2_unfold(n);
            assert((x / 2) < vstd::arithmetic::power2::pow2((n - 1) as nat));
            lemma_ones_bits(x / 2, (n - 1) as nat);
        }
    }
}

/// The source under a low mask feeding operand `slot` of `base`: the mask
/// `INT_AND(source, m)` keeps a run of at least `bits` low bits.
pub open spec fn low_mask_source(d: &Funcdata, base: OpId, slot: int, bits: u32) -> Option<VarnodeId> {
    match input_of(d, base, slot) {
        Some(value) => match def_of(d, value) {
            Some(and_op) => if live_opcode(d, and_op) != Some(INT_AND) {
                None
            } else {
                match (const_input(d, and_op, 1), input_of(d, and_op, 0), d.opn(and_op).output) {
                    (Some(mask), Some(source), Some(_)) => if mask == 0 || mask & 1 == 0 || mask != low_mask_of(
                        ones(mask) as u32,
                    ) || ones(mask) < bits {
                        None
                    } else {
                        Some(source)
                    },
                    _ => None,
                }
            },
            None => None,
        },
        None => None,
    }
}

/// The operand slot of `base`, read only by `insert`, whose low mask is
/// redundant for the insert, with the mask's source.
pub open spec fn nested_and_plan(d: &Funcdata, base: OpId, insert: OpId) -> Option<(usize, VarnodeId)> {
    match (d.opn(base).output, insert_bits_of(d, insert)) {
        (Some(base_out), Some(bits)) => if d.vn(base_out).descendants@.len() != 1 || d.vn(base_out).descendants@[0]
            != insert {
            None
        } else if low_mask_source(d, base, 0, bits) is Some {
            Some((0usize, low_mask_source(d, base, 0, bits).unwrap()))
        } else if low_mask_source(d, base, 1, bits) is Some {
            Some((1usize, low_mask_source(d, base, 1, bits).unwrap()))
        } else {
            None
        },
        _ => None,
    }
}

fn mask_source_at(data: &Funcdata, base: OpId, slot: usize, bits: u32) -> (r: Option<VarnodeId>)
    requires
        data.wf(),
        data.valid_op(base),
    ensures
        r == low_mask_source(data, base, slot as int, bits),
        r matches Some(v) ==> data.valid_vn(v),
{
    let value = match input(data, base, slot) {
        Some(v) => v,
        None => return None,
    };
    let and_op = match definition(data, value) {
        Some(o) => o,
        None => return None,
    };
    if data.opcode_of(and_op) != Some(INT_AND) {
        return None;
    }
    let mask_value = match constant_input(data, and_op, 1) {
        Some(v) => v,
        None => return None,
    };
    let mask_bits = count_ones(mask_value);
    if mask_value == 0 || mask_value & 1 == 0 || mask_value != low_mask(mask_bits) || mask_bits < bits {
        return None;
    }
    let source = match input(data, and_op, 0) {
        Some(v) => v,
        None => return None,
    };
    match output(data, and_op) {
        Some(_) => Some(source),
        None => None,
    }
}

/// A low mask under an arithmetic or logical operation that only an insert
/// reads is redundant when it keeps every inserted bit: the operation reads
/// the mask's source instead.
fn absorb_insert_nested_and(data: &mut Funcdata, base: OpId, insert: OpId) -> (changes: usize)
    requires
        old(data).wf(),
        old(data).valid_op(base),
        old(data).valid_op(insert),
    ensures
        final(data).wf(),
        arenas_grow(&*old(data), &*final(data)),
        changes == (if nested_and_plan(&*old(data), base, insert) is Some {
            1usize
        } else {
            0
        }),
        changes == 0 ==> *final(data) == *old(data),
        changes == 1 ==> {
            let p = nested_and_plan(&*old(data), base, insert).unwrap();
            !final(data).opn(base).dead ==> final(data).opn(base).inputs@ == old(data).opn(base).inputs@.update(
                p.0 as int,
                p.1,
            )
        },
{
    let ghost pre = *data;
    let base_out = match output(data, base) {
        Some(v) => v,
        None => return 0,
    };
    if data.lone_descend(base_out) != Some(insert) {
        return 0;
    }
    let bits = match insert_bits(data, insert) {
        Some(b) => b,
        None => return 0,
    };
    let (slot, source) = match mask_source_at(data, base, 0, bits) {
        Some(v) => (0usize, v),
        None => match mask_source_at(data, base, 1, bits) {
            Some(v) => (1usize, v),
            None => return 0,
        },
    };
    let value = input(data, base, slot).unwrap();
    let and_op = definition(data, value).unwrap();
    let old = output(data, and_op).unwrap();
    data.op_set_input(base, source, slot);
    let ghost mid = *data;
    destroy_dead_value(data, old);
    proof {
        assert(data.opn(base) == mid.opn(base) || data.opn(base).dead);
    }
    1
}

/// Whether one of the absorptions into the `INSERT` `insert` applies to the
/// right shift `right` that produces the inserted value.
pub open spec fn shifted_insert_applies(d: &Funcdata, right: OpId, insert: OpId) -> bool {
    &&& const_input(d, right, 1) is Some
    &&& match input_of(d, right, 0) {
        Some(source) => match def_of(d, source) {
            Some(next) => if live_opcode(d, next) == Some(INT_ADD) {
                shift_add_plan(d, right, next, insert) is Some && d.vns().len() < u32::MAX
            } else if live_opcode(d, next) == Some(INT_LEFT) || live_opcode(d, next) == Some(SUBPIECE) {
                right_left_plan(d, next, right, insert) is Some
            } else {
                false
            },
            None => false,
        },
        None => false,
    }
}

/// Whether one of the absorptions into the `INSERT` `insert` applies to the
/// operation that defines its inserted value.
pub open spec fn insert_absorb_fires(d: &Funcdata, insert: OpId) -> bool {
    match input_of(d, insert, 1) {
        Some(value) => match def_of(d, value) {
            Some(def) => match live_opcode(d, def) {
                Some(opcode) => if opcode == SUBPIECE {
                    const_input(d, def, 1) == Some(0u64) && input_of(d, def, 0) is Some
                } else if opcode == INT_RIGHT || opcode == INT_SRIGHT {
                    shifted_insert_applies(d, def, insert)
                } else if opcode == INT_AND {
                    insert_and_plan(d, def, insert) is Some
                } else if opcode == INT_ADD || opcode == INT_OR || opcode == INT_XOR || opcode == INT_MULT {
                    nested_and_plan(d, def, insert) is Some
                } else {
                    false
                },
                None => false,
            },
            None => false,
        },
        None => false,
    }
}

/// Simplifies the value an `INSERT` inserts: a truncation to the low bytes,
/// a redundant mask, a right shift undoing a left shift, or a right shift of
/// a sum of left-shifted terms feeding it is absorbed.
pub struct RuleInsertAbsorb;

impl Rule for RuleInsertAbsorb {
    open spec fn title(&self) -> Seq<char> {
        "insert_absorb"@
    }

    fn name(&self) -> (r: &'static str) {
        "insert_absorb"
    }

    open spec fn reports(&self, op: OpId, pre: Funcdata, post: Funcdata, changes: usize) -> bool {
        changes == (if insert_absorb_fires(&pre, op) {
            1usize
        } else {
            0
        })
    }

    open spec fn opcodes(&self) -> Seq<i32> {
        seq![INSERT]
    }

    fn op_list(&self) -> (r: Vec<i32>)
        ensures
            r@ == seq![INSERT],
    {
        let mut r = Vec::new();
        r.push(INSERT);
        r
    }

    fn apply_op(&self, id: OpId, data: &mut Funcdata) -> (changes: usize)
        ensures
            changes == (if insert_absorb_fires(&*old(data), id) {
                1usize
            } else {
                0
            }),
            changes == 0 ==> final(data).opv() == old(data).opv() && final(data).bls() == old(data).bls(),
    {
        let value = match input(data, id, 1) {
            Some(v) => v,
            None => return 0,
        };
        let insert_definition = match definition(data, value) {
            Some(o) => o,
            None => return 0,
        };
        let opcode = match data.opcode_of(insert_definition) {
            Some(o) => o,
            None => return 0,
        };
        if opcode == SUBPIECE {
            if constant_input(data, insert_definition, 1) != Some(0u64) {
                return 0;
            }
            let source = match input(data, insert_definition, 0) {
                Some(v) => v,
                None => return 0,
            };
            data.op_set_input(id, source, 1);
            destroy_dead_value(data, value);
            1
        } else if opcode == INT_RIGHT || opcode == INT_SRIGHT {
            if constant_input(data, insert_definition, 1).is_none() {
                return 0;
            }
            let source = match input(data, insert_definition, 0) {
                Some(v) => v,
                None => return 0,
            };
            let next = match definition(data, source) {
                Some(o) => o,
                None => return 0,
            };
            let next_opcode = data.opcode_of(next);
            if next_opcode == Some(INT_ADD) {
                absorb_insert_shift_add(data, insert_definition, next, id)
            } else if next_opcode == Some(INT_LEFT) || next_opcode == Some(SUBPIECE) {
                absorb_insert_right_left(data, next, insert_definition, id)
            } else {
                0
            }
        } else if opcode == INT_AND {
            absorb_insert_and(data, insert_definition, id)
        } else if opcode == INT_ADD || opcode == INT_OR || opcode == INT_XOR || opcode == INT_MULT {
            absorb_insert_nested_and(data, insert_definition, id)
        } else {
            0
        }
    }
}

/// The number of trailing zero bits of a non-zero `x`.
pub open spec fn tz(x: u64) -> nat
    decreases x,
{
    if x == 0 || x % 2 == 1 {
        0
    } else {
        1 + tz(x / 2)
    }
}

proof fn lemma_tz_bound(x: u64, n: nat)
    requires
        x != 0,
        x < vstd::arithmetic::power2::pow2(n),
    ensures
        tz(x) < n,
    decreases n,
{
    if x % 2 == 0 {
        if n == 0 {
            vstd::arithmetic::power2::lemma2_to64();
            assert(false);
        } else {
            vstd::arithmetic::power2::lemma_pow2_unfold(n);
            lemma_tz_bound(x / 2, (n - 1) as nat);
        }
    } else if n == 0 {
        vstd::arithmetic::power2::lemma2_to64();
    }
}

fn trailing_zeros(x: u64) -> (r: u32)
    requires
        x != 0,
    ensures
        r == tz(x),
        r < 64,
{
    proof {
        vstd::arithmetic::power2::lemma2_to64();
        lemma_tz_bound(x, 64);
    }
    let mut rest = x;
    let mut count: u32 = 0;
    while rest & 1 == 0
        invariant
            rest != 0,
            count + tz(rest) == tz(x),
            tz(x) < 64,
        decreases rest,
    {
        proof {
            assert(rest & 1 == rest % 2) by (bit_vector);
            assert(rest >> 1 == rest / 2) by (bit_vector);
            assert(rest % 2 == 0 && rest != 0 ==> rest / 2 != 0);
        }
        count = count + 1;
        rest = rest >> 1;
    }
    proof {
        assert(rest & 1 == rest % 2) by (bit_vector);
    }
    count
}

/// A run of bits: `bits` bits from position `pos`.
#[derive(Copy, Clone, Debug, PartialEq, Eq, Structural)]
pub struct BitRange {
    pub pos: u32,
    pub bits: u32,
}

/// `a * b`, saturating at the top of `u32`.
pub open spec fn sat_mul32(a: u32, b: u32) -> u32 {
    if a * b > u32::MAX {
        u32::MAX
    } else {
        (a * b) as u32
    }
}

/// `a + b`, saturating at the top of `u32`.
pub open spec fn sat_add32(a: u32, b: u32) -> u32 {
    if a + b > u32::MAX {
        u32::MAX
    } else {
        (a + b) as u32
    }
}

/// The single run of ones of `mask`, clipped to a value `size` bytes wide,
/// when the clipped mask is one non-empty run inside the value.
pub open spec fn contiguous(mask: u64, size: u32) -> Option<BitRange> {
    let width = sat_mul32(size, 8);
    let clipped = mask & full_mask_of(size);
    if clipped == 0 {
        None
    } else {
        let pos = tz(clipped) as u32;
        let bits = ones(clipped) as u32;
        if sat_add32(pos, bits) > width || clipped != (low_mask_of(bits) << (pos as u64)) {
            None
        } else {
            Some(BitRange { pos, bits })
        }
    }
}

fn contiguous_range(mask: u64, size: u32) -> (r: Option<BitRange>)
    ensures
        r == contiguous(mask, size),
{
    let width: u32 = if size > 0x1FFF_FFFF { u32::MAX } else { size * 8 };
    let clipped = mask & full_mask(size);
    if clipped == 0 {
        return None;
    }
    let pos = trailing_zeros(clipped);
    let bits = count_ones(clipped);
    let end: u32 = if pos > u32::MAX - bits { u32::MAX } else { pos + bits };
    if end > width || clipped != low_mask(bits) << pos {
        return None;
    }
    Some(BitRange { pos, bits })
}

/// A field extraction: `bits` bits from position `pos` of `root`.
#[derive(Copy, Clone, Debug, PartialEq, Eq, Structural)]
pub struct ExtractSpec {
    pub root: VarnodeId,
    pub pos: u32,
    pub bits: u32,
    pub signed: bool,
}

/// The value and constant mask of an `INT_AND`: the constant may be either
/// operand, the second checked first.
pub open spec fn and_operands(d: &Funcdata, id: OpId) -> Option<(VarnodeId, VarnodeId)> {
    match (input_of(d, id, 0), input_of(d, id, 1)) {
        (Some(left), Some(right)) => if const_of(d, right) is Some {
            Some((left, right))
        } else if const_of(d, left) is Some {
            Some((right, left))
        } else {
            None
        },
        _ => None,
    }
}

fn and_operands_exec(data: &Funcdata, id: OpId) -> (r: Option<(VarnodeId, VarnodeId)>)
    requires
        data.wf(),
        data.valid_op(id),
    ensures
        r == and_operands(data, id),
        r matches Some(p) ==> data.valid_vn(p.0) && data.valid_vn(p.1),
{
    match (input(data, id, 0), input(data, id, 1)) {
        (Some(left), Some(right)) => if constant(data, right).is_some() {
            Some((left, right))
        } else if constant(data, left).is_some() {
            Some((right, left))
        } else {
            None
        },
        _ => None,
    }
}

/// The field extraction operation `id` performs: a mask of a right shift, a
/// right shift of a mask, a mask alone, or a copy of any of these, each
/// keeping one contiguous run at the shift amount and one width throughout.
/// `n` bounds the copies followed.
pub open spec fn extract_of(d: &Funcdata, id: OpId, n: nat) -> Option<ExtractSpec>
    decreases n,
{
    let op = d.opn(id);
    match op.output {
        None => None,
        Some(out) => if op.opcode == INT_AND {
            match and_operands(d, id) {
                None => None,
                Some((value, mask_value)) => {
                    let mask = const_of(d, mask_value).unwrap();
                    let shift_def = def_of(d, value);
                    if shift_def is Some && (live_opcode(d, shift_def.unwrap()) == Some(INT_RIGHT) || live_opcode(
                        d,
                        shift_def.unwrap(),
                    ) == Some(INT_SRIGHT)) {
                        let shift = shift_def.unwrap();
                        match (const_input(d, shift, 1), input_of(d, shift, 0), contiguous(mask, d.vn(out).size)) {
                            (Some(amount), Some(source), Some(range)) => if (amount as u32) != range.pos || d.vn(
                                source,
                            ).size != d.vn(out).size {
                                None
                            } else {
                                Some(
                                    ExtractSpec {
                                        root: source,
                                        pos: amount as u32,
                                        bits: range.bits,
                                        signed: live_opcode(d, shift) == Some(INT_SRIGHT),
                                    },
                                )
                            },
                            _ => None,
                        }
                    } else {
                        match contiguous(mask, d.vn(value).size) {
                            Some(range) => if d.vn(value).size == d.vn(out).size {
                                Some(ExtractSpec { root: value, pos: range.pos, bits: range.bits, signed: false })
                            } else {
                                None
                            },
                            None => None,
                        }
                    }
                },
            }
        } else if op.opcode == INT_RIGHT || op.opcode == INT_SRIGHT {
            match (input_of(d, id, 0), const_input(d, id, 1)) {
                (Some(source), Some(amount)) => match def_of(d, source) {
                    Some(and_op) => if live_opcode(d, and_op) != Some(INT_AND) {
                        None
                    } else {
                        match and_operands(d, and_op) {
                            Some((root, mask_value)) => match contiguous(const_of(d, mask_value).unwrap(), d.vn(root).size) {
                                Some(range) => if range.pos != (amount as u32) || d.vn(root).size != d.vn(out).size
                                    || range.bits == 0 {
                                    None
                                } else {
                                    Some(
                                        ExtractSpec {
                                            root,
                                            pos: range.pos,
                                            bits: range.bits,
                                            signed: op.opcode == INT_SRIGHT,
                                        },
                                    )
                                },
                                None => None,
                            },
                            None => None,
                        }
                    },
                    None => None,
                },
                _ => None,
            }
        } else if op.opcode == COPY {
            match input_of(d, id, 0) {
                Some(source) => match def_of(d, source) {
                    Some(source_op) => if n == 0 {
                        None
                    } else {
                        match extract_of(d, source_op, (n - 1) as nat) {
                            Some(spec) => if d.vn(spec.root).size == d.vn(out).size {
                                Some(spec)
                            } else {
                                None
                            },
                            None => None,
                        }
                    },
                    None => None,
                },
                None => None,
            }
        } else {
            None
        },
    }
}

/// The field extraction `id` performs, following copies at most `fuel` deep.
fn extract_from_op(data: &Funcdata, id: OpId, fuel: usize) -> (r: Option<ExtractSpec>)
    requires
        data.wf(),
        data.valid_op(id),
    ensures
        r == extract_of(data, id, fuel as nat),
        r matches Some(e) ==> data.valid_vn(e.root),
    decreases fuel,
{
    proof {
        assert(data.op_wf(id));
    }
    let operation = data.op(id);
    let out = match operation.output {
        Some(v) => v,
        None => return None,
    };
    let opcode = operation.opcode;
    if opcode == INT_AND {
        let (value, mask_value) = match and_operands_exec(data, id) {
            Some(p) => p,
            None => return None,
        };
        let mask = constant(data, mask_value).unwrap();
        if let Some(shift) = definition(data, value) {
            let shift_opcode = data.opcode_of(shift);
            if shift_opcode == Some(INT_RIGHT) || shift_opcode == Some(INT_SRIGHT) {
                let amount = match constant_input(data, shift, 1) {
                    Some(a) => a as u32,
                    None => return None,
                };
                let source = match input(data, shift, 0) {
                    Some(v) => v,
                    None => return None,
                };
                let range = match contiguous_range(mask, data.varnode(out).size) {
                    Some(r) => r,
                    None => return None,
                };
                if amount != range.pos || data.varnode(source).size != data.varnode(out).size {
                    return None;
                }
                return Some(ExtractSpec { root: source, pos: amount, bits: range.bits, signed: shift_opcode == Some(INT_SRIGHT) });
            }
        }
        let range = match contiguous_range(mask, data.varnode(value).size) {
            Some(r) => r,
            None => return None,
        };
        if data.varnode(value).size == data.varnode(out).size {
            Some(ExtractSpec { root: value, pos: range.pos, bits: range.bits, signed: false })
        } else {
            None
        }
    } else if opcode == INT_RIGHT || opcode == INT_SRIGHT {
        let source = match input(data, id, 0) {
            Some(v) => v,
            None => return None,
        };
        let amount = match constant_input(data, id, 1) {
            Some(a) => a as u32,
            None => return None,
        };
        let and_op = match definition(data, source) {
            Some(o) => o,
            None => return None,
        };
        if data.opcode_of(and_op) != Some(INT_AND) {
            return None;
        }
        let (root, mask_value) = match and_operands_exec(data, and_op) {
            Some(p) => p,
            None => return None,
        };
        let range = match contiguous_range(constant(data, mask_value).unwrap(), data.varnode(root).size) {
            Some(r) => r,
            None => return None,
        };
        if range.pos != amount || data.varnode(root).size != data.varnode(out).size || range.bits == 0 {
            return None;
        }
        Some(ExtractSpec { root, pos: range.pos, bits: range.bits, signed: opcode == INT_SRIGHT })
    } else if opcode == COPY {
        let source = match input(data, id, 0) {
            Some(v) => v,
            None => return None,
        };
        let source_op = match definition(data, source) {
            Some(o) => o,
            None => return None,
        };
        if fuel == 0 {
            return None;
        }
        let spec = match extract_from_op(data, source_op, fuel - 1) {
            Some(e) => e,
            None => return None,
        };
        if data.varnode(spec.root).size == data.varnode(out).size {
            Some(spec)
        } else {
            None
        }
    } else {
        None
    }
}

/// The extraction `id` can be rewritten into: `id` is live, its extraction
/// has the expected root (or, with none expected, a root in a machine
/// location), `id` has an operand and a result, and the run is non-empty and
/// inside the root.
pub open spec fn extract_rewrite(d: &Funcdata, id: OpId, expected: Option<VarnodeId>) -> Option<ExtractSpec> {
    if d.opn(id).dead {
        None
    } else {
        match extract_of(d, id, d.opv().len() as nat) {
            Some(spec) => {
                let root_ok = match expected {
                    Some(e) => spec.root == e,
                    None => !d.vn(spec.root).flags.constant && !d.vn(spec.root).flags.unique,
                };
                if !root_ok || input_of(d, id, 0) is None || d.opn(id).output is None || spec.bits == 0 || spec.bits
                    > sat_mul32(d.vn(spec.root).size, 8) {
                    None
                } else {
                    Some(spec)
                }
            },
            None => None,
        }
    }
}

/// `id` has become a pull of `spec`: `ZPULL` or `SPULL` of the root, with new
/// constants for the position and width.
pub open spec fn became_extract(pre: &Funcdata, post: &Funcdata, id: OpId, spec: ExtractSpec) -> bool {
    let position = VarnodeId(pre.vns().len() as u32);
    let width = VarnodeId((pre.vns().len() + 1) as u32);
    &&& post.vn(position).flags.constant && post.vn(position).offset == spec.pos as u64
    &&& post.vn(width).flags.constant && post.vn(width).offset == spec.bits as u64
    &&& !post.opn(id).dead ==> post.opn(id).opcode == (if spec.signed {
        SPULL
    } else {
        ZPULL
    }) && post.opn(id).inputs@ == seq![spec.root, position, width]
}

/// Rewrites an extraction into a pull when it takes the expected shape.
fn rewrite_extract_at(data: &mut Funcdata, id: OpId, expected_root: Option<VarnodeId>) -> (r: bool)
    requires
        old(data).wf(),
        old(data).valid_op(id),
    ensures
        final(data).wf(),
        arenas_grow(&*old(data), &*final(data)),
        r == (extract_rewrite(&*old(data), id, expected_root) is Some && old(data).vns().len() + 2 < u32::MAX),
        !r ==> *final(data) == *old(data),
        r ==> became_extract(&*old(data), &*final(data), id, extract_rewrite(&*old(data), id, expected_root).unwrap()),
{
    let ghost pre = *data;
    if data.opcode_of(id).is_none() {
        return false;
    }
    let fuel = data.op_arena_len();
    let spec = match extract_from_op(data, id, fuel) {
        Some(e) => e,
        None => return false,
    };
    match expected_root {
        Some(expected) => {
            if spec.root != expected {
                return false;
            }
        },
        None => {
            let node = data.varnode(spec.root);
            if node.flags.constant || node.flags.unique {
                return false;
            }
        },
    }
    let old_input = match input(data, id, 0) {
        Some(v) => v,
        None => return false,
    };
    let output = match output(data, id) {
        Some(v) => v,
        None => return false,
    };
    let root_size = data.varnode(spec.root).size;
    let room: u32 = if root_size > 0x1FFF_FFFF { u32::MAX } else { root_size * 8 };
    if spec.bits == 0 || spec.bits > room {
        return false;
    }
    if data.varnode_count() >= 0xFFFF_FFFD {
        return false;
    }
    let position = data.new_constant(spec.pos as u64, 4);
    let ghost g1 = *data;
    let width = data.new_constant(spec.bits as u64, 4);
    let ghost g2 = *data;
    data.op_set_opcode(id, if spec.signed { SPULL } else { ZPULL });
    let inputs = vec![spec.root, position, width];
    proof {
        assert(g2.vns().take(g1.vns().len() as int)[position.0 as int] == g2.vn(position));
        assert(inputs@ =~= seq![spec.root, position, width]);
        assert forall|m: int| 0 <= m < inputs@.len() implies (#[trigger] inputs@[m]).0 < data.vns().len() by {}
    }
    data.op_set_inputs(id, inputs);
    let ghost mid = *data;
    if old_input != spec.root && old_input != output {
        destroy_dead_value(data, old_input);
    }
    proof {
        assert(data.opn(id) == mid.opn(id) || data.opn(id).dead);
        assert(mid.vn(position).offset == g2.vn(position).offset && mid.vn(position).flags.constant == g2.vn(
            position,
        ).flags.constant);
        assert(mid.vn(width).offset == g2.vn(width).offset && mid.vn(width).flags.constant == g2.vn(width).flags.constant);
        assert(data.vn(position).flags.constant);
        assert(data.vn(width).flags.constant);
    }
    true
}

/// `b` is a live-or-dead operation that reads the result of `a`.
pub open spec fn feeds(d: &Funcdata, a: OpId, b: OpId) -> bool {
    &&& d.valid_op(b)
    &&& match d.opn(a).output {
        Some(v) => d.vn(v).descendants@.contains(b),
        None => false,
    }
}

/// `p` is a chain of readers: each operation in it reads the result of the
/// one before.
pub open spec fn reader_chain(d: &Funcdata, p: Seq<OpId>) -> bool
    decreases p.len(),
{
    if p.len() == 0 {
        false
    } else if p.len() == 1 {
        d.valid_op(p[0])
    } else {
        d.valid_op(p[0]) && feeds(d, p[0], p[1]) && reader_chain(d, p.drop_first())
    }
}

/// `o` is an extraction of `root` that can be rewritten into a pull.
pub open spec fn field_rewritable(d: &Funcdata, o: OpId, root: VarnodeId) -> bool {
    extract_rewrite(d, o, Some(root)) is Some && d.vns().len() + 2 < u32::MAX
}

/// Every marked operation off the `stack` of searches in progress has been
/// searched through: it cannot be rewritten and its readers are marked.
pub open spec fn search_closed(d: &Funcdata, root: VarnodeId, seen: Seq<bool>, stack: Seq<OpId>) -> bool {
    forall|a: OpId|
        #![trigger seen[a.0 as int]]
        d.valid_op(a) && seen[a.0 as int] && !stack.contains(a) ==> {
            &&& !field_rewritable(d, a, root)
            &&& forall|b: OpId| #[trigger] feeds(d, a, b) ==> seen[b.0 as int]
        }
}

/// Along a chain that starts at a marked operation of a closed search,
/// nothing can be rewritten.
proof fn lemma_closed_chain(d: &Funcdata, root: VarnodeId, seen: Seq<bool>, p: Seq<OpId>)
    requires
        search_closed(d, root, seen, Seq::empty()),
        reader_chain(d, p),
        seen[p[0].0 as int],
    ensures
        !field_rewritable(d, p.last(), root),
    decreases p.len(),
{
    assert(!Seq::<OpId>::empty().contains(p[0]));
    if p.len() > 1 {
        assert(feeds(d, p[0], p[1]));
        assert(p.drop_first()[0] == p[1]);
        lemma_closed_chain(d, root, seen, p.drop_first());
    }
}

/// Looks, depth first from `id` through the readers of results, for an
/// extraction of `root` to rewrite; the readers of an operation's result are
/// tried before the operation itself. Each operation is tried once.
fn rewrite_load_tree(
    data: &mut Funcdata,
    id: OpId,
    root: VarnodeId,
    seen: &mut Vec<bool>,
    Ghost(stack): Ghost<Seq<OpId>>,
) -> (r: bool)
    requires
        old(data).wf(),
        old(data).valid_op(id),
        old(seen)@.len() == old(data).opv().len(),
        forall|k: int| 0 <= k < stack.len() ==> old(data).valid_op(#[trigger] stack[k]) && old(seen)@[stack[k].0 as int],
        search_closed(&*old(data), root, old(seen)@, stack),
    ensures
        final(data).wf(),
        arenas_grow(&*old(data), &*final(data)),
        !r ==> *final(data) == *old(data),
        !r ==> final(seen)@.len() == old(seen)@.len() && crate::cover::unmarked(final(seen)@) <= crate::cover::unmarked(
            old(seen)@,
        ),
        !r ==> final(seen)@[id.0 as int],
        !r ==> forall|k: int| 0 <= k < old(seen)@.len() && #[trigger] old(seen)@[k] ==> final(seen)@[k],
        !r ==> search_closed(&*old(data), root, final(seen)@, stack),
        r ==> exists|p: Seq<OpId>|
            #![trigger reader_chain(&*old(data), p)]
            reader_chain(&*old(data), p) && p[0] == id && field_rewritable(&*old(data), p.last(), root) && became_extract(
                &*old(data),
                &*final(data),
                p.last(),
                extract_rewrite(&*old(data), p.last(), Some(root)).unwrap(),
            ),
    decreases crate::cover::unmarked(old(seen)@),
{
    let ghost pre = *data;
    let index = id.0 as usize;
    if seen[index] {
        return false;
    }
    proof {
        crate::cover::lemma_unmarked_mark(seen@, index as int);
        assert forall|k: int| 0 <= k < stack.len() implies stack[k] != id by {
            assert(seen@[stack[k].0 as int]);
        }
    }
    let ghost seen0 = seen@;
    seen.set(index, true);
    let ghost inner = stack.push(id);
    proof {
        assert forall|a: OpId| #![trigger seen@[a.0 as int]] pre.valid_op(a) && seen@[a.0 as int] && !inner.contains(a) implies {
            &&& !field_rewritable(&pre, a, root)
            &&& forall|b: OpId| #[trigger] feeds(&pre, a, b) ==> seen@[b.0 as int]
        } by {
            assert(inner[stack.len() as int] == id);
            assert(a != id);
            assert(seen0[a.0 as int]);
            if stack.contains(a) {
                let k = choose|k: int| 0 <= k < stack.len() && stack[k] == a;
                assert(inner[k] == a);
            }
            assert forall|b: OpId| #[trigger] feeds(&pre, a, b) implies seen@[b.0 as int] by {
                assert(seen0[b.0 as int]);
            }
        }
        assert forall|k: int| 0 <= k < inner.len() implies pre.valid_op(#[trigger] inner[k]) && seen@[inner[k].0 as int] by {
            if k < stack.len() {
                assert(inner[k] == stack[k]);
            }
        }
    }
    if let Some(value) = output(data, id) {
        let readers = readers_of(data, value);
        let mut i: usize = 0;
        while i < readers.len()
            invariant
                pre == *old(data),
                *data == pre,
                data.wf(),
                data.valid_op(id),
                data.opn(id).output == Some(value),
                readers@ == data.vn(value).descendants@,
                ops_below(readers@, data.opv().len() as int),
                seen@.len() == data.opv().len(),
                crate::cover::unmarked(seen@) < crate::cover::unmarked(old(seen)@),
                old(seen)@.len() == pre.opv().len(),
                i <= readers@.len(),
                inner == stack.push(id),
                seen@[id.0 as int],
                forall|k: int| 0 <= k < old(seen)@.len() && #[trigger] old(seen)@[k] ==> seen@[k],
                forall|k: int| 0 <= k < inner.len() ==> pre.valid_op(#[trigger] inner[k]) && seen@[inner[k].0 as int],
                search_closed(&pre, root, seen@, inner),
                forall|j: int| 0 <= j < i ==> seen@[(#[trigger] readers@[j]).0 as int],
            decreases readers@.len() - i,
        {
            proof {
                assert(readers@[i as int].0 < data.opv().len());
            }
            let ghost before = seen@;
            if rewrite_load_tree(data, readers[i], root, seen, Ghost(inner)) {
                proof {
                    let p = choose|p: Seq<OpId>|
                        #![trigger reader_chain(&pre, p)]
                        reader_chain(&pre, p) && p[0] == readers@[i as int] && field_rewritable(&pre, p.last(), root)
                            && became_extract(&pre, &*data, p.last(), extract_rewrite(&pre, p.last(), Some(root)).unwrap());
                    let q = seq![id] + p;
                    assert(q.drop_first() =~= p);
                    assert(descendants_contains(&pre, value, i as int));
                    assert(feeds(&pre, id, p[0]));
                    assert(q[1] == p[0]);
                    assert(q.last() == p.last());
                    assert(reader_chain(&pre, q));
                }
                return true;
            }
            proof {
                assert forall|j: int| 0 <= j < i + 1 implies seen@[(#[trigger] readers@[j]).0 as int] by {
                    if j < i {
                        assert(before[readers@[j].0 as int]);
                    }
                }
                assert forall|k: int| 0 <= k < old(seen)@.len() && #[trigger] old(seen)@[k] implies seen@[k] by {
                    assert(before[k]);
                }
            }
            i += 1;
        }
        proof {
            assert forall|b: OpId| #[trigger] feeds(&pre, id, b) implies seen@[b.0 as int] by {
                let j = choose|j: int| 0 <= j < readers@.len() && readers@[j] == b;
                assert(seen@[readers@[j].0 as int]);
            }
        }
    }
    let ghost marked = seen@;
    let r = rewrite_extract_at(data, id, Some(root));
    proof {
        if r {
            let q = seq![id];
            assert(reader_chain(&pre, q));
            assert(q.last() == id);
        } else {
            assert forall|b: OpId| #[trigger] feeds(&pre, id, b) implies marked[b.0 as int] by {}
            assert forall|a: OpId| #![trigger marked[a.0 as int]] pre.valid_op(a) && marked[a.0 as int] && !stack.contains(a) implies {
                &&& !field_rewritable(&pre, a, root)
                &&& forall|b: OpId| #[trigger] feeds(&pre, a, b) ==> marked[b.0 as int]
            } by {
                if a != id {
                    assert(!inner.contains(a)) by {
                        if inner.contains(a) {
                            let k = choose|k: int| 0 <= k < inner.len() && inner[k] == a;
                            assert(stack[k] == a);
                        }
                    }
                }
            }
        }
    }
    r
}

/// `p` is a chain of readers from a reader of the result of `load` to an
/// extraction of that result that can be rewritten into a pull.
pub open spec fn field_chain(d: &Funcdata, load: OpId, p: Seq<OpId>) -> bool {
    match d.opn(load).output {
        Some(root) => reader_chain(d, p) && d.vn(root).descendants@.contains(p[0]) && field_rewritable(d, p.last(), root),
        None => false,
    }
}

/// Whether some extraction of the loaded value, reached through readers of
/// results, can be rewritten into a pull.
pub open spec fn load_field_fires(d: &Funcdata, load: OpId) -> bool {
    exists|p: Seq<OpId>| #[trigger] field_chain(d, load, p)
}

/// Rewrites the extractions of a loaded value's fields into pulls. The load
/// itself stays; only its extracted readers change.
pub struct RuleBitFieldLoad;

impl Rule for RuleBitFieldLoad {
    open spec fn title(&self) -> Seq<char> {
        "bitfield_load"@
    }

    fn name(&self) -> (r: &'static str) {
        "bitfield_load"
    }

    open spec fn reports(&self, op: OpId, pre: Funcdata, post: Funcdata, changes: usize) -> bool {
        changes == (if load_field_fires(&pre, op) {
            1usize
        } else {
            0
        })
    }

    open spec fn opcodes(&self) -> Seq<i32> {
        seq![LOAD]
    }

    fn op_list(&self) -> (r: Vec<i32>)
        ensures
            r@ == seq![LOAD],
    {
        let mut r = Vec::new();
        r.push(LOAD);
        r
    }

    fn apply_op(&self, id: OpId, data: &mut Funcdata) -> (changes: usize)
        ensures
            changes == (if load_field_fires(&*old(data), id) {
                1usize
            } else {
                0
            }),
            changes == 0 ==> *final(data) == *old(data),
            changes == 1 ==> exists|p: Seq<OpId>|
                #![trigger field_chain(&*old(data), id, p)]
                field_chain(&*old(data), id, p) && became_extract(
                    &*old(data),
                    &*final(data),
                    p.last(),
                    extract_rewrite(&*old(data), p.last(), Some(old(data).opn(id).output.unwrap())).unwrap(),
                ),
    {
        let ghost pre = *data;
        let root = match output(data, id) {
            Some(v) => v,
            None => return 0,
        };
        let readers = readers_of(data, root);
        let mut seen = crate::cover::unmarked_flags(data.op_arena_len());
        proof {
            assert forall|a: OpId| #![trigger seen@[a.0 as int]] pre.valid_op(a) && seen@[a.0 as int] && !Seq::<
                OpId,
            >::empty().contains(a) implies {
                &&& !field_rewritable(&pre, a, root)
                &&& forall|b: OpId| #[trigger] feeds(&pre, a, b) ==> seen@[b.0 as int]
            } by {}
        }
        let mut i: usize = 0;
        while i < readers.len()
            invariant
                pre == *old(data),
                *data == pre,
                data.wf(),
                data.valid_op(id),
                data.opn(id).output == Some(root),
                readers@ == data.vn(root).descendants@,
                ops_below(readers@, data.opv().len() as int),
                seen@.len() == data.opv().len(),
                i <= readers@.len(),
                search_closed(&pre, root, seen@, Seq::empty()),
                forall|j: int| 0 <= j < i ==> seen@[(#[trigger] readers@[j]).0 as int],
            decreases readers@.len() - i,
        {
            proof {
                assert(readers@[i as int].0 < data.opv().len());
            }
            let ghost before = seen@;
            if rewrite_load_tree(data, readers[i], root, &mut seen, Ghost(Seq::empty())) {
                proof {
                    let p = choose|p: Seq<OpId>|
                        #![trigger reader_chain(&pre, p)]
                        reader_chain(&pre, p) && p[0] == readers@[i as int] && field_rewritable(&pre, p.last(), root)
                            && became_extract(&pre, &*data, p.last(), extract_rewrite(&pre, p.last(), Some(root)).unwrap());
                    assert(descendants_contains(&pre, root, i as int));
                    assert(field_chain(&pre, id, p));
                }
                return 1;
            }
            proof {
                assert forall|j: int| 0 <= j < i + 1 implies seen@[(#[trigger] readers@[j]).0 as int] by {
                    if j < i {
                        assert(before[readers@[j].0 as int]);
                    }
                }
            }
            i += 1;
        }
        proof {
            assert forall|p: Seq<OpId>| #[trigger] field_chain(&pre, id, p) implies false by {
                let j = choose|j: int| 0 <= j < readers@.len() && readers@[j] == p[0];
                assert(seen@[readers@[j].0 as int]);
                lemma_closed_chain(&pre, root, seen@, p);
            }
        }
        0
    }
}

/// The operation at `j` of the readers of `value` is among them.
spec fn descendants_contains(d: &Funcdata, value: VarnodeId, j: int) -> bool {
    d.vn(value).descendants@.contains(d.vn(value).descendants@[j])
}

/// The value and preserving mask of `INT_AND(value, mask)` (either operand
/// constant, the second checked first) defining `value`.
pub open spec fn preserve_of(d: &Funcdata, value: VarnodeId) -> Option<(VarnodeId, u64)> {
    match def_of(d, value) {
        Some(def) => if live_opcode(d, def) != Some(INT_AND) {
            None
        } else {
            match (input_of(d, def, 0), input_of(d, def, 1)) {
                (Some(left), Some(right)) => if const_of(d, right) is Some {
                    Some((left, const_of(d, right).unwrap()))
                } else if const_of(d, left) is Some {
                    Some((right, const_of(d, left).unwrap()))
                } else {
                    None
                },
                _ => None,
            }
        },
        None => None,
    }
}

fn preserve_branch(data: &Funcdata, value: VarnodeId) -> (r: Option<(VarnodeId, u64)>)
    requires
        data.wf(),
        data.valid_vn(value),
    ensures
        r == preserve_of(data, value),
        r matches Some(p) ==> data.valid_vn(p.0),
{
    let def = match definition(data, value) {
        Some(o) => o,
        None => return None,
    };
    if data.opcode_of(def) != Some(INT_AND) {
        return None;
    }
    let left = match input(data, def, 0) {
        Some(v) => v,
        None => return None,
    };
    let right = match input(data, def, 1) {
        Some(v) => v,
        None => return None,
    };
    if let Some(mask) = constant(data, right) {
        return Some((left, mask));
    }
    if let Some(mask) = constant(data, left) {
        return Some((right, mask));
    }
    None
}

/// The value shifted left by `pos` bits to give `value`: the operand of a
/// left shift by `pos`, or `value` itself when `pos` is zero and its
/// definition is live.
pub open spec fn shifted_of(d: &Funcdata, value: VarnodeId, pos: u32) -> Option<VarnodeId> {
    match def_of(d, value) {
        Some(def) => match live_opcode(d, def) {
            Some(opcode) => if opcode == INT_LEFT {
                match const_input(d, def, 1) {
                    Some(amount) => if (amount as u32) == pos {
                        input_of(d, def, 0)
                    } else {
                        None
                    },
                    None => None,
                }
            } else if pos == 0 {
                Some(value)
            } else {
                None
            },
            None => None,
        },
        None => None,
    }
}

fn shifted_value(data: &Funcdata, value: VarnodeId, pos: u32) -> (r: Option<VarnodeId>)
    requires
        data.wf(),
        data.valid_vn(value),
    ensures
        r == shifted_of(data, value, pos),
        r matches Some(v) ==> data.valid_vn(v),
{
    let def = match definition(data, value) {
        Some(o) => o,
        None => return None,
    };
    let opcode = match data.opcode_of(def) {
        Some(o) => o,
        None => return None,
    };
    if opcode == INT_LEFT {
        let amount = match constant_input(data, def, 1) {
            Some(a) => a as u32,
            None => return None,
        };
        if amount == pos {
            input(data, def, 0)
        } else {
            None
        }
    } else if pos == 0 {
        Some(value)
    } else {
        None
    }
}

/// The value an insertion branch inserts at `pos`: the shifted value under
/// a mask equal to `field_mask`, or the shifted value itself.
pub open spec fn insert_branch_of(d: &Funcdata, value: VarnodeId, field_mask: u64, pos: u32) -> Option<VarnodeId> {
    match def_of(d, value) {
        Some(def) => if live_opcode(d, def) == Some(INT_AND) {
            match (input_of(d, def, 0), input_of(d, def, 1)) {
                (Some(left), Some(right)) => {
                    let choice: Option<(VarnodeId, u64)> = if const_of(d, right) is Some {
                        Some((left, const_of(d, right).unwrap()))
                    } else if const_of(d, left) is Some {
                        Some((right, const_of(d, left).unwrap()))
                    } else {
                        None
                    };
                    match choice {
                        Some((shifted, mask)) => if mask != field_mask {
                            None
                        } else {
                            shifted_of(d, shifted, pos)
                        },
                        None => None,
                    }
                },
                _ => None,
            }
        } else {
            shifted_of(d, value, pos)
        },
        None => None,
    }
}

fn insert_branch(data: &Funcdata, value: VarnodeId, field_mask: u64, pos: u32) -> (r: Option<VarnodeId>)
    requires
        data.wf(),
        data.valid_vn(value),
    ensures
        r == insert_branch_of(data, value, field_mask, pos),
        r matches Some(v) ==> data.valid_vn(v),
{
    let def = match definition(data, value) {
        Some(o) => o,
        None => return None,
    };
    if data.opcode_of(def) == Some(INT_AND) {
        let left = match input(data, def, 0) {
            Some(v) => v,
            None => return None,
        };
        let right = match input(data, def, 1) {
            Some(v) => v,
            None => return None,
        };
        let (shifted, mask) = if let Some(mask) = constant(data, right) {
            (left, mask)
        } else if let Some(mask) = constant(data, left) {
            (right, mask)
        } else {
            return None;
        };
        if mask != field_mask {
            return None;
        }
        return shifted_value(data, shifted, pos);
    }
    shifted_value(data, value, pos)
}

/// An insertion into a base: `bits` bits of `value` at `pos` of `base`.
#[derive(Copy, Clone, Debug, PartialEq, Eq, Structural)]
pub struct InsertSpec {
    pub base: VarnodeId,
    pub value: VarnodeId,
    pub pos: u32,
    pub bits: u32,
}

/// The insertion a masked merge `INT_OR(base & keep, shifted & field)`
/// performs, with either operand order, when the kept bits and the inserted
/// field complement each other in one contiguous run.
pub open spec fn insert_of(d: &Funcdata, value: VarnodeId) -> Option<InsertSpec> {
    match def_of(d, value) {
        Some(def) => if live_opcode(d, def) != Some(INT_OR) {
            None
        } else {
            match (input_of(d, def, 0), input_of(d, def, 1)) {
                (Some(left), Some(right)) => match preserve_of(d, left) {
                    Some((left_base, left_mask)) => {
                        let width = d.vn(value).size;
                        let field_mask = full_mask_of(width) & !left_mask;
                        match contiguous(field_mask, width) {
                            Some(range) => match insert_branch_of(d, right, field_mask, range.pos) {
                                Some(inserted) => Some(
                                    InsertSpec { base: left_base, value: inserted, pos: range.pos, bits: range.bits },
                                ),
                                None => match preserve_of(d, right) {
                                    Some((right_base, right_mask)) => {
                                        let field2 = full_mask_of(width) & !right_mask;
                                        match contiguous(field2, width) {
                                            Some(range2) => match insert_branch_of(d, left, field2, range2.pos) {
                                                Some(inserted2) => Some(
                                                    InsertSpec {
                                                        base: right_base,
                                                        value: inserted2,
                                                        pos: range2.pos,
                                                        bits: range2.bits,
                                                    },
                                                ),
                                                None => None,
                                            },
                                            None => None,
                                        }
                                    },
                                    None => None,
                                },
                            },
                            None => None,
                        }
                    },
                    None => None,
                },
                _ => None,
            }
        },
        None => None,
    }
}

fn insert_from_value(data: &Funcdata, value: VarnodeId) -> (r: Option<InsertSpec>)
    requires
        data.wf(),
        data.valid_vn(value),
    ensures
        r == insert_of(data, value),
        r matches Some(p) ==> data.valid_vn(p.base) && data.valid_vn(p.value),
{
    let def = match definition(data, value) {
        Some(o) => o,
        None => return None,
    };
    if data.opcode_of(def) != Some(INT_OR) {
        return None;
    }
    let left = match input(data, def, 0) {
        Some(v) => v,
        None => return None,
    };
    let right = match input(data, def, 1) {
        Some(v) => v,
        None => return None,
    };
    let (left_base, left_mask) = match preserve_branch(data, left) {
        Some(p) => p,
        None => return None,
    };
    let width = data.varnode(value).size;
    let field_mask = full_mask(width) & !left_mask;
    let range = match contiguous_range(field_mask, width) {
        Some(r) => r,
        None => return None,
    };
    if let Some(inserted) = insert_branch(data, right, field_mask, range.pos) {
        return Some(InsertSpec { base: left_base, value: inserted, pos: range.pos, bits: range.bits });
    }
    let (right_base, right_mask) = match preserve_branch(data, right) {
        Some(p) => p,
        None => return None,
    };
    let field_mask = full_mask(width) & !right_mask;
    let range = match contiguous_range(field_mask, width) {
        Some(r) => r,
        None => return None,
    };
    let inserted = match insert_branch(data, left, field_mask, range.pos) {
        Some(v) => v,
        None => return None,
    };
    Some(InsertSpec { base: right_base, value: inserted, pos: range.pos, bits: range.bits })
}

/// `target` becomes `INSERT(base, value, pos, bits)` with new constants for
/// the position and width.
pub open spec fn became_insert(pre: &Funcdata, post: &Funcdata, target: OpId, spec: InsertSpec) -> bool {
    let position = VarnodeId(pre.vns().len() as u32);
    let width = VarnodeId((pre.vns().len() + 1) as u32);
    &&& post.vn(position).flags.constant && post.vn(position).offset == spec.pos as u64
    &&& post.vn(width).flags.constant && post.vn(width).offset == spec.bits as u64
    &&& !post.opn(target).dead ==> post.opn(target).opcode == INSERT && post.opn(target).inputs@ == seq![
        spec.base,
        spec.value,
        position,
        width,
    ]
}

/// The value `expression` is an assembled bit-field insert whose base is as
/// wide as `target`'s result, with room for the values a rewrite adds.
pub open spec fn final_insert_fires(d: &Funcdata, target: OpId, expression: VarnodeId) -> bool {
    insert_of(d, expression) matches Some(spec) && d.opn(target).output matches Some(out) && d.vn(out).size == d.vn(
        spec.base,
    ).size && d.vns().len() + 2 < u32::MAX
}

/// The values whose insert an operation may take over: its result, then its
/// operands.
pub open spec fn insert_candidates(d: &Funcdata, id: OpId) -> Seq<VarnodeId> {
    (match d.opn(id).output {
        Some(e) => seq![e],
        None => Seq::empty(),
    }) + d.opn(id).inputs@
}

/// The first of `values[k..]` whose insert `target` takes over.
pub open spec fn first_insert(d: &Funcdata, target: OpId, values: Seq<VarnodeId>, k: int) -> Option<VarnodeId>
    decreases values.len() - k,
{
    if k < 0 || k >= values.len() {
        None
    } else if final_insert_fires(d, target, values[k]) {
        Some(values[k])
    } else {
        first_insert(d, target, values, k + 1)
    }
}

/// Rewrites `target`, whose result or operand is a masked merge, into the
/// insertion the merge performs, when the widths agree.
fn rewrite_final_insert(data: &mut Funcdata, target: OpId, expression: VarnodeId) -> (r: bool)
    requires
        old(data).wf(),
        old(data).valid_op(target),
        old(data).valid_vn(expression),
    ensures
        final(data).wf(),
        arenas_grow(&*old(data), &*final(data)),
        r == final_insert_fires(&*old(data), target, expression),
        !r ==> *final(data) == *old(data),
        r ==> became_insert(&*old(data), &*final(data), target, insert_of(&*old(data), expression).unwrap()),
{
    let ghost pre = *data;
    let spec = match insert_from_value(data, expression) {
        Some(p) => p,
        None => return false,
    };
    let output = match output(data, target) {
        Some(v) => v,
        None => return false,
    };
    if data.varnode(output).size != data.varnode(spec.base).size {
        return false;
    }
    if data.varnode_count() >= 0xFFFF_FFFD {
        return false;
    }
    let position = data.new_constant(spec.pos as u64, 4);
    let ghost g1 = *data;
    let width = data.new_constant(spec.bits as u64, 4);
    let ghost g2 = *data;
    data.op_set_opcode(target, INSERT);
    let inputs = vec![spec.base, spec.value, position, width];
    proof {
        assert(g2.vns().take(g1.vns().len() as int)[position.0 as int] == g2.vn(position));
        assert(inputs@ =~= seq![spec.base, spec.value, position, width]);
        assert forall|m: int| 0 <= m < inputs@.len() implies (#[trigger] inputs@[m]).0 < data.vns().len() by {}
    }
    data.op_set_inputs(target, inputs);
    let ghost mid = *data;
    if expression != output {
        destroy_dead_value(data, expression);
    }
    proof {
        assert(data.opn(target) == mid.opn(target) || data.opn(target).dead);
        assert(mid.vn(position).offset == g2.vn(position).offset && mid.vn(position).flags.constant == g2.vn(
            position,
        ).flags.constant);
        assert(mid.vn(width).offset == g2.vn(width).offset && mid.vn(width).flags.constant == g2.vn(width).flags.constant);
        assert(data.vn(position).flags.constant);
        assert(data.vn(width).flags.constant);
    }
    true
}

/// The value `expression` is an assembled bit-field insert as wide as its
/// base, with room for the values and the operation a rewrite adds.
pub open spec fn store_insert_makes(d: &Funcdata, expression: VarnodeId) -> bool {
    insert_of(d, expression) matches Some(spec) && d.vn(spec.base).size == d.vn(expression).size && d.vns().len() + 3
        < u32::MAX && d.opv().len() + 1 < u32::MAX
}

/// A store whose stored value is an assembled insert, not already written
/// by a live `INSERT`, is rewritten to store an explicit one.
pub open spec fn store_insert_fires(d: &Funcdata, store: OpId) -> bool {
    input_of(d, store, 2) matches Some(value) && !(def_of(d, value) matches Some(df) && !d.opn(df).dead && d.opn(df).opcode
        == INSERT) && store_insert_makes(d, value)
}

/// Inserts, before `store`, the insertion that the stored masked merge
/// performs, and stores its result instead.
fn make_insert_before(data: &mut Funcdata, store: OpId, expression: VarnodeId) -> (r: bool)
    requires
        old(data).wf(),
        old(data).valid_op(store),
        old(data).valid_vn(expression),
    ensures
        final(data).wf(),
        arenas_grow(&*old(data), &*final(data)),
        r == store_insert_makes(&*old(data), expression),
        !r ==> *final(data) == *old(data),
        r ==> {
            let insert = OpId(old(data).opv().len() as u32);
            &&& !final(data).opn(insert).dead ==> final(data).opn(insert).opcode == INSERT && final(data).opn(
                insert,
            ).output == Some(VarnodeId((old(data).vns().len() + 2) as u32))
            &&& !final(data).opn(store).dead ==> final(data).opn(store).inputs@[2] == VarnodeId(
                (old(data).vns().len() + 2) as u32,
            )
        },
{
    let ghost pre = *data;
    let spec = match insert_from_value(data, expression) {
        Some(p) => p,
        None => return false,
    };
    let size = data.varnode(expression).size;
    if data.varnode(spec.base).size != size {
        return false;
    }
    if data.varnode_count() >= 0xFFFF_FFFC || data.op_arena_len() >= 0xFFFF_FFFE {
        return false;
    }
    let position = data.new_constant(spec.pos as u64, 4);
    let width = data.new_constant(spec.bits as u64, 4);
    let seq = data.op(store).seq;
    let inputs = vec![spec.base, spec.value, position, width];
    proof {
        assert(inputs@ =~= seq![spec.base, spec.value, position, width]);
        assert forall|m: int| 0 <= m < inputs@.len() implies (#[trigger] inputs@[m]).0 < data.vns().len() by {}
    }
    let insert = data.new_op(INSERT, seq, inputs);
    let out = data.new_unique(size);
    data.op_set_output(insert, Some(out));
    data.op_insert_before(insert, store);
    data.op_set_input(store, out, 2);
    let ghost mid = *data;
    destroy_dead_value(data, expression);
    proof {
        assert(insert.0 == pre.opv().len());
        assert(out.0 == pre.vns().len() + 2);
        assert(mid.opn(insert).opcode == INSERT);
        assert(mid.opn(insert).output == Some(out));
        assert(data.opn(insert) == mid.opn(insert) || data.opn(insert).dead);
        assert(data.opn(store) == mid.opn(store) || data.opn(store).dead);
    }
    true
}

/// Rewrites an operation whose result or operand is a masked merge of two
/// complementary contiguous fields into the insertion the merge performs.
pub struct RuleBitFieldOut;

impl Rule for RuleBitFieldOut {
    open spec fn title(&self) -> Seq<char> {
        "bitfield_out"@
    }

    fn name(&self) -> (r: &'static str) {
        "bitfield_out"
    }

    open spec fn reports(&self, op: OpId, pre: Funcdata, post: Funcdata, changes: usize) -> bool {
        changes == (if first_insert(&pre, op, insert_candidates(&pre, op), 0) is Some {
            1usize
        } else {
            0
        })
    }

    open spec fn opcodes(&self) -> Seq<i32> {
        seq![COPY, INT_EQUAL, INT_NOTEQUAL, INT_SLESS, INT_SLESSEQUAL, INT_LESS, INT_LESSEQUAL, INT_ZEXT, INT_SEXT, INT_ADD, INT_CARRY, INT_SCARRY, INT_XOR, INT_AND, INT_OR, INT_LEFT, INT_RIGHT, INT_SRIGHT, INT_MULT, BOOL_NEGATE, BOOL_XOR, BOOL_AND, BOOL_OR, FLOAT_EQUAL, FLOAT_NOTEQUAL, FLOAT_LESS, FLOAT_LESSEQUAL, FLOAT_NAN, SUBPIECE, INDIRECT]
    }

    fn op_list(&self) -> (r: Vec<i32>)
        ensures
            r@.len() == 30,
            r@ == self.opcodes(),
    {
        let mut r = Vec::new();
        r.push(COPY);
        r.push(INT_EQUAL);
        r.push(INT_NOTEQUAL);
        r.push(INT_SLESS);
        r.push(INT_SLESSEQUAL);
        r.push(INT_LESS);
        r.push(INT_LESSEQUAL);
        r.push(INT_ZEXT);
        r.push(INT_SEXT);
        r.push(INT_ADD);
        r.push(INT_CARRY);
        r.push(INT_SCARRY);
        r.push(INT_XOR);
        r.push(INT_AND);
        r.push(INT_OR);
        r.push(INT_LEFT);
        r.push(INT_RIGHT);
        r.push(INT_SRIGHT);
        r.push(INT_MULT);
        r.push(BOOL_NEGATE);
        r.push(BOOL_XOR);
        r.push(BOOL_AND);
        r.push(BOOL_OR);
        r.push(FLOAT_EQUAL);
        r.push(FLOAT_NOTEQUAL);
        r.push(FLOAT_LESS);
        r.push(FLOAT_LESSEQUAL);
        r.push(FLOAT_NAN);
        r.push(SUBPIECE);
        r.push(INDIRECT);
        r
    }

    fn apply_op(&self, id: OpId, data: &mut Funcdata) -> (changes: usize)
        ensures
            changes == (if first_insert(&*old(data), id, insert_candidates(&*old(data), id), 0) is Some { 1usize } else { 0 }),
            changes == 0 ==> *final(data) == *old(data),
            first_insert(&*old(data), id, insert_candidates(&*old(data), id), 0) matches Some(e) ==> became_insert(
                &*old(data),
                &*final(data),
                id,
                insert_of(&*old(data), e).unwrap(),
            ),
    {
        let ghost pre = *data;
        let ghost cands = insert_candidates(&pre, id);
        proof {
            assert(data.op_wf(id));
        }
        let lead: usize = match output(data, id) {
            Some(expression) => {
                proof {
                    assert(cands[0] == expression);
                }
                if rewrite_final_insert(data, id, expression) {
                    return 1;
                }
                1
            },
            None => 0,
        };
        let inputs = copy_vn_ids(&data.op(id).inputs);
        proof {
            assert(first_insert(&pre, id, cands, 0) == first_insert(&pre, id, cands, lead as int));
            assert(cands.len() == lead + inputs@.len());
        }
        let mut i: usize = 0;
        while i < inputs.len()
            invariant
                pre == *old(data),
                *data == pre,
                data.wf(),
                data.valid_op(id),
                crate::graph::vns_below(inputs@, data.vns().len() as int),
                i <= inputs@.len(),
                lead <= 1,
                cands == insert_candidates(&pre, id),
                cands.len() == lead + inputs@.len(),
                forall|k: int| 0 <= k < inputs@.len() ==> cands[lead + k] == #[trigger] inputs@[k],
                first_insert(&pre, id, cands, 0) == first_insert(&pre, id, cands, lead + i),
            decreases inputs@.len() - i,
        {
            proof {
                assert(inputs@[i as int].0 < data.vns().len());
                assert(cands[lead + i] == inputs@[i as int]);
            }
            if rewrite_final_insert(data, id, inputs[i]) {
                return 1;
            }
            i += 1;
        }
        0
    }
}

/// Writes the insertion a stored masked merge performs before the `STORE`,
/// unless the stored value already is an insertion.
pub struct RuleBitFieldStore;

impl Rule for RuleBitFieldStore {
    open spec fn title(&self) -> Seq<char> {
        "bitfield_store"@
    }

    fn name(&self) -> (r: &'static str) {
        "bitfield_store"
    }

    open spec fn reports(&self, op: OpId, pre: Funcdata, post: Funcdata, changes: usize) -> bool {
        changes == (if store_insert_fires(&pre, op) {
            1usize
        } else {
            0
        })
    }

    open spec fn opcodes(&self) -> Seq<i32> {
        seq![STORE]
    }

    fn op_list(&self) -> (r: Vec<i32>)
        ensures
            r@ == seq![STORE],
    {
        let mut r = Vec::new();
        r.push(STORE);
        r
    }

    fn apply_op(&self, id: OpId, data: &mut Funcdata) -> (changes: usize)
        ensures
            changes == (if store_insert_fires(&*old(data), id) { 1usize } else { 0 }),
            changes == 0 ==> *final(data) == *old(data),
            store_insert_fires(&*old(data), id) ==> {
                let insert = OpId(old(data).opv().len() as u32);
                &&& !final(data).opn(insert).dead ==> final(data).opn(insert).opcode == INSERT && final(data).opn(
                    insert,
                ).output == Some(VarnodeId((old(data).vns().len() + 2) as u32))
                &&& !final(data).opn(id).dead ==> final(data).opn(id).inputs@[2] == VarnodeId(
                    (old(data).vns().len() + 2) as u32,
                )
            },
    {
        let value = match input(data, id, 2) {
            Some(v) => v,
            None => return 0,
        };
        if let Some(def) = definition(data, value) {
            if data.opcode_of(def) == Some(INSERT) {
                return 0;
            }
        }
        if make_insert_before(data, id, value) {
            1
        } else {
            0
        }
    }
}

} // verus!
