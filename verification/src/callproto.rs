//! Parameter trials: the candidate storage locations of a call's arguments,
//! in calling-convention order, and the state each one has reached.

use vstd::prelude::*;

use crate::action::{Action, arenas_grow};
use crate::graph::{Funcdata, GraphOp, GraphVarnode, OpId, VarnodeId, count_false, ids_at, lemma_count_false_set, vns_below};
use crate::pcode::{CALL, CALLIND, CALLOTHER, COPY, INDIRECT, Location, MULTIEQUAL, PIECE, SUBPIECE};

verus! {

/// The activity state of one parameter trial.
#[derive(Copy, Clone, Debug, PartialEq, Eq, Structural)]
pub enum TrialState {
    Unchecked,
    Active,
    Inactive,
    NoUse,
}

/// One candidate parameter at a call site or function entry.
#[derive(Copy, Clone, Debug, PartialEq, Eq, Structural)]
pub struct Trial {
    pub location: Location,
    /// The CALL input slot. Slot zero holds the callee, so the first trial is
    /// slot one.
    pub slot: usize,
    pub value: Option<VarnodeId>,
    pub state: TrialState,
}

impl Trial {
    /// The trial is a parameter.
    pub fn mark_active(&mut self)
        ensures
            *final(self) == (Trial { state: TrialState::Active, ..*old(self) }),
    {
        self.state = TrialState::Active;
    }

    /// The trial is definitely not a parameter.
    pub fn mark_no_use(&mut self)
        ensures
            *final(self) == (Trial { state: TrialState::NoUse, ..*old(self) }),
    {
        self.state = TrialState::NoUse;
    }

    /// The trial may be a parameter but is not used as one.
    pub fn mark_inactive(&mut self)
        ensures
            *final(self) == (Trial { state: TrialState::Inactive, ..*old(self) }),
    {
        self.state = TrialState::Inactive;
    }

    pub fn is_active(&self) -> (r: bool)
        ensures
            r == (self.state == TrialState::Active),
    {
        match self.state {
            TrialState::Active => true,
            _ => false,
        }
    }

    pub fn is_checked(&self) -> (r: bool)
        ensures
            r == (self.state != TrialState::Unchecked),
    {
        match self.state {
            TrialState::Unchecked => false,
            _ => true,
        }
    }
}

/// The number of leading active trials: the formal parameters, which stop
/// at the first hole in convention order.
pub open spec fn active_prefix(s: Seq<Trial>, n: int) -> int
    decreases n,
{
    if n <= 0 {
        0
    } else if active_prefix(s, n - 1) == n - 1 && s[n - 1].state == TrialState::Active {
        n
    } else {
        active_prefix(s, n - 1)
    }
}

proof fn lemma_active_prefix_bounds(s: Seq<Trial>, n: int)
    requires
        0 <= n,
    ensures
        0 <= active_prefix(s, n) <= n,
        forall|k: int| 0 <= k < active_prefix(s, n) ==> #[trigger] s[k].state == TrialState::Active,
        active_prefix(s, n) < n ==> s[active_prefix(s, n)].state != TrialState::Active,
    decreases n,
{
    if n > 0 {
        lemma_active_prefix_bounds(s, n - 1);
    }
}

/// The trial that `register` appends at position `n`.
pub open spec fn fresh_trial(location: Location, n: int) -> Trial {
    Trial { location, slot: (n + 1) as usize, value: None, state: TrialState::Unchecked }
}

/// Exchanging two elements keeps the multiset of a sequence.
pub proof fn lemma_swap_keeps_multiset<T>(s: Seq<T>, i: int, j: int)
    requires
        0 <= i < s.len(),
        0 <= j < s.len(),
    ensures
        s.update(i, s[j]).update(j, s[i]).to_multiset() == s.to_multiset(),
{
    broadcast use vstd::multiset::group_multiset_axioms;
    let s1 = s.update(i, s[j]);
    vstd::seq_lib::to_multiset_update(s, i, s[j]);
    vstd::seq_lib::to_multiset_update(s1, j, s[i]);
    vstd::seq_lib::to_multiset_contains(s, s[i]);
    assert(s.contains(s[i]));
    if i == j {
        assert(s.update(i, s[j]).update(j, s[i]) =~= s);
    } else {
        assert(s1[j] == s[j]);
        assert(s.update(i, s[j]).update(j, s[i]).to_multiset() =~= s.to_multiset());
    }
}

/// Trials in convention order.
#[derive(Clone, Debug, PartialEq, Eq)]
pub struct ParamActive {
    trials: Vec<Trial>,
}

impl View for ParamActive {
    type V = Seq<Trial>;

    closed spec fn view(&self) -> Seq<Trial> {
        self.trials@
    }
}

impl ParamActive {
    pub fn new() -> (r: Self)
        ensures
            r@ == Seq::<Trial>::empty(),
    {
        ParamActive { trials: Vec::new() }
    }

    /// Append an unchecked trial for the next location in convention order.
    pub fn register(&mut self, location: Location)
        requires
            old(self)@.len() + 1 < usize::MAX,
        ensures
            final(self)@ == old(self)@.push(fresh_trial(location, old(self)@.len() as int)),
    {
        let slot = self.trials.len() + 1;
        self.trials.push(Trial { location, slot, value: None, state: TrialState::Unchecked });
    }

    /// All trials, including those after the first unused one.
    pub fn trials(&self) -> (r: &[Trial])
        ensures
            r@ == self@,
    {
        self.trials.as_slice()
    }

    /// The trials, for a collector that attaches the value found at a call.
    pub fn trials_mut(&mut self) -> (r: &mut [Trial])
        ensures
            r@ == old(self)@,
            final(self)@ == final(r)@,
    {
        self.trials.as_mut_slice()
    }

    /// The formal parameters: the active trials up to the first hole in
    /// convention order. A later active trial cannot jump over an unused one.
    pub fn used(&self) -> (r: Vec<&Trial>)
        ensures
            r@.len() == active_prefix(self@, self@.len() as int),
            forall|k: int| 0 <= k < r@.len() ==> *#[trigger] r@[k] == self@[k],
    {
        proof {
            lemma_active_prefix_bounds(self@, self@.len() as int);
        }
        let mut result: Vec<&Trial> = Vec::new();
        let mut i: usize = 0;
        while i < self.trials.len() && self.trials[i].is_active()
            invariant
                i <= self@.len(),
                i as int <= active_prefix(self@, self@.len() as int),
                forall|k: int| 0 <= k < i ==> self@[k].state == TrialState::Active,
                result@.len() == i,
                forall|k: int| 0 <= k < i ==> *#[trigger] result@[k] == self@[k],
                0 <= active_prefix(self@, self@.len() as int) <= self@.len(),
                forall|k: int| 0 <= k < active_prefix(self@, self@.len() as int) ==> #[trigger] self@[k].state == TrialState::Active,
                active_prefix(self@, self@.len() as int) < self@.len() ==> self@[active_prefix(self@, self@.len() as int)].state != TrialState::Active,
            decreases self@.len() - i,
        {
            result.push(&self.trials[i]);
            i += 1;
        }
        result
    }

    /// Order the trials by their CALL input slot, keeping trials of one slot
    /// in the order they had.
    pub fn sort_fixed_position(&mut self)
        ensures
            final(self)@ == sort_trials(old(self)@),
            final(self)@.to_multiset() == old(self)@.to_multiset(),
            forall|i: int, j: int| 0 <= i < j < final(self)@.len() ==> #[trigger] final(self)@[i].slot <= #[trigger] final(self)@[j].slot,
    {
        let mut sorted: Vec<Trial> = Vec::new();
        let mut i: usize = 0;
        while i < self.trials.len()
            invariant
                self.trials@ == old(self)@,
                i <= self.trials@.len(),
                sorted@ == sort_trials(self.trials@.take(i as int)),
            decreases self.trials@.len() - i,
        {
            let t = self.trials[i];
            let mut cut: usize = sorted.len();
            while cut > 0 && sorted[cut - 1].slot > t.slot
                invariant
                    cut <= sorted@.len(),
                    trial_cut(sorted@, t, cut as int) == trial_cut(sorted@, t, sorted@.len() as int),
                decreases cut,
            {
                cut -= 1;
            }
            proof {
                assert(self.trials@.take(i as int + 1).drop_last() =~= self.trials@.take(i as int));
                assert(self.trials@.take(i as int + 1).last() == t);
            }
            sorted.insert(cut, t);
            i += 1;
        }
        proof {
            assert(self.trials@.take(self.trials@.len() as int) =~= self.trials@);
            lemma_sort_trials(old(self)@);
        }
        self.trials = sorted;
    }
}

/// Where trial `t` goes in the sorted prefix `s[..i]`: after the last trial
/// whose slot is no greater.
pub open spec fn trial_cut(s: Seq<Trial>, t: Trial, i: int) -> int
    decreases i,
{
    if i <= 0 {
        0
    } else if s[i - 1].slot <= t.slot {
        i
    } else {
        trial_cut(s, t, i - 1)
    }
}

/// `s` ordered by slot, stably: each trial in turn is placed after every
/// earlier one whose slot is no greater.
pub open spec fn sort_trials(s: Seq<Trial>) -> Seq<Trial>
    decreases s.len(),
{
    if s.len() == 0 {
        s
    } else {
        let r = sort_trials(s.drop_last());
        r.insert(trial_cut(r, s.last(), r.len() as int), s.last())
    }
}

proof fn lemma_trial_cut(s: Seq<Trial>, t: Trial, i: int)
    requires
        0 <= i <= s.len(),
        forall|a: int, b: int| 0 <= a < b < s.len() ==> #[trigger] s[a].slot <= #[trigger] s[b].slot,
    ensures
        0 <= trial_cut(s, t, i) <= i,
        forall|k: int| trial_cut(s, t, i) <= k < i ==> #[trigger] s[k].slot > t.slot,
        forall|k: int| 0 <= k < trial_cut(s, t, i) ==> #[trigger] s[k].slot <= t.slot,
    decreases i,
{
    if i > 0 {
        if s[i - 1].slot <= t.slot {
            assert forall|k: int| 0 <= k < i implies #[trigger] s[k].slot <= t.slot by {
                if k < i - 1 {
                    assert(s[k].slot <= s[i - 1].slot);
                }
            }
        } else {
            lemma_trial_cut(s, t, i - 1);
        }
    }
}

/// Stable ordering by slot sorts and keeps every trial.
pub proof fn lemma_sort_trials(s: Seq<Trial>)
    ensures
        sort_trials(s).to_multiset() == s.to_multiset(),
        sort_trials(s).len() == s.len(),
        forall|a: int, b: int| 0 <= a < b < sort_trials(s).len() ==> #[trigger] sort_trials(s)[a].slot <= #[trigger] sort_trials(s)[b].slot,
    decreases s.len(),
{
    if s.len() > 0 {
        let rest = s.drop_last();
        lemma_sort_trials(rest);
        let r = sort_trials(rest);
        let t = s.last();
        lemma_trial_cut(r, t, r.len() as int);
        let c = trial_cut(r, t, r.len() as int);
        let out = r.insert(c, t);
        vstd::seq_lib::to_multiset_insert(r, c, t);
        vstd::seq_lib::to_multiset_build(rest, t);
        assert(rest.push(t) =~= s);
        assert forall|a: int, b: int| 0 <= a < b < out.len() implies #[trigger] out[a].slot <= #[trigger] out[b].slot by {
            if b < c {
                assert(out[a] == r[a] && out[b] == r[b]);
            } else if b == c {
                assert(out[a] == r[a]);
            } else if a == c {
                assert(out[b] == r[b - 1]);
            } else if a < c {
                assert(out[a] == r[a] && out[b] == r[b - 1]);
            } else {
                assert(out[a] == r[a - 1] && out[b] == r[b - 1]);
            }
        }
    }
}

/// How deep the ancestry walk goes before it gives up.
pub const ANCESTOR_RECURSION_LIMIT: usize = 64;

/// What the ancestry of a value says about it as an argument.
#[derive(Copy, Clone, Debug, PartialEq, Eq, Structural)]
pub enum AncestorVerdict {
    /// The function computed it: a real argument.
    Realistic,
    /// It enters the function untouched.
    UntouchedInput,
    /// A callee left it behind.
    CalleeLeftBehind,
    /// The walk could not tell.
    Unknown,
}

/// The values marked in a table indexed by value.
pub open spec fn marked(s: Seq<bool>) -> Set<VarnodeId> {
    Set::new(|v: VarnodeId| (v.0 as int) < s.len() && s[v.0 as int])
}

/// The ancestry walk from `value` at `depth`, with `seen` the values
/// already entered: the verdict and the values entered afterwards. A value
/// entered before counts as realistic (a loop-carried cycle); copies,
/// truncations and indirect effects pass their first operand's verdict on;
/// merges and pieces combine their operands'; a call result is left behind
/// by the callee; any other operation is a real computation.
pub open spec fn walk(d: &Funcdata, value: VarnodeId, depth: nat, seen: Set<VarnodeId>) -> (AncestorVerdict, Set<VarnodeId>)
    decreases 64 - depth, 0int,
{
    if depth >= 64 {
        (AncestorVerdict::Unknown, seen)
    } else if seen.contains(value) {
        (AncestorVerdict::Realistic, seen)
    } else {
        let seen1 = seen.insert(value);
        let vn = d.vn(value);
        if vn.flags.constant {
            (AncestorVerdict::Realistic, seen1)
        } else {
            match vn.def {
                None => (AncestorVerdict::UntouchedInput, seen1),
                Some(def) => {
                    let op = d.opn(def);
                    if op.dead {
                        (AncestorVerdict::Unknown, seen1)
                    } else if op.opcode == CALL || op.opcode == CALLIND || op.opcode == CALLOTHER {
                        (AncestorVerdict::CalleeLeftBehind, seen1)
                    } else if op.opcode == INDIRECT || op.opcode == COPY || op.opcode == SUBPIECE {
                        if op.inputs@.len() == 0 {
                            (AncestorVerdict::Unknown, seen1)
                        } else {
                            walk(d, op.inputs@[0], depth + 1, seen1)
                        }
                    } else if op.opcode == MULTIEQUAL || op.opcode == PIECE {
                        walk_all(d, op.inputs@, 0, depth + 1, seen1, false, false)
                    } else {
                        (AncestorVerdict::Realistic, seen1)
                    }
                },
            }
        }
    }
}

/// The combined verdict of the operands `inputs[k..]`, walked in order: an
/// untouched input decides at once; otherwise a callee-left operand, then an
/// unknown one, decides; else all are realistic.
pub open spec fn walk_all(
    d: &Funcdata,
    inputs: Seq<VarnodeId>,
    k: int,
    depth: nat,
    seen: Set<VarnodeId>,
    saw_callee: bool,
    saw_unknown: bool,
) -> (AncestorVerdict, Set<VarnodeId>)
    decreases 64 - depth, inputs.len() - k,
{
    if k < 0 || k >= inputs.len() {
        if saw_callee {
            (AncestorVerdict::CalleeLeftBehind, seen)
        } else if saw_unknown {
            (AncestorVerdict::Unknown, seen)
        } else {
            (AncestorVerdict::Realistic, seen)
        }
    } else {
        let (r, seen2) = walk(d, inputs[k], depth, seen);
        match r {
            AncestorVerdict::UntouchedInput => (AncestorVerdict::UntouchedInput, seen2),
            AncestorVerdict::CalleeLeftBehind => walk_all(d, inputs, k + 1, depth, seen2, true, saw_unknown),
            AncestorVerdict::Unknown => walk_all(d, inputs, k + 1, depth, seen2, saw_callee, true),
            AncestorVerdict::Realistic => walk_all(d, inputs, k + 1, depth, seen2, saw_callee, saw_unknown),
        }
    }
}

proof fn lemma_mark(s: Seq<bool>, v: VarnodeId)
    requires
        (v.0 as int) < s.len(),
    ensures
        marked(s.update(v.0 as int, true)) == marked(s).insert(v),
{
    assert(marked(s.update(v.0 as int, true)) =~= marked(s).insert(v));
}

/// Walks the ancestry of `value`, as `walk` describes.
fn ancestor_walk(data: &Funcdata, value: VarnodeId, depth: usize, seen: &mut Vec<bool>) -> (r: AncestorVerdict)
    requires
        data.wf(),
        data.valid_vn(value),
        old(seen)@.len() == data.vns().len(),
    ensures
        final(seen)@.len() == old(seen)@.len(),
        (r, marked(final(seen)@)) == walk(data, value, depth as nat, marked(old(seen)@)),
    decreases 64 - depth, 0int,
{
    if depth >= ANCESTOR_RECURSION_LIMIT {
        return AncestorVerdict::Unknown;
    }
    let index = value.0 as usize;
    if seen[index] {
        return AncestorVerdict::Realistic;
    }
    proof {
        lemma_mark(seen@, value);
    }
    seen.set(index, true);
    let varnode = data.varnode(value);
    if varnode.flags.constant {
        return AncestorVerdict::Realistic;
    }
    let def = match varnode.def {
        Some(d) => d,
        None => return AncestorVerdict::UntouchedInput,
    };
    proof {
        assert(data.vn_wf(value));
        assert(data.op_wf(def));
    }
    if data.opcode_of(def).is_none() {
        return AncestorVerdict::Unknown;
    }
    let operation = data.op(def);
    let opcode = operation.opcode;
    if opcode == CALL || opcode == CALLIND || opcode == CALLOTHER {
        AncestorVerdict::CalleeLeftBehind
    } else if opcode == INDIRECT || opcode == COPY || opcode == SUBPIECE {
        if operation.inputs.len() == 0 {
            AncestorVerdict::Unknown
        } else {
            let first = operation.inputs[0];
            proof {
                assert(operation.inputs@[0].0 < data.vns().len());
            }
            ancestor_walk(data, first, depth + 1, seen)
        }
    } else if opcode == MULTIEQUAL || opcode == PIECE {
        let inputs = crate::graph::copy_vn_ids(&operation.inputs);
        walk_inputs(data, &inputs, depth + 1, seen)
    } else {
        AncestorVerdict::Realistic
    }
}

/// Walks the operands of a merge or piece in order, as `walk_all`
/// describes.
fn walk_inputs(data: &Funcdata, inputs: &Vec<VarnodeId>, depth: usize, seen: &mut Vec<bool>) -> (r: AncestorVerdict)
    requires
        data.wf(),
        depth <= 64,
        crate::graph::vns_below(inputs@, data.vns().len() as int),
        old(seen)@.len() == data.vns().len(),
    ensures
        final(seen)@.len() == old(seen)@.len(),
        (r, marked(final(seen)@)) == walk_all(data, inputs@, 0, depth as nat, marked(old(seen)@), false, false),
    decreases 64 - depth, 1int,
{
    let ghost start = marked(seen@);
    let mut saw_callee = false;
    let mut saw_unknown = false;
    let mut k: usize = 0;
    while k < inputs.len()
        invariant
            start == marked(old(seen)@),
            old(seen)@.len() == data.vns().len(),
            data.wf(),
            depth <= 64,
            crate::graph::vns_below(inputs@, data.vns().len() as int),
            seen@.len() == data.vns().len(),
            k <= inputs@.len(),
            walk_all(data, inputs@, 0, depth as nat, start, false, false) == walk_all(
                data,
                inputs@,
                k as int,
                depth as nat,
                marked(seen@),
                saw_callee,
                saw_unknown,
            ),
        decreases inputs@.len() - k,
    {
        proof {
            assert(inputs@[k as int].0 < data.vns().len());
        }
        let result = ancestor_walk(data, inputs[k], depth, seen);
        match result {
            AncestorVerdict::UntouchedInput => {
                return AncestorVerdict::UntouchedInput;
            },
            AncestorVerdict::CalleeLeftBehind => {
                saw_callee = true;
            },
            AncestorVerdict::Unknown => {
                saw_unknown = true;
            },
            AncestorVerdict::Realistic => {},
        }
        k += 1;
    }
    if saw_callee {
        AncestorVerdict::CalleeLeftBehind
    } else if saw_unknown {
        AncestorVerdict::Unknown
    } else {
        AncestorVerdict::Realistic
    }
}

fn ancestor_verdict(data: &Funcdata, value: VarnodeId) -> (r: AncestorVerdict)
    requires
        data.wf(),
        data.valid_vn(value),
    ensures
        r == walk(data, value, 0, Set::empty()).0,
{
    let mut seen: Vec<bool> = Vec::new();
    let count = data.varnode_count();
    let mut i: usize = 0;
    while i < count
        invariant
            count == data.vns().len(),
            i <= count,
            seen@.len() == i,
            forall|k: int| 0 <= k < i ==> !#[trigger] seen@[k],
        decreases count - i,
    {
        seen.push(false);
        i += 1;
    }
    proof {
        assert(marked(seen@) =~= Set::<VarnodeId>::empty());
    }
    ancestor_walk(data, value, 0, &mut seen)
}

/// Whether the value at a trial has an ancestry that makes it a real
/// argument: the function computed it, rather than receiving it untouched
/// or having it left behind by a callee.
pub fn ancestor_realistic(data: &Funcdata, value: VarnodeId) -> (r: bool)
    requires
        data.wf(),
        data.valid_vn(value),
    ensures
        r == (walk(data, value, 0, Set::empty()).0 == AncestorVerdict::Realistic),
{
    match ancestor_verdict(data, value) {
        AncestorVerdict::Realistic => true,
        _ => false,
    }
}

/// The first of `ids[i..]` that is a function input without a definition.
pub open spec fn first_input_entry(d: &Funcdata, ids: Seq<VarnodeId>, i: int) -> Option<VarnodeId>
    decreases ids.len() - i,
{
    if i < 0 || i >= ids.len() {
        None
    } else if d.vn(ids[i]).flags.input && d.vn(ids[i]).def is None {
        Some(ids[i])
    } else {
        first_input_entry(d, ids, i + 1)
    }
}

/// The first of `ids[i..]` without a definition.
pub open spec fn first_unwritten(d: &Funcdata, ids: Seq<VarnodeId>, i: int) -> Option<VarnodeId>
    decreases ids.len() - i,
{
    if i < 0 || i >= ids.len() {
        None
    } else if d.vn(ids[i]).def is None {
        Some(ids[i])
    } else {
        first_unwritten(d, ids, i + 1)
    }
}

/// The value a location holds on entry: the first input recorded there,
/// else the first value there without a definition.
pub open spec fn entry_value_of(d: &Funcdata, location: Location) -> Option<VarnodeId> {
    let ids = ids_at(d.vns(), d.vns().len() as int, location.space, location.offset, location.size);
    match first_input_entry(d, ids, 0) {
        Some(v) => Some(v),
        None => first_unwritten(d, ids, 0),
    }
}

proof fn lemma_ids_at_below(vns: Seq<GraphVarnode>, n: int, space: u32, offset: u64, size: u32)
    requires
        0 <= n <= vns.len() <= u32::MAX,
    ensures
        crate::graph::vns_below(ids_at(vns, n, space, offset, size), vns.len() as int),
    decreases n,
{
    if n > 0 {
        lemma_ids_at_below(vns, n - 1, space, offset, size);
        let prev = ids_at(vns, n - 1, space, offset, size);
        let cur = ids_at(vns, n, space, offset, size);
        assert forall|k: int| 0 <= k < cur.len() implies (#[trigger] cur[k]).0 < vns.len() by {
            if k < prev.len() {
                assert(cur[k] == prev[k]);
            }
        }
    }
}

proof fn lemma_first_found_in(d: &Funcdata, ids: Seq<VarnodeId>, i: int)
    requires
        0 <= i,
    ensures
        first_input_entry(d, ids, i) matches Some(v) ==> ids.contains(v),
        first_unwritten(d, ids, i) matches Some(v) ==> ids.contains(v),
    decreases ids.len() - i,
{
    if 0 <= i < ids.len() {
        lemma_first_found_in(d, ids, i + 1);
        assert(ids[i] == ids[i]);
    }
}

/// The value a location holds on entry to the function.
fn entry_value(data: &Funcdata, location: Location) -> (r: Option<VarnodeId>)
    requires
        data.wf(),
    ensures
        r == entry_value_of(data, location),
        r matches Some(v) ==> data.valid_vn(v),
{
    let values = data.at_location(location.space, location.offset, location.size);
    proof {
        lemma_ids_at_below(data.vns(), data.vns().len() as int, location.space, location.offset, location.size);
        lemma_first_found_in(data, values@, 0);
    }
    let mut i: usize = 0;
    while i < values.len()
        invariant
            data.wf(),
            values@ == ids_at(data.vns(), data.vns().len() as int, location.space, location.offset, location.size),
            crate::graph::vns_below(values@, data.vns().len() as int),
            i <= values@.len(),
            first_input_entry(data, values@, 0) == first_input_entry(data, values@, i as int),
        decreases values@.len() - i,
    {
        proof {
            assert(values@[i as int].0 < data.vns().len());
        }
        let varnode = data.varnode(values[i]);
        if varnode.flags.input && varnode.def.is_none() {
            return Some(values[i]);
        }
        i += 1;
    }
    let mut i: usize = 0;
    while i < values.len()
        invariant
            data.wf(),
            values@ == ids_at(data.vns(), data.vns().len() as int, location.space, location.offset, location.size),
            crate::graph::vns_below(values@, data.vns().len() as int),
            i <= values@.len(),
            first_input_entry(data, values@, 0) is None,
            first_unwritten(data, values@, 0) == first_unwritten(data, values@, i as int),
        decreases values@.len() - i,
    {
        proof {
            assert(values@[i as int].0 < data.vns().len());
        }
        if data.varnode(values[i]).def.is_none() {
            return Some(values[i]);
        }
        i += 1;
    }
    None
}

/// The state a trial reaches from the verdict on its value: a computed value
/// is a parameter, an untouched input may pass through, anything else is no
/// parameter.
pub open spec fn state_for(verdict: AncestorVerdict) -> TrialState {
    match verdict {
        AncestorVerdict::Realistic => TrialState::Active,
        AncestorVerdict::UntouchedInput => TrialState::Inactive,
        _ => TrialState::NoUse,
    }
}

/// A trial once checked: its value (the attached one, or the location's
/// entry value) and the state the value's ancestry gives it.
pub open spec fn checked_trial(d: &Funcdata, t: Trial) -> Trial {
    let value = if t.value is Some {
        t.value
    } else {
        entry_value_of(d, t.location)
    };
    Trial {
        value,
        state: match value {
            None => TrialState::NoUse,
            Some(v) => state_for(walk(d, v, 0, Set::empty()).0),
        },
        ..t
    }
}

/// What checking settles for a trial: its location, slot and the rest stay;
/// a trial left with no value is no parameter; a constant value makes it
/// active; an unwritten, non-constant value makes it inactive; a value a
/// live call wrote makes it no parameter.
pub proof fn lemma_checked_trial_law(d: &Funcdata, t: Trial)
    ensures
        checked_trial(d, t).location == t.location,
        checked_trial(d, t).value is None ==> checked_trial(d, t).state == TrialState::NoUse,
        checked_trial(d, t).value matches Some(v) ==> (d.vn(v).flags.constant ==> checked_trial(d, t).state == TrialState::Active),
        checked_trial(d, t).value matches Some(v) ==> (!d.vn(v).flags.constant && d.vn(v).def is None ==> checked_trial(d, t).state
            == TrialState::Inactive),
        checked_trial(d, t).value matches Some(v) ==> (!d.vn(v).flags.constant && d.vn(v).def is Some && !d.opn(d.vn(v).def.unwrap()).dead
            && call_like(d.opn(d.vn(v).def.unwrap()).opcode) ==> checked_trial(d, t).state == TrialState::NoUse),
        t.value is Some ==> checked_trial(d, t).value == t.value,
{
}

impl ParamActive {
    /// Settles every trial: a trial without an attached value takes the
    /// entry value at its location; a trial with no value is no parameter,
    /// and one with a value is settled by the value's ancestry.
    pub fn final_trial_check(&mut self, data: &Funcdata)
        requires
            data.wf(),
            forall|k: int| 0 <= k < old(self)@.len() ==> ((#[trigger] old(self)@[k]).value matches Some(v) ==> data.valid_vn(v)),
        ensures
            final(self)@.len() == old(self)@.len(),
            forall|k: int| 0 <= k < final(self)@.len() ==> #[trigger] final(self)@[k] == checked_trial(data, old(self)@[k]),
    {
        let ghost start = self@;
        let mut i: usize = 0;
        while i < self.trials.len()
            invariant
                data.wf(),
                self@.len() == start.len(),
                forall|k: int| 0 <= k < start.len() ==> ((#[trigger] start[k]).value matches Some(v) ==> data.valid_vn(v)),
                i <= self@.len(),
                forall|k: int| i <= k < self@.len() ==> #[trigger] self@[k] == start[k],
                forall|k: int| 0 <= k < i ==> #[trigger] self@[k] == checked_trial(data, start[k]),
            decreases self@.len() - i,
        {
            let mut trial = self.trials[i];
            proof {
                assert(trial == start[i as int]);
            }
            if trial.value.is_none() {
                trial.value = entry_value(data, trial.location);
            }
            match trial.value {
                None => trial.mark_no_use(),
                Some(value) => {
                    match ancestor_verdict(data, value) {
                        AncestorVerdict::Realistic => trial.mark_active(),
                        AncestorVerdict::UntouchedInput => trial.mark_inactive(),
                        _ => trial.mark_no_use(),
                    }
                },
            }
            let ghost before = self@;
            self.trials.set(i, trial);
            proof {
                assert forall|k: int| 0 <= k < i + 1 implies #[trigger] self@[k] == checked_trial(data, start[k]) by {
                    if k < i {
                        assert(self@[k] == before[k]);
                    }
                }
            }
            i += 1;
        }
    }
}

} // verus!

verus! {

/// The first index at or after `i` where `s` holds `x`, or -1.
pub open spec fn op_index_from(s: Seq<OpId>, x: OpId, i: int) -> int
    decreases s.len() - i,
{
    if i < 0 || i >= s.len() {
        -1
    } else if s[i] == x {
        i
    } else {
        op_index_from(s, x, i + 1)
    }
}

proof fn lemma_op_index_range(s: Seq<OpId>, x: OpId, i: int)
    ensures
        op_index_from(s, x, i) == -1 || (0 <= i <= op_index_from(s, x, i) < s.len() && s[op_index_from(
            s,
            x,
            i,
        )] == x),
    decreases s.len() - i,
{
    if 0 <= i < s.len() && s[i] != x {
        lemma_op_index_range(s, x, i + 1);
    }
}

fn op_index(s: &Vec<OpId>, x: OpId) -> (r: Option<usize>)
    ensures
        r == (if op_index_from(s@, x, 0) < 0 { None } else { Some(op_index_from(s@, x, 0) as usize) }),
{
    proof {
        lemma_op_index_range(s@, x, 0);
    }
    let mut i: usize = 0;
    while i < s.len()
        invariant
            i <= s@.len(),
            op_index_from(s@, x, 0) == op_index_from(s@, x, i as int),
        decreases s@.len() - i,
    {
        if s[i] == x {
            return Some(i);
        }
        i += 1;
    }
    None
}

/// `guard` is one of the `INDIRECT`s that stand directly before `call` in
/// its block: it comes earlier, and only `INDIRECT`s lie between them.
pub open spec fn guard_for(d: &Funcdata, guard: OpId, call: OpId) -> bool {
    match d.opn(call).parent {
        None => false,
        Some(b) => {
            let ops = d.blk(b).ops@;
            let g = op_index_from(ops, guard, 0);
            let c = op_index_from(ops, call, 0);
            &&& d.opn(guard).parent == Some(b)
            &&& 0 <= g
            &&& 0 <= c
            &&& g < c
            &&& forall|k: int| g < k < c ==> d.opn(#[trigger] ops[k]).opcode == INDIRECT
        },
    }
}

fn guard_is_for_call(data: &Funcdata, guard: OpId, call: OpId) -> (r: bool)
    requires
        data.wf(),
        data.valid_op(guard),
        data.valid_op(call),
    ensures
        r == guard_for(data, guard, call),
{
    let Some(block) = data.op(call).parent else {
        return false;
    };
    proof {
        assert(data.op_wf(call));
    }
    if data.op(guard).parent != Some(block) {
        return false;
    }
    let ops = &data.block(block).ops;
    let count = ops.len();
    let Some(g) = op_index(ops, guard) else {
        return false;
    };
    let Some(c) = op_index(ops, call) else {
        return false;
    };
    proof {
        assert(data.block_wf(block));
        lemma_op_index_range(ops@, guard, 0);
        lemma_op_index_range(ops@, call, 0);
        assert(ops@.len() == count);
    }
    if g >= c {
        return false;
    }
    let mut k: usize = g + 1;
    while k < c
        invariant
            data.wf(),
            data.valid_block(block),
            *ops == data.blk(block).ops,
            g < k <= c,
            c < ops@.len(),
            g as int == op_index_from(ops@, guard, 0),
            c as int == op_index_from(ops@, call, 0),
            data.opn(call).parent == Some(block),
            data.opn(guard).parent == Some(block),
            crate::graph::ops_below(ops@, data.opv().len() as int),
            forall|j: int| g < j < k ==> data.opn(#[trigger] ops@[j]).opcode == INDIRECT,
        decreases c - k,
    {
        assert(ops@[k as int].0 < data.opv().len());
        if data.op(ops[k]).opcode != INDIRECT {
            return false;
        }
        k += 1;
    }
    true
}

/// The question a use search answers about a value.
#[derive(Copy, Clone, Debug, PartialEq, Eq, Structural)]
pub enum UseQuery {
    /// Is the value used only by this call, or by the guards standing before it?
    OnlyByCall(OpId),
    /// Is the value read by anything beyond copies, indirect effects and merges?
    Consumed,
}

/// What one reader of a value means for a use search.
#[derive(Copy, Clone, Debug, PartialEq, Eq, Structural)]
pub enum ReaderKind {
    /// The reader does not matter.
    Skip,
    /// The search goes on through the reader's result.
    Follow(VarnodeId),
    /// The reader settles the search.
    Spoil,
}

/// Operations through which a value still counts as only the call's.
pub open spec fn passes_to_call(opcode: i32) -> bool {
    opcode == COPY || opcode == MULTIEQUAL || opcode == PIECE || opcode == SUBPIECE
}

/// Operations through which a value is not yet consumed.
pub open spec fn passes_unconsumed(opcode: i32) -> bool {
    opcode == COPY || opcode == INDIRECT || opcode == MULTIEQUAL
}

/// What reader `o` means for query `q`. A destroyed reader does not matter.
/// For a call's use: the call itself and its guards do not matter, a copy,
/// merge, piece or truncation with a result is followed, and anything else
/// spoils. For consumption: a copy, indirect effect or merge is followed
/// when it has a result and does not matter otherwise, and anything else
/// spoils.
pub open spec fn reader_kind(d: &Funcdata, q: UseQuery, o: OpId) -> ReaderKind {
    let op = d.opn(o);
    if op.dead {
        ReaderKind::Skip
    } else {
        match q {
            UseQuery::OnlyByCall(call) => {
                if o == call {
                    ReaderKind::Skip
                } else if op.opcode == INDIRECT && guard_for(d, o, call) {
                    ReaderKind::Skip
                } else if passes_to_call(op.opcode) && op.output is Some {
                    ReaderKind::Follow(op.output.unwrap())
                } else {
                    ReaderKind::Spoil
                }
            },
            UseQuery::Consumed => {
                if passes_unconsumed(op.opcode) {
                    match op.output {
                        Some(w) => ReaderKind::Follow(w),
                        None => ReaderKind::Skip,
                    }
                } else {
                    ReaderKind::Spoil
                }
            },
        }
    }
}

/// The search passes from `v` to `w` through one of `v`'s readers.
pub open spec fn flows(d: &Funcdata, q: UseQuery, v: VarnodeId, w: VarnodeId) -> bool {
    exists|k: int|
        0 <= k < d.vn(v).descendants@.len() && reader_kind(d, q, #[trigger] d.vn(v).descendants@[k])
            == ReaderKind::Follow(w)
}

/// `v` settles the search: a reader spoils it, or, for a call's use, it has
/// no reader at all.
pub open spec fn spoiled(d: &Funcdata, q: UseQuery, v: VarnodeId) -> bool {
    ||| (q is OnlyByCall && d.vn(v).descendants@.len() == 0)
    ||| exists|k: int|
        0 <= k < d.vn(v).descendants@.len() && reader_kind(d, q, #[trigger] d.vn(v).descendants@[k])
            == ReaderKind::Spoil
}

/// Step `i` of `p` is one the search takes.
pub open spec fn use_link(d: &Funcdata, q: UseQuery, p: Seq<VarnodeId>, i: int) -> bool {
    flows(d, q, p[i], p[i + 1])
}

/// `p` is a chain of search steps from `root`.
pub open spec fn use_chain(d: &Funcdata, q: UseQuery, root: VarnodeId, p: Seq<VarnodeId>) -> bool {
    &&& p.len() > 0
    &&& p[0] == root
    &&& forall|i: int| 0 <= i < p.len() - 1 ==> #[trigger] use_link(d, q, p, i)
}

/// The search reaches `v` from `root`.
pub open spec fn use_reaches(d: &Funcdata, q: UseQuery, root: VarnodeId, v: VarnodeId) -> bool {
    exists|p: Seq<VarnodeId>| #[trigger] use_chain(d, q, root, p) && p.last() == v
}

/// Some value the search reaches from `root` settles it.
pub open spec fn spoils(d: &Funcdata, q: UseQuery, root: VarnodeId) -> bool {
    exists|p: Seq<VarnodeId>| #[trigger] use_chain(d, q, root, p) && spoiled(d, q, p.last())
}

proof fn lemma_use_chain_push(d: &Funcdata, q: UseQuery, root: VarnodeId, p: Seq<VarnodeId>, w: VarnodeId)
    requires
        use_chain(d, q, root, p),
        flows(d, q, p.last(), w),
    ensures
        use_chain(d, q, root, p.push(w)),
        p.push(w).last() == w,
{
    let r = p.push(w);
    assert forall|i: int| 0 <= i < r.len() - 1 implies #[trigger] use_link(d, q, r, i) by {
        if i < p.len() - 1 {
            assert(use_link(d, q, p, i));
            assert(r[i] == p[i] && r[i + 1] == p[i + 1]);
        } else {
            assert(r[i] == p.last() && r[i + 1] == w);
        }
    }
}

proof fn lemma_use_chain_drop_last(d: &Funcdata, q: UseQuery, root: VarnodeId, p: Seq<VarnodeId>)
    requires
        use_chain(d, q, root, p),
        p.len() > 1,
    ensures
        use_chain(d, q, root, p.drop_last()),
        flows(d, q, p.drop_last().last(), p.last()),
{
    let r = p.drop_last();
    assert forall|i: int| 0 <= i < r.len() - 1 implies #[trigger] use_link(d, q, r, i) by {
        assert(use_link(d, q, p, i));
        assert(r[i] == p[i] && r[i + 1] == p[i + 1]);
    }
    assert(use_link(d, q, p, p.len() - 2));
}

proof fn lemma_flows_valid(d: &Funcdata, q: UseQuery, v: VarnodeId, w: VarnodeId)
    requires
        d.wf(),
        d.valid_vn(v),
        flows(d, q, v, w),
    ensures
        d.valid_vn(w),
{
    assert(d.vn_wf(v));
    let k = choose|k: int|
        0 <= k < d.vn(v).descendants@.len() && reader_kind(d, q, #[trigger] d.vn(v).descendants@[k])
            == ReaderKind::Follow(w);
    let o = d.vn(v).descendants@[k];
    assert(d.vn(v).descendants@[k].0 < d.opv().len());
    assert(d.op_wf(o));
}

proof fn lemma_use_closed(d: &Funcdata, q: UseQuery, root: VarnodeId, seen: Seq<bool>, p: Seq<VarnodeId>)
    requires
        d.wf(),
        d.valid_vn(root),
        seen.len() == d.vns().len(),
        seen[root.0 as int],
        forall|x: VarnodeId, w: VarnodeId|
            d.valid_vn(x) && #[trigger] seen[x.0 as int] && #[trigger] flows(d, q, x, w) ==> seen[w.0 as int],
        use_chain(d, q, root, p),
    ensures
        d.valid_vn(p.last()),
        seen[p.last().0 as int],
    decreases p.len(),
{
    if p.len() > 1 {
        let r = p.drop_last();
        lemma_use_chain_drop_last(d, q, root, p);
        lemma_use_closed(d, q, root, seen, r);
        lemma_flows_valid(d, q, r.last(), p.last());
    }
}

/// What the use search has established so far.
pub open spec fn use_state(d: &Funcdata, q: UseQuery, root: VarnodeId, seen: Seq<bool>, pending: Seq<VarnodeId>) -> bool {
    &&& seen.len() == d.vns().len()
    &&& vns_below(pending, d.vns().len() as int)
    &&& forall|k: int| 0 <= k < pending.len() ==> use_reaches(d, q, root, #[trigger] pending[k])
    &&& forall|v: VarnodeId| d.valid_vn(v) && #[trigger] seen[v.0 as int] ==> use_reaches(d, q, root, v)
    &&& forall|v: VarnodeId| d.valid_vn(v) && #[trigger] seen[v.0 as int] ==> !spoiled(d, q, v)
    &&& forall|v: VarnodeId, w: VarnodeId|
        d.valid_vn(v) && #[trigger] seen[v.0 as int] && #[trigger] flows(d, q, v, w) ==> (seen[w.0 as int]
            || pending.contains(w))
    &&& (seen[root.0 as int] || pending.contains(root))
}

/// The query names an operation of the graph, when it names one.
pub open spec fn query_valid(d: &Funcdata, q: UseQuery) -> bool {
    q matches UseQuery::OnlyByCall(call) ==> d.valid_op(call)
}

fn classify_reader(data: &Funcdata, q: UseQuery, o: OpId) -> (r: ReaderKind)
    requires
        data.wf(),
        data.valid_op(o),
        query_valid(data, q),
    ensures
        r == reader_kind(data, q, o),
{
    let op = data.op(o);
    if op.dead {
        return ReaderKind::Skip;
    }
    match q {
        UseQuery::OnlyByCall(call) => {
            if o == call {
                ReaderKind::Skip
            } else if op.opcode == INDIRECT && guard_is_for_call(data, o, call) {
                ReaderKind::Skip
            } else if (op.opcode == COPY || op.opcode == MULTIEQUAL || op.opcode == PIECE || op.opcode
                == SUBPIECE) && op.output.is_some() {
                ReaderKind::Follow(op.output.unwrap())
            } else {
                ReaderKind::Spoil
            }
        },
        UseQuery::Consumed => {
            if op.opcode == COPY || op.opcode == INDIRECT || op.opcode == MULTIEQUAL {
                match op.output {
                    Some(w) => ReaderKind::Follow(w),
                    None => ReaderKind::Skip,
                }
            } else {
                ReaderKind::Spoil
            }
        },
    }
}

/// Whether a value `root` reaches settles query `q`; see [`spoils`].
fn use_search(data: &Funcdata, root: VarnodeId, q: UseQuery) -> (r: bool)
    requires
        data.wf(),
        data.valid_vn(root),
        query_valid(data, q),
    ensures
        r == spoils(data, q, root),
{
    let mut seen: Vec<bool> = Vec::new();
    let count = data.varnode_count();
    let mut fill: usize = 0;
    while fill < count
        invariant
            count == data.vns().len(),
            fill <= count,
            seen@.len() == fill,
            forall|k: int| 0 <= k < fill ==> !seen@[k],
        decreases count - fill,
    {
        seen.push(false);
        fill += 1;
    }
    let mut pending: Vec<VarnodeId> = Vec::new();
    pending.push(root);
    proof {
        assert(use_chain(data, q, root, seq![root]));
        assert(seq![root].last() == root);
        assert(use_reaches(data, q, root, root));
        assert(pending@[0] == root);
        assert(pending@.contains(root));
    }
    loop
        invariant
            data.wf(),
            data.valid_vn(root),
            query_valid(data, q),
            use_state(data, q, root, seen@, pending@),
        decreases count_false(seen@, seen@.len() as int), pending@.len(),
    {
        let ghost before_pending = pending@;
        let Some(value) = pending.pop() else {
            proof {
                assert(pending@.len() == 0);
                assert forall|p: Seq<VarnodeId>| #[trigger] use_chain(data, q, root, p) implies !spoiled(data, q, p.last()) by {
                    lemma_use_closed(data, q, root, seen@, p);
                }
            }
            return false;
        };
        proof {
            assert(before_pending == pending@.push(value));
            assert(before_pending[before_pending.len() - 1] == value);
            assert(use_reaches(data, q, root, before_pending[before_pending.len() - 1]));
            assert forall|w: VarnodeId| #[trigger] before_pending.contains(w) && w != value implies pending@.contains(w) by {
                let k = choose|k: int| 0 <= k < before_pending.len() && before_pending[k] == w;
                assert(pending@[k] == w);
            }
            assert forall|k: int| 0 <= k < pending@.len() implies use_reaches(data, q, root, #[trigger] pending@[k]) by {
                assert(pending@[k] == before_pending[k]);
            }
            assert(vns_below(pending@, data.vns().len() as int)) by {
                assert forall|k: int| 0 <= k < pending@.len() implies (#[trigger] pending@[k]).0 < data.vns().len() by {
                    assert(pending@[k] == before_pending[k]);
                }
            }
        }
        let index = value.0 as usize;
        if seen[index] {
            proof {
                assert forall|v: VarnodeId, w: VarnodeId|
                    data.valid_vn(v) && #[trigger] seen@[v.0 as int] && #[trigger] flows(data, q, v, w) implies (seen@[w.0 as int]
                    || pending@.contains(w)) by {
                    if !seen@[w.0 as int] {
                        assert(before_pending.contains(w));
                        assert(w != value);
                        assert(pending@.contains(w));
                    }
                }
                if !seen@[root.0 as int] {
                    assert(before_pending.contains(root));
                    assert(root != value);
                    assert(pending@.contains(root));
                }
            }
            continue;
        }
        let ghost seen_before = seen@;
        seen.set(index, true);
        proof {
            lemma_count_false_set(seen_before, index as int, seen_before.len() as int);
        }
        let descendants = &data.varnode(value).descendants;
        proof {
            assert(data.vn_wf(value));
        }
        let for_call = match q {
            UseQuery::OnlyByCall(_) => true,
            UseQuery::Consumed => false,
        };
        if descendants.len() == 0 && for_call {
            proof {
                assert(spoiled(data, q, value));
                let p = choose|p: Seq<VarnodeId>| #[trigger] use_chain(data, q, root, p) && p.last() == value;
                assert(use_chain(data, q, root, p));
            }
            return true;
        }
        let mut j: usize = 0;
        while j < descendants.len()
            invariant
                j <= descendants@.len(),
                *descendants == data.vn(value).descendants,
                data.wf(),
                data.valid_vn(root),
                data.valid_vn(value),
                query_valid(data, q),
                !(descendants@.len() == 0 && q is OnlyByCall),
                crate::graph::ops_below(descendants@, data.opv().len() as int),
                use_reaches(data, q, root, value),
                seen@ == seen_before.update(index as int, true),
                use_state(data, q, root, seen_before, before_pending),
                before_pending.len() > 0,
                before_pending[before_pending.len() - 1] == value,
                index == value.0,
                seen@.len() == data.vns().len(),
                vns_below(pending@, data.vns().len() as int),
                forall|k: int| 0 <= k < pending@.len() ==> use_reaches(data, q, root, #[trigger] pending@[k]),
                forall|w: VarnodeId| #[trigger] before_pending.contains(w) && w != value ==> pending@.contains(w),
                forall|k: int| 0 <= k < j ==> {
                    let kind = reader_kind(data, q, #[trigger] descendants@[k]);
                    &&& kind != ReaderKind::Spoil
                    &&& (kind matches ReaderKind::Follow(w) ==> pending@.contains(w))
                },
                count_false(seen@, seen@.len() as int) < count_false(seen_before, seen_before.len() as int),
            decreases descendants@.len() - j,
        {
            let op_id = descendants[j];
            proof {
                assert(descendants@[j as int].0 < data.opv().len());
            }
            match classify_reader(data, q, op_id) {
                ReaderKind::Skip => {},
                ReaderKind::Spoil => {
                    proof {
                        assert(descendants@[j as int] == op_id);
                        assert(spoiled(data, q, value));
                        let p = choose|p: Seq<VarnodeId>| #[trigger] use_chain(data, q, root, p) && p.last() == value;
                        assert(use_chain(data, q, root, p));
                    }
                    return true;
                },
                ReaderKind::Follow(output) => {
                    let ghost pushed_before = pending@;
                    pending.push(output);
                    proof {
                        assert(descendants@[j as int] == op_id);
                        assert(flows(data, q, value, output));
                        lemma_flows_valid(data, q, value, output);
                        let p = choose|p: Seq<VarnodeId>| #[trigger] use_chain(data, q, root, p) && p.last() == value;
                        lemma_use_chain_push(data, q, root, p, output);
                        assert(use_reaches(data, q, root, output));
                        assert forall|k: int| 0 <= k < pending@.len() implies use_reaches(data, q, root, #[trigger] pending@[k]) by {
                            if k < pushed_before.len() {
                                assert(pending@[k] == pushed_before[k]);
                            }
                        }
                        assert forall|w: VarnodeId| pushed_before.contains(w) implies pending@.contains(w) by {
                            let k = choose|k: int| 0 <= k < pushed_before.len() && pushed_before[k] == w;
                            assert(pending@[k] == w);
                        }
                        assert(pending@[pending@.len() - 1] == output);
                        assert(vns_below(pending@, data.vns().len() as int)) by {
                            assert forall|k: int| 0 <= k < pending@.len() implies (#[trigger] pending@[k]).0 < data.vns().len() by {
                                if k < pushed_before.len() {
                                    assert(pending@[k] == pushed_before[k]);
                                }
                            }
                        }
                    }
                },
            }
            j += 1;
        }
        proof {
            assert(!spoiled(data, q, value));
            assert forall|v: VarnodeId| data.valid_vn(v) && #[trigger] seen@[v.0 as int] implies use_reaches(data, q, root, v) by {
                if v != value {
                    assert(seen_before[v.0 as int]);
                }
            }
            assert forall|v: VarnodeId| data.valid_vn(v) && #[trigger] seen@[v.0 as int] implies !spoiled(data, q, v) by {
                if v != value {
                    assert(seen_before[v.0 as int]);
                }
            }
            assert forall|v: VarnodeId, w: VarnodeId|
                data.valid_vn(v) && #[trigger] seen@[v.0 as int] && #[trigger] flows(data, q, v, w) implies (seen@[w.0 as int]
                || pending@.contains(w)) by {
                if v == value {
                    let k = choose|k: int|
                        0 <= k < data.vn(v).descendants@.len() && reader_kind(data, q, #[trigger] data.vn(v).descendants@[k])
                            == ReaderKind::Follow(w);
                    assert(descendants@[k] == data.vn(v).descendants@[k]);
                } else {
                    assert(seen_before[v.0 as int]);
                    lemma_flows_valid(data, q, v, w);
                    if !seen@[w.0 as int] {
                        assert(w != value);
                        assert(!seen_before[w.0 as int]);
                        assert(before_pending.contains(w));
                    }
                }
            }
            if !seen@[root.0 as int] {
                assert(root != value);
                assert(before_pending.contains(root));
            }
        }
    }
}

/// Value `v` is stored exactly at `location`.
pub open spec fn stored_at(v: GraphVarnode, location: Location) -> bool {
    v.space == location.space && v.offset == location.offset && v.size == location.size
}

/// The first operand of an operation, when it has one.
pub open spec fn first_operand(inputs: Seq<VarnodeId>) -> Option<VarnodeId> {
    if inputs.len() == 0 {
        None
    } else {
        Some(inputs[0])
    }
}

/// Scanning `ops[..i]` from the end, the first `INDIRECT` whose result is
/// stored at `location`: its first operand, when it has one. `None` when no
/// such guard precedes.
pub open spec fn guard_value(d: &Funcdata, ops: Seq<OpId>, i: int, location: Location) -> Option<Option<VarnodeId>>
    decreases i,
{
    if i <= 0 {
        None
    } else {
        let o = d.opn(ops[i - 1]);
        if o.opcode == INDIRECT && (o.output is Some && stored_at(d.vn(o.output.unwrap()), location)) {
            Some(first_operand(o.inputs@))
        } else {
            guard_value(d, ops, i - 1, location)
        }
    }
}

/// The first of `parts[j..]` stored at `location`.
pub open spec fn part_at(d: &Funcdata, parts: Seq<VarnodeId>, j: int, location: Location) -> Option<VarnodeId>
    decreases parts.len() - j,
{
    if j < 0 || j >= parts.len() {
        None
    } else if stored_at(d.vn(parts[j]), location) {
        Some(parts[j])
    } else {
        part_at(d, parts, j + 1, location)
    }
}

/// Among the call operands `inputs[i..]`, the first stored at `location`,
/// or the first part at `location` of an operand that a `PIECE` writes.
pub open spec fn operand_at(d: &Funcdata, inputs: Seq<VarnodeId>, i: int, location: Location) -> Option<VarnodeId>
    decreases inputs.len() - i,
{
    if i < 0 || i >= inputs.len() {
        None
    } else {
        let v = inputs[i];
        if stored_at(d.vn(v), location) {
            Some(v)
        } else {
            match d.vn(v).def {
                Some(df) => {
                    if d.opn(df).opcode == PIECE && part_at(d, d.opn(df).inputs@, 0, location) is Some {
                        part_at(d, d.opn(df).inputs@, 0, location)
                    } else {
                        operand_at(d, inputs, i + 1, location)
                    }
                },
                None => operand_at(d, inputs, i + 1, location),
            }
        }
    }
}

/// The value entering `call` at `location`: the first operand of the
/// nearest guard before the call whose result is stored there, or else the
/// call operand (past the callee) stored there, or a part of one built by a
/// `PIECE`.
pub open spec fn incoming(d: &Funcdata, call: OpId, location: Location) -> Option<VarnodeId> {
    match d.opn(call).parent {
        None => None,
        Some(b) => {
            let ops = d.blk(b).ops@;
            let position = op_index_from(ops, call, 0);
            if position < 0 {
                None
            } else {
                match guard_value(d, ops, position, location) {
                    Some(r) => r,
                    None => operand_at(d, d.opn(call).inputs@, 1, location),
                }
            }
        },
    }
}

fn is_stored_at(data: &Funcdata, value: VarnodeId, location: Location) -> (r: bool)
    requires
        data.valid_vn(value),
    ensures
        r == stored_at(data.vn(value), location),
{
    let v = data.varnode(value);
    v.space == location.space && v.offset == location.offset && v.size == location.size
}

fn guard_before(data: &Funcdata, ops: &Vec<OpId>, position: usize, location: Location) -> (r: Option<Option<VarnodeId>>)
    requires
        data.wf(),
        position <= ops@.len(),
        crate::graph::ops_below(ops@, data.opv().len() as int),
    ensures
        r == guard_value(data, ops@, position as int, location),
        r matches Some(Some(v)) ==> data.valid_vn(v),
{
    let mut i: usize = position;
    while i > 0
        invariant
            data.wf(),
            i <= position <= ops@.len(),
            crate::graph::ops_below(ops@, data.opv().len() as int),
            guard_value(data, ops@, position as int, location) == guard_value(data, ops@, i as int, location),
        decreases i,
    {
        let id = ops[i - 1];
        assert(ops@[i - 1].0 < data.opv().len());
        let operation = data.op(id);
        proof {
            assert(data.op_wf(id));
        }
        if operation.opcode == INDIRECT {
            if let Some(output) = operation.output {
                if is_stored_at(data, output, location) {
                    if operation.inputs.len() == 0 {
                        return Some(None);
                    }
                    return Some(Some(operation.inputs[0]));
                }
            }
        }
        i -= 1;
    }
    None
}

fn part_stored_at(data: &Funcdata, parts: &Vec<VarnodeId>, location: Location) -> (r: Option<VarnodeId>)
    requires
        vns_below(parts@, data.vns().len() as int),
    ensures
        r == part_at(data, parts@, 0, location),
        r matches Some(v) ==> data.valid_vn(v),
{
    let mut j: usize = 0;
    while j < parts.len()
        invariant
            vns_below(parts@, data.vns().len() as int),
            part_at(data, parts@, 0, location) == part_at(data, parts@, j as int, location),
        decreases parts@.len() - j,
    {
        assert(parts@[j as int].0 < data.vns().len());
        if is_stored_at(data, parts[j], location) {
            return Some(parts[j]);
        }
        j += 1;
    }
    None
}

fn operand_stored_at(data: &Funcdata, inputs: &Vec<VarnodeId>, location: Location) -> (r: Option<VarnodeId>)
    requires
        data.wf(),
        vns_below(inputs@, data.vns().len() as int),
    ensures
        r == operand_at(data, inputs@, 1, location),
        r matches Some(v) ==> data.valid_vn(v),
{
    let mut k: usize = 1;
    while k < inputs.len()
        invariant
            data.wf(),
            1 <= k,
            vns_below(inputs@, data.vns().len() as int),
            operand_at(data, inputs@, 1, location) == operand_at(data, inputs@, k as int, location),
        decreases inputs@.len() - k,
    {
        let value = inputs[k];
        assert(inputs@[k as int].0 < data.vns().len());
        if is_stored_at(data, value, location) {
            return Some(value);
        }
        proof {
            assert(data.vn_wf(value));
        }
        match data.varnode(value).def {
            Some(df) => {
                if data.op(df).opcode == PIECE {
                    proof {
                        assert(data.op_wf(df));
                    }
                    match part_stored_at(data, &data.op(df).inputs, location) {
                        Some(part) => {
                            return Some(part);
                        },
                        None => {},
                    }
                }
            },
            None => {},
        }
        k += 1;
    }
    None
}

fn incoming_value(data: &Funcdata, call: OpId, location: Location) -> (r: Option<VarnodeId>)
    requires
        data.wf(),
        data.valid_op(call),
    ensures
        r == incoming(data, call, location),
        r matches Some(v) ==> data.valid_vn(v),
{
    proof {
        assert(data.op_wf(call));
    }
    let Some(block) = data.op(call).parent else {
        return None;
    };
    let ops = &data.block(block).ops;
    let count = ops.len();
    proof {
        assert(data.block_wf(block));
        lemma_op_index_range(ops@, call, 0);
        assert(ops@.len() == count);
    }
    let Some(position) = op_index(ops, call) else {
        return None;
    };
    match guard_before(data, ops, position, location) {
        Some(found) => found,
        None => operand_stored_at(data, &data.op(call).inputs, location),
    }
}

/// Following copies and indirect effects back through their first operand,
/// at most [`ANCESTOR_RECURSION_LIMIT`] steps from `depth`.
pub open spec fn origin(d: &Funcdata, v: VarnodeId, depth: nat) -> VarnodeId
    decreases 64 - depth,
{
    if depth >= 64 {
        v
    } else {
        match d.vn(v).def {
            None => v,
            Some(df) => {
                let op = d.opn(df);
                if (op.opcode == COPY || op.opcode == INDIRECT) && op.inputs@.len() > 0 {
                    origin(d, op.inputs@[0], depth + 1)
                } else {
                    v
                }
            },
        }
    }
}

fn transparent_origin(data: &Funcdata, value: VarnodeId, depth: usize) -> (r: VarnodeId)
    requires
        data.wf(),
        data.valid_vn(value),
    ensures
        r == origin(data, value, depth as nat),
        data.valid_vn(r),
    decreases 64 - depth,
{
    if depth >= ANCESTOR_RECURSION_LIMIT {
        return value;
    }
    proof {
        assert(data.vn_wf(value));
    }
    let Some(def) = data.varnode(value).def else {
        return value;
    };
    let operation = data.op(def);
    proof {
        assert(data.op_wf(def));
    }
    if (operation.opcode == COPY || operation.opcode == INDIRECT) && operation.inputs.len() > 0 {
        return transparent_origin(data, operation.inputs[0], depth + 1);
    }
    value
}

/// `a + b`, capped at the largest `u64`.
pub open spec fn capped_sum(a: u64, b: u64) -> u64 {
    if a + b > u64::MAX {
        u64::MAX
    } else {
        (a + b) as u64
    }
}

/// The constant second operand of an operation, when it has one.
pub open spec fn constant_second(d: &Funcdata, op: crate::graph::GraphOp) -> Option<u64> {
    if op.inputs@.len() < 2 {
        None
    } else if d.vn(op.inputs@[1]).flags.constant {
        Some(d.vn(op.inputs@[1]).offset)
    } else {
        None
    }
}

/// When `first` and `second` are both truncations of one whole, what that
/// decides: `Some(Some(whole))` when they are its two adjacent low halves,
/// `Some(None)` when the truncations are malformed, `None` when it decides
/// nothing.
pub open spec fn split_whole(d: &Funcdata, first: VarnodeId, second: VarnodeId) -> Option<Option<VarnodeId>> {
    match (d.vn(first).def, d.vn(second).def) {
        (Some(fd), Some(sd)) => {
            let fo = d.opn(fd);
            let so = d.opn(sd);
            if fo.opcode == SUBPIECE && so.opcode == SUBPIECE && first_operand(fo.inputs@) == first_operand(
                so.inputs@,
            ) {
                match first_operand(fo.inputs@) {
                    None => Some(None),
                    Some(whole) => {
                        match (constant_second(d, fo), constant_second(d, so)) {
                            (Some(a), Some(b)) => {
                                let ws = d.vn(whole).size as u64;
                                let fs = d.vn(first).size as u64;
                                let ss = d.vn(second).size as u64;
                                if ((a == 0 && b == fs) || (b == 0 && a == ss)) && capped_sum(a, fs) <= ws
                                    && capped_sum(b, ss) <= ws {
                                    Some(Some(whole))
                                } else {
                                    None
                                }
                            },
                            _ => Some(None),
                        }
                    },
                }
            } else {
                None
            }
        },
        _ => None,
    }
}

/// Among the readers `k..` of `first`, the first `PIECE` joining `first`
/// and `second` in either order that has a result: that result.
pub open spec fn joining_piece(d: &Funcdata, first: VarnodeId, second: VarnodeId, k: int) -> Option<VarnodeId>
    decreases d.vn(first).descendants@.len() - k,
{
    let readers = d.vn(first).descendants@;
    if k < 0 || k >= readers.len() {
        None
    } else {
        let op = d.opn(readers[k]);
        if op.opcode == PIECE && op.inputs@.len() >= 2 && ((op.inputs@[0] == first && op.inputs@[1] == second)
            || (op.inputs@[0] == second && op.inputs@[1] == first)) && op.output is Some {
            op.output
        } else {
            joining_piece(d, first, second, k + 1)
        }
    }
}

/// The one wider value that two adjacent argument values are halves of:
/// after looking through copies, the whole both truncate, or a `PIECE`
/// already joining them.
pub open spec fn collapsed(d: &Funcdata, first: VarnodeId, second: VarnodeId) -> Option<VarnodeId> {
    let a = origin(d, first, 0);
    let b = origin(d, second, 0);
    match split_whole(d, a, b) {
        Some(r) => r,
        None => joining_piece(d, a, b, 0),
    }
}

fn collapse_piece(data: &Funcdata, first: VarnodeId, second: VarnodeId) -> (r: Option<VarnodeId>)
    requires
        data.wf(),
        data.valid_vn(first),
        data.valid_vn(second),
    ensures
        r == collapsed(data, first, second),
        r matches Some(v) ==> data.valid_vn(v),
{
    let first = transparent_origin(data, first, 0);
    let second = transparent_origin(data, second, 0);
    proof {
        assert(data.vn_wf(first));
        assert(data.vn_wf(second));
    }
    let first_def = data.varnode(first).def;
    let second_def = data.varnode(second).def;
    if let (Some(fd), Some(sd)) = (first_def, second_def) {
        let first_op = data.op(fd);
        let second_op = data.op(sd);
        proof {
            assert(data.op_wf(fd));
            assert(data.op_wf(sd));
        }
        let first_in = if first_op.inputs.len() == 0 { None } else { Some(first_op.inputs[0]) };
        let second_in = if second_op.inputs.len() == 0 { None } else { Some(second_op.inputs[0]) };
        if first_op.opcode == SUBPIECE && second_op.opcode == SUBPIECE && first_in == second_in {
            let Some(whole) = first_in else {
                return None;
            };
            if first_op.inputs.len() < 2 || !data.varnode(first_op.inputs[1]).flags.constant {
                return None;
            }
            if second_op.inputs.len() < 2 || !data.varnode(second_op.inputs[1]).flags.constant {
                return None;
            }
            let a = data.varnode(first_op.inputs[1]).offset;
            let b = data.varnode(second_op.inputs[1]).offset;
            let ws = data.varnode(whole).size as u64;
            let fs = data.varnode(first).size as u64;
            let ss = data.varnode(second).size as u64;
            if ((a == 0 && b == fs) || (b == 0 && a == ss)) && a.saturating_add(fs) <= ws
                && b.saturating_add(ss) <= ws {
                return Some(whole);
            }
        }
    }
    joining_piece_of(data, first, second)
}

fn joining_piece_of(data: &Funcdata, first: VarnodeId, second: VarnodeId) -> (r: Option<VarnodeId>)
    requires
        data.wf(),
        data.valid_vn(first),
    ensures
        r == joining_piece(data, first, second, 0),
        r matches Some(v) ==> data.valid_vn(v),
{
    proof {
        assert(data.vn_wf(first));
    }
    let readers = &data.varnode(first).descendants;
    let mut k: usize = 0;
    while k < readers.len()
        invariant
            data.wf(),
            data.valid_vn(first),
            *readers == data.vn(first).descendants,
            crate::graph::ops_below(readers@, data.opv().len() as int),
            joining_piece(data, first, second, 0) == joining_piece(data, first, second, k as int),
        decreases readers@.len() - k,
    {
        assert(readers@[k as int].0 < data.opv().len());
        let op = data.op(readers[k]);
        proof {
            assert(data.op_wf(readers@[k as int]));
        }
        if op.opcode == PIECE && op.inputs.len() >= 2 && ((op.inputs[0] == first && op.inputs[1] == second)
            || (op.inputs[0] == second && op.inputs[1] == first)) && op.output.is_some() {
            return op.output;
        }
        k += 1;
    }
    None
}

/// Two locations are adjacent: the second begins where the first ends.
pub open spec fn adjacent_spec(first: Location, second: Location) -> bool {
    first.space == second.space && capped_sum(first.offset, first.size as u64) == second.offset
}

fn adjacent(first: Location, second: Location) -> (r: bool)
    ensures
        r == adjacent_spec(first, second),
{
    first.space == second.space && first.offset.saturating_add(first.size as u64) == second.offset
}

/// `values[index..]` with each pair at adjacent locations that are halves of
/// one wider value replaced by that value, pairing from the left.
pub open spec fn collapse_wide(d: &Funcdata, locations: Seq<Location>, values: Seq<VarnodeId>, index: int) -> Seq<VarnodeId>
    decreases values.len() - index,
{
    if index < 0 || index >= values.len() {
        Seq::empty()
    } else if index + 1 < values.len() && adjacent_spec(locations[index], locations[index + 1])
        && collapsed(d, values[index], values[index + 1]) is Some {
        seq![collapsed(d, values[index], values[index + 1]).unwrap()] + collapse_wide(d, locations, values, index + 2)
    } else {
        seq![values[index]] + collapse_wide(d, locations, values, index + 1)
    }
}

fn collapse_wide_arguments(data: &Funcdata, locations: &[Location], values: &Vec<VarnodeId>) -> (r: Vec<VarnodeId>)
    requires
        data.wf(),
        crate::dynamic::values_valid(data, values@),
        values@.len() <= locations@.len(),
    ensures
        r@ == collapse_wide(data, locations@, values@, 0),
{
    let mut result: Vec<VarnodeId> = Vec::new();
    let mut index: usize = 0;
    while index < values.len()
        invariant
            data.wf(),
            crate::dynamic::values_valid(data, values@),
            values@.len() <= locations@.len(),
            index <= values@.len() + 1,
            result@ + collapse_wide(data, locations@, values@, index as int) == collapse_wide(data, locations@, values@, 0),
        decreases values@.len() + 1 - index,
    {
        let ghost before = result@;
        if index + 1 < values.len() && adjacent(locations[index], locations[index + 1]) {
            match collapse_piece(data, values[index], values[index + 1]) {
                Some(whole) => {
                    result.push(whole);
                    proof {
                        assert(result@ + collapse_wide(data, locations@, values@, index as int + 2) =~= before
                            + collapse_wide(data, locations@, values@, index as int));
                    }
                    index += 2;
                    continue;
                },
                None => {},
            }
        }
        result.push(values[index]);
        proof {
            assert(result@ + collapse_wide(data, locations@, values@, index as int + 1) =~= before
                + collapse_wide(data, locations@, values@, index as int));
        }
        index += 1;
    }
    proof {
        assert(collapse_wide(data, locations@, values@, index as int) =~= Seq::<VarnodeId>::empty());
        assert(result@ =~= result@ + Seq::<VarnodeId>::empty());
    }
    result
}

/// The values of the first `k` argument trials of `call`, and whether the
/// trials have ended. A location with no incoming value ends them unused; a
/// computed value used only by the call is an argument; a computed value
/// used elsewhere, or an untouched function input, is the last argument; a
/// value a callee left behind, or one of unknown ancestry, ends them unused.
pub open spec fn trial_fold(d: &Funcdata, call: OpId, locations: Seq<Location>, k: int) -> (Seq<VarnodeId>, bool)
    decreases k,
{
    if k <= 0 {
        (Seq::empty(), false)
    } else {
        let (values, ended) = trial_fold(d, call, locations, k - 1);
        if ended {
            (values, true)
        } else {
            match incoming(d, call, locations[k - 1]) {
                None => (values, true),
                Some(v) => {
                    match walk(d, v, 0, Set::empty()).0 {
                        AncestorVerdict::Realistic => (values.push(v), spoils(d, UseQuery::OnlyByCall(call), v)),
                        AncestorVerdict::UntouchedInput => (values.push(v), true),
                        _ => (values, true),
                    }
                },
            }
        }
    }
}

/// The recovered arguments of `call` for the convention's ordered candidate
/// `locations`: the trial values, with adjacent halves of one wider value
/// joined.
pub open spec fn call_args(d: &Funcdata, call: OpId, locations: Seq<Location>) -> Seq<VarnodeId> {
    collapse_wide(d, locations, trial_fold(d, call, locations, locations.len() as int).0, 0)
}

/// Operations that transfer control to another function.
pub open spec fn call_like(opcode: i32) -> bool {
    opcode == CALL || opcode == CALLIND || opcode == CALLOTHER
}

/// The live calls among the first `n` operation slots, in arena order.
pub open spec fn call_ops(ops: Seq<crate::graph::GraphOp>, n: int) -> Seq<OpId>
    decreases n,
{
    if n <= 0 {
        Seq::empty()
    } else if !ops[n - 1].dead && call_like(ops[n - 1].opcode) {
        call_ops(ops, n - 1).push(OpId((n - 1) as u32))
    } else {
        call_ops(ops, n - 1)
    }
}

/// The live calls of the graph, in arena order.
pub open spec fn calls_of(d: &Funcdata) -> Seq<OpId> {
    call_ops(d.opv(), d.opv().len() as int)
}

proof fn lemma_trial_fold_len(d: &Funcdata, call: OpId, locations: Seq<Location>, k: int)
    requires
        0 <= k,
    ensures
        trial_fold(d, call, locations, k).0.len() <= k,
    decreases k,
{
    if k > 0 {
        lemma_trial_fold_len(d, call, locations, k - 1);
    }
}

proof fn lemma_collapse_wide_len(d: &Funcdata, locations: Seq<Location>, values: Seq<VarnodeId>, index: int)
    requires
        0 <= index,
    ensures
        collapse_wide(d, locations, values, index).len() <= (if index < values.len() { values.len() - index } else { 0 }),
    decreases values.len() - index,
{
    if index < values.len() {
        lemma_collapse_wide_len(d, locations, values, index + 1);
        if index + 1 < values.len() {
            lemma_collapse_wide_len(d, locations, values, index + 2);
        }
    }
}

/// What the arguments of the calls are owed: the calls listed are exactly
/// the live calls, and a call has at most one argument per candidate
/// location, so none when there are no locations.
pub proof fn lemma_call_arguments_law(d: &Funcdata, call: OpId, locations: Seq<Location>)
    requires
        d.wf(),
    ensures
        call_args(d, call, locations).len() <= locations.len(),
        locations.len() == 0 ==> call_args(d, call, locations).len() == 0,
        forall|o: OpId|
            #![trigger calls_of(d).contains(o)]
            calls_of(d).contains(o) <==> (d.valid_op(o) && !d.opn(o).dead && call_like(d.opn(o).opcode)),
{
    lemma_trial_fold_len(d, call, locations, locations.len() as int);
    lemma_collapse_wide_len(d, locations, trial_fold(d, call, locations, locations.len() as int).0, 0);
    lemma_call_ops(d.opv(), d.opv().len() as int);
    assert forall|o: OpId|
        #![trigger calls_of(d).contains(o)]
        calls_of(d).contains(o) <==> (d.valid_op(o) && !d.opn(o).dead && call_like(d.opn(o).opcode)) by {
        if calls_of(d).contains(o) {
            let k = choose|k: int| 0 <= k < calls_of(d).len() && calls_of(d)[k] == o;
            assert(0 <= calls_of(d)[k].0 < d.opv().len());
        }
        if d.valid_op(o) && !d.opn(o).dead && call_like(d.opn(o).opcode) {
            lemma_call_ops_complete(d.opv(), d.opv().len() as int, o);
        }
    }
}

proof fn lemma_call_ops(ops: Seq<crate::graph::GraphOp>, n: int)
    requires
        0 <= n <= ops.len(),
        ops.len() <= u32::MAX,
    ensures
        forall|k: int| 0 <= k < call_ops(ops, n).len() ==> {
            let o = #[trigger] call_ops(ops, n)[k];
            &&& 0 <= o.0 < n
            &&& !ops[o.0 as int].dead
            &&& call_like(ops[o.0 as int].opcode)
        },
        call_ops(ops, n).no_duplicates(),
    decreases n,
{
    if n > 0 {
        lemma_call_ops(ops, n - 1);
        let prev = call_ops(ops, n - 1);
        let cur = call_ops(ops, n);
        assert forall|k: int| 0 <= k < cur.len() implies {
            let o = #[trigger] cur[k];
            &&& 0 <= o.0 < n
            &&& !ops[o.0 as int].dead
            &&& call_like(ops[o.0 as int].opcode)
        } by {
            if k < prev.len() {
                assert(cur[k] == prev[k]);
            }
        }
        if cur.len() > prev.len() {
            assert forall|a: int, b: int| 0 <= a < b < cur.len() implies cur[a] != cur[b] by {
                if b < prev.len() {
                    assert(cur[a] == prev[a] && cur[b] == prev[b]);
                } else {
                    assert(cur[a] == prev[a]);
                    assert(prev[a].0 < n - 1);
                }
            }
        }
    }
}

fn calls(data: &Funcdata) -> (r: Vec<OpId>)
    requires
        data.wf(),
    ensures
        r@ == calls_of(data),
{
    let mut result: Vec<OpId> = Vec::new();
    let count = crate::graph::Funcdata::op_arena_len(data);
    let mut i: usize = 0;
    while i < count
        invariant
            data.wf(),
            count == data.opv().len(),
            i <= count,
            result@ == call_ops(data.opv(), i as int),
        decreases count - i,
    {
        let operation = data.op(OpId(i as u32));
        if !operation.dead && (operation.opcode == CALL || operation.opcode == CALLIND || operation.opcode
            == CALLOTHER) {
            result.push(OpId(i as u32));
        }
        i += 1;
    }
    result
}

fn only_call_use(data: &Funcdata, value: VarnodeId, call: OpId) -> (r: bool)
    requires
        data.wf(),
        data.valid_vn(value),
        data.valid_op(call),
    ensures
        r == !spoils(data, UseQuery::OnlyByCall(call), value),
{
    !use_search(data, value, UseQuery::OnlyByCall(call))
}

fn trial_values(data: &Funcdata, call: OpId, locations: &[Location]) -> (r: Vec<VarnodeId>)
    requires
        data.wf(),
        data.valid_op(call),
    ensures
        r@ == call_args(data, call, locations@),
{
    let mut values: Vec<VarnodeId> = Vec::new();
    let mut ended = false;
    let mut i: usize = 0;
    while i < locations.len()
        invariant
            data.wf(),
            data.valid_op(call),
            i <= locations@.len(),
            (values@, ended) == trial_fold(data, call, locations@, i as int),
            values@.len() <= i,
            crate::dynamic::values_valid(data, values@),
        decreases locations@.len() - i,
    {
        if !ended {
            match incoming_value(data, call, locations[i]) {
                None => {
                    ended = true;
                },
                Some(value) => {
                    match ancestor_verdict(data, value) {
                        AncestorVerdict::Realistic => {
                            values.push(value);
                            ended = !only_call_use(data, value, call);
                        },
                        AncestorVerdict::UntouchedInput => {
                            values.push(value);
                            ended = true;
                        },
                        _ => {
                            ended = true;
                        },
                    }
                },
            }
        }
        i += 1;
    }
    collapse_wide_arguments(data, locations, &values)
}

/// Every live call with its recovered arguments, in arena order.
///
/// `argument_locations` is the convention's ordered candidate list. A
/// location with no incoming value, or one whose value a callee left behind,
/// ends the list; an untouched function input, or a computed value used
/// beyond the call, is kept as the last argument, and the location after it
/// is not claimed; adjacent halves of one wider value are joined into it.
pub fn call_arguments(data: &Funcdata, argument_locations: &[Location]) -> (r: Vec<(OpId, Vec<VarnodeId>)>)
    requires
        data.wf(),
    ensures
        r@.len() == calls_of(data).len(),
        forall|k: int| 0 <= k < r@.len() ==> (#[trigger] r@[k]).0 == calls_of(data)[k] && r@[k].1@ == call_args(
            data,
            calls_of(data)[k],
            argument_locations@,
        ),
{
    let all = calls(data);
    proof {
        lemma_call_ops(data.opv(), data.opv().len() as int);
    }
    let mut result: Vec<(OpId, Vec<VarnodeId>)> = Vec::new();
    let mut i: usize = 0;
    while i < all.len()
        invariant
            data.wf(),
            all@ == calls_of(data),
            forall|k: int| 0 <= k < all@.len() ==> data.valid_op(#[trigger] all@[k]),
            i <= all@.len(),
            result@.len() == i,
            forall|k: int| 0 <= k < i ==> (#[trigger] result@[k]).0 == all@[k] && result@[k].1@ == call_args(
                data,
                all@[k],
                argument_locations@,
            ),
        decreases all@.len() - i,
    {
        let call = all[i];
        let values = trial_values(data, call, argument_locations);
        result.push((call, values));
        i += 1;
    }
    result
}

proof fn lemma_chain_valid(d: &Funcdata, q: UseQuery, root: VarnodeId, p: Seq<VarnodeId>)
    requires
        d.wf(),
        d.valid_vn(root),
        use_chain(d, q, root, p),
    ensures
        forall|i: int| 0 <= i < p.len() ==> d.valid_vn(#[trigger] p[i]),
    decreases p.len(),
{
    if p.len() > 1 {
        lemma_use_chain_drop_last(d, q, root, p);
        lemma_chain_valid(d, q, root, p.drop_last());
        lemma_flows_valid(d, q, p.drop_last().last(), p.last());
        assert forall|i: int| 0 <= i < p.len() implies d.valid_vn(#[trigger] p[i]) by {
            if i < p.len() - 1 {
                assert(p[i] == p.drop_last()[i]);
            }
        }
    }
}

/// Two graphs that agree on every reader list and on every operation's
/// opcode and liveness, and on the result of every operation that is not a
/// call, agree on what each reader means for consumption.
pub open spec fn same_consumers(a: &Funcdata, b: &Funcdata) -> bool {
    &&& a.vns().len() == b.vns().len()
    &&& a.opv().len() == b.opv().len()
    &&& forall|v: VarnodeId| #[trigger] a.valid_vn(v) ==> a.vn(v).descendants == b.vn(v).descendants
    &&& forall|o: OpId|
        #[trigger] a.valid_op(o) ==> {
            &&& a.opn(o).dead == b.opn(o).dead
            &&& a.opn(o).opcode == b.opn(o).opcode
            &&& (a.opn(o).output == b.opn(o).output || call_like(a.opn(o).opcode))
        }
}

proof fn lemma_consumed_frame_dir(a: &Funcdata, b: &Funcdata, root: VarnodeId)
    requires
        a.wf(),
        b.wf(),
        a.valid_vn(root),
        same_consumers(a, b),
        spoils(a, UseQuery::Consumed, root),
    ensures
        spoils(b, UseQuery::Consumed, root),
{
    let q = UseQuery::Consumed;
    let p = choose|p: Seq<VarnodeId>| #[trigger] use_chain(a, q, root, p) && spoiled(a, q, p.last());
    lemma_chain_valid(a, q, root, p);
    assert forall|v: VarnodeId, k: int|
        a.valid_vn(v) && 0 <= k < a.vn(v).descendants@.len() implies reader_kind(a, q, #[trigger] a.vn(v).descendants@[k])
        == reader_kind(b, q, a.vn(v).descendants@[k]) by {
        assert(a.vn_wf(v));
        assert(a.vn(v).descendants@[k].0 < a.opv().len());
        let o = a.vn(v).descendants@[k];
        assert(a.valid_op(o));
    }
    assert forall|i: int| 0 <= i < p.len() - 1 implies #[trigger] use_link(b, q, p, i) by {
        assert(use_link(a, q, p, i));
        let v = p[i];
        let w = p[i + 1];
        assert(a.valid_vn(v));
        let k = choose|k: int|
            0 <= k < a.vn(v).descendants@.len() && reader_kind(a, q, #[trigger] a.vn(v).descendants@[k])
                == ReaderKind::Follow(w);
        assert(b.vn(v).descendants@[k] == a.vn(v).descendants@[k]);
        assert(reader_kind(b, q, b.vn(v).descendants@[k]) == ReaderKind::Follow(w));
    }
    assert(use_chain(b, q, root, p));
    let last = p.last();
    assert(a.valid_vn(last)) by {
        assert(p[p.len() - 1] == last);
    }
    let k = choose|k: int|
        0 <= k < a.vn(last).descendants@.len() && reader_kind(a, q, #[trigger] a.vn(last).descendants@[k])
            == ReaderKind::Spoil;
    assert(b.vn(last).descendants@[k] == a.vn(last).descendants@[k]);
    assert(reader_kind(b, q, b.vn(last).descendants@[k]) == ReaderKind::Spoil);
    assert(spoiled(b, q, last));
}

/// Whether a value is consumed does not change between graphs that agree
/// on what each reader means for consumption.
proof fn lemma_consumed_frame(a: &Funcdata, b: &Funcdata, root: VarnodeId)
    requires
        a.wf(),
        b.wf(),
        a.valid_vn(root),
        same_consumers(a, b),
    ensures
        spoils(a, UseQuery::Consumed, root) == spoils(b, UseQuery::Consumed, root),
{
    if spoils(a, UseQuery::Consumed, root) {
        lemma_consumed_frame_dir(a, b, root);
    }
    if spoils(b, UseQuery::Consumed, root) {
        assert forall|v: VarnodeId| #[trigger] b.valid_vn(v) implies b.vn(v).descendants == a.vn(v).descendants by {
            assert(a.valid_vn(v));
        }
        assert forall|o: OpId| #[trigger] b.valid_op(o) implies {
            &&& b.opn(o).dead == a.opn(o).dead
            &&& b.opn(o).opcode == a.opn(o).opcode
            &&& (b.opn(o).output == a.opn(o).output || call_like(b.opn(o).opcode))
        } by {
            assert(a.valid_op(o));
        }
        assert(same_consumers(b, a));
        lemma_consumed_frame_dir(b, a, root);
    }
}

/// Operation `o` is a live call whose result nothing consumes.
pub open spec fn unconsumed_result(d: &Funcdata, o: OpId) -> bool {
    &&& !d.opn(o).dead
    &&& call_like(d.opn(o).opcode)
    &&& d.opn(o).output is Some
    &&& !spoils(d, UseQuery::Consumed, d.opn(o).output.unwrap())
}

/// The number of the first `k` of `ops` whose result nothing consumes.
pub open spec fn unconsumed_count(d: &Funcdata, ops: Seq<OpId>, k: int) -> nat
    decreases k,
{
    if k <= 0 {
        0
    } else {
        unconsumed_count(d, ops, k - 1) + if unconsumed_result(d, ops[k - 1]) { 1nat } else { 0nat }
    }
}

/// An operation after its result is dropped when nothing consumes it.
pub open spec fn without_unconsumed(d: &Funcdata, o: OpId) -> GraphOp {
    if unconsumed_result(d, o) {
        GraphOp { output: None, ..d.opn(o) }
    } else {
        d.opn(o)
    }
}

/// Drops the result of each call that nothing reads, other than through
/// copies, indirect effects and merges.
pub struct ActionActiveReturn;

impl Action for ActionActiveReturn {
    open spec fn title(&self) -> Seq<char> {
        "activereturn"@
    }

    fn name(&self) -> (r: &'static str) {
        "activereturn"
    }

    open spec fn reports(&self, pre: Funcdata, post: Funcdata, changes: usize) -> bool {
        changes == unconsumed_count(&pre, calls_of(&pre), calls_of(&pre).len() as int)
    }

    fn apply(&self, data: &mut Funcdata) -> (changes: usize)
        ensures
            final(data).opv().len() == old(data).opv().len(),
            forall|o: OpId| #[trigger] old(data).valid_op(o) ==> final(data).opn(o) == without_unconsumed(&*old(data), o),
            final(data).bls() == old(data).bls(),
            same_consumers(&*old(data), &*final(data)),
            changes == unconsumed_count(&*old(data), calls_of(&*old(data)), calls_of(&*old(data)).len() as int),
            forall|o: OpId| #[trigger] final(data).valid_op(o) ==> !unconsumed_result(&*final(data), o),
    {
        let ghost pre = *data;
        let all = calls(data);
        proof {
            lemma_call_ops(pre.opv(), pre.opv().len() as int);
        }
        let mut changed: usize = 0;
        let mut i: usize = 0;
        while i < all.len()
            invariant
                pre.wf(),
                data.wf(),
                all@ == calls_of(&pre),
                all@.no_duplicates(),
                forall|k: int| 0 <= k < all@.len() ==> pre.valid_op(#[trigger] all@[k]) && !pre.opn(all@[k]).dead
                    && call_like(pre.opn(all@[k]).opcode),
                i <= all@.len(),
                data.opv().len() == pre.opv().len(),
                data.bls() == pre.bls(),
                arenas_grow(&pre, &*data),
                same_consumers(&pre, &*data),
                forall|o: OpId| #[trigger] pre.valid_op(o) ==> data.opn(o) == (if all@.take(i as int).contains(o) {
                    without_unconsumed(&pre, o)
                } else {
                    pre.opn(o)
                }),
                changed == unconsumed_count(&pre, all@, i as int),
                changed <= i,
            decreases all@.len() - i,
        {
            let call = all[i];
            proof {
                assert(all@[i as int] == call);
                assert(!all@.take(i as int).contains(call)) by {
                    if all@.take(i as int).contains(call) {
                        let j = choose|j: int| 0 <= j < i && all@.take(i as int)[j] == call;
                        assert(all@[j] == all@[i as int]);
                    }
                }
                assert(data.opn(call) == pre.opn(call));
            }
            let output = data.op(call).output;
            let ghost before = *data;
            if let Some(value) = output {
                proof {
                    assert(pre.op_wf(call));
                    lemma_consumed_frame(&pre, &before, value);
                }
                if !use_search(data, value, UseQuery::Consumed) {
                    data.op_set_output(call, None);
                    changed += 1;
                    proof {
                        assert(unconsumed_result(&pre, call));
                        assert(data.opn(call) == without_unconsumed(&pre, call));
                        assert forall|o: OpId| #[trigger] pre.valid_op(o) implies {
                            &&& pre.opn(o).dead == data.opn(o).dead
                            &&& pre.opn(o).opcode == data.opn(o).opcode
                            &&& (pre.opn(o).output == data.opn(o).output || call_like(pre.opn(o).opcode))
                        } by {
                            if o != call {
                                assert(data.opn(o) == before.opn(o));
                            }
                        }
                        assert forall|v: VarnodeId| #[trigger] pre.valid_vn(v) implies pre.vn(v).descendants == data.vn(v).descendants by {
                            assert(data.vn(v).descendants == before.vn(v).descendants);
                        }
                    }
                }
            }
            proof {
                assert(data.opn(call) == without_unconsumed(&pre, call));
                assert(all@.take(i as int + 1) =~= all@.take(i as int).push(call));
                assert forall|o: OpId| #[trigger] pre.valid_op(o) implies data.opn(o) == (if all@.take(i as int + 1).contains(o) {
                    without_unconsumed(&pre, o)
                } else {
                    pre.opn(o)
                }) by {
                    if o != call {
                        assert(all@.take(i as int + 1).contains(o) == all@.take(i as int).contains(o));
                        assert(data.opn(o) == before.opn(o));
                    } else {
                        assert(all@.take(i as int + 1)[i as int] == call);
                        assert(all@.take(i as int + 1).contains(o));
                    }
                }
            }
            i += 1;
        }
        proof {
            assert(all@.take(all@.len() as int) =~= all@);
            assert forall|o: OpId| #[trigger] pre.valid_op(o) && !all@.contains(o) implies !unconsumed_result(&pre, o) by {
                if unconsumed_result(&pre, o) {
                    lemma_calls_complete(&pre, o);
                }
            }
            assert forall|o: OpId| #[trigger] data.valid_op(o) implies !unconsumed_result(&*data, o) by {
                assert(pre.valid_op(o));
                if !unconsumed_result(&pre, o) && !pre.opn(o).dead && call_like(pre.opn(o).opcode) && pre.opn(o).output is Some {
                    assert(pre.op_wf(o));
                    lemma_consumed_frame(&pre, &*data, pre.opn(o).output.unwrap());
                }
            }
        }
        changed
    }
}

proof fn lemma_calls_complete(d: &Funcdata, o: OpId)
    requires
        d.valid_op(o),
        d.opv().len() <= u32::MAX,
        !d.opn(o).dead,
        call_like(d.opn(o).opcode),
    ensures
        calls_of(d).contains(o),
{
    lemma_call_ops_complete(d.opv(), d.opv().len() as int, o);
}

proof fn lemma_call_ops_complete(ops: Seq<GraphOp>, n: int, o: OpId)
    requires
        0 <= o.0 < n <= ops.len(),
        ops.len() <= u32::MAX,
        !ops[o.0 as int].dead,
        call_like(ops[o.0 as int].opcode),
    ensures
        call_ops(ops, n).contains(o),
    decreases n,
{
    if o.0 < n - 1 {
        lemma_call_ops_complete(ops, n - 1, o);
        let prev = call_ops(ops, n - 1);
        let k = choose|k: int| 0 <= k < prev.len() && prev[k] == o;
        assert(call_ops(ops, n)[k] == o);
    } else {
        assert(OpId((n - 1) as u32) == o);
        assert(call_ops(ops, n)[call_ops(ops, n).len() - 1] == o);
    }
}

/// Linking a call to its callee's prototype: the candidate parameter
/// operands and their guards are already on every call when the graph is
/// built, so nothing is left to do.
pub struct ActionFuncLink;

impl Action for ActionFuncLink {
    open spec fn title(&self) -> Seq<char> {
        "funclink"@
    }

    fn name(&self) -> (r: &'static str) {
        "funclink"
    }

    open spec fn reports(&self, pre: Funcdata, post: Funcdata, changes: usize) -> bool {
        changes == 0
    }

    fn apply(&self, data: &mut Funcdata) -> (changes: usize)
        ensures
            changes == 0,
            *final(data) == *old(data),
    {
        0
    }
}

/// Two operand lists are the same.
fn same_operands(a: &Vec<VarnodeId>, b: &Vec<VarnodeId>) -> (r: bool)
    ensures
        r == (a@ == b@),
{
    if a.len() != b.len() {
        return false;
    }
    let mut i: usize = 0;
    while i < a.len()
        invariant
            a@.len() == b@.len(),
            i <= a@.len(),
            forall|k: int| 0 <= k < i ==> a@[k] == b@[k],
        decreases a@.len() - i,
    {
        if a[i] != b[i] {
            return false;
        }
        i += 1;
    }
    assert(a@ =~= b@);
    true
}

/// The storage locations of `values`.
pub open spec fn locations_of(d: &Funcdata, values: Seq<VarnodeId>) -> Seq<Location> {
    values.map_values(|v: VarnodeId| Location { space: d.vn(v).space, offset: d.vn(v).offset, size: d.vn(v).size })
}

/// The operands of a call after joining each pair of adjacent arguments
/// that are halves of one wider value: the callee, then the joined
/// arguments.
pub open spec fn doubled_operands(d: &Funcdata, inputs: Seq<VarnodeId>) -> Seq<VarnodeId> {
    let args = inputs.drop_first();
    seq![inputs[0]] + collapse_wide(d, locations_of(d, args), args, 0)
}

/// A live call of `d` with a callee operand whose arguments join.
pub open spec fn doubles(d: &Funcdata, o: OpId) -> bool {
    &&& calls_of(d).contains(o)
    &&& d.opn(o).inputs@.len() > 0
    &&& doubled_operands(d, d.opn(o).inputs@) != d.opn(o).inputs@
}

/// How many of the first `k` calls of `calls` have arguments that join.
pub open spec fn double_count(d: &Funcdata, calls: Seq<OpId>, k: int) -> nat
    decreases k,
{
    if k <= 0 {
        0
    } else {
        double_count(d, calls, k - 1) + if doubles(d, calls[k - 1]) { 1nat } else { 0nat }
    }
}

/// The joined operands of one call, computed on the graph as it stands.
fn doubled_inputs(data: &Funcdata, call: OpId) -> (r: Vec<VarnodeId>)
    requires
        data.wf(),
        data.valid_op(call),
        data.opn(call).inputs@.len() > 0,
    ensures
        r@ == doubled_operands(data, data.opn(call).inputs@),
        vns_below(r@, data.vns().len() as int),
{
    let old_inputs = &data.op(call).inputs;
    proof {
        assert(data.op_wf(call));
    }
    let mut arguments: Vec<VarnodeId> = Vec::new();
    let mut locations: Vec<Location> = Vec::new();
    let mut k: usize = 1;
    while k < old_inputs.len()
        invariant
            data.wf(),
            *old_inputs == data.opn(call).inputs,
            vns_below(old_inputs@, data.vns().len() as int),
            1 <= k <= old_inputs@.len(),
            arguments@ == old_inputs@.subrange(1, k as int),
            locations@ == locations_of(data, arguments@),
            crate::dynamic::values_valid(data, arguments@),
        decreases old_inputs@.len() - k,
    {
        let value = old_inputs[k];
        assert(old_inputs@[k as int].0 < data.vns().len());
        let v = data.varnode(value);
        arguments.push(value);
        locations.push(Location { space: v.space, offset: v.offset, size: v.size });
        proof {
            assert(arguments@ =~= old_inputs@.subrange(1, k as int + 1));
            assert(locations@ =~= locations_of(data, arguments@));
        }
        k += 1;
    }
    proof {
        assert(arguments@ =~= old_inputs@.drop_first());
    }
    let joined = collapse_wide_arguments(data, locations.as_slice(), &arguments);
    let mut result: Vec<VarnodeId> = Vec::new();
    result.push(old_inputs[0]);
    proof {
        assert(old_inputs@[0].0 < data.vns().len());
        lemma_collapse_wide_valid(data, locations@, arguments@, 0);
    }
    let mut t: usize = 0;
    while t < joined.len()
        invariant
            data.wf(),
            result@ == seq![old_inputs@[0]] + joined@.take(t as int),
            t <= joined@.len(),
            crate::dynamic::values_valid(data, joined@),
            vns_below(result@, data.vns().len() as int),
        decreases joined@.len() - t,
    {
        result.push(joined[t]);
        proof {
            assert(result@ =~= seq![old_inputs@[0]] + joined@.take(t as int + 1));
            assert(vns_below(result@, data.vns().len() as int)) by {
                assert forall|j: int| 0 <= j < result@.len() implies (#[trigger] result@[j]).0 < data.vns().len() by {
                    if j > 0 {
                        assert(result@[j] == joined@[j - 1]);
                    }
                }
            }
        }
        t += 1;
    }
    proof {
        assert(joined@.take(joined@.len() as int) =~= joined@);
    }
    result
}

/// Joins adjacent call arguments that are the two halves of one wider
/// value into that value.
///
/// Every call's joined operands are computed first, on the graph as it
/// stands, and then written. Writing one call's operands changes only the
/// reader lists of its old and new operands, and a call is never the
/// `PIECE` a join looks for among readers, so no other call's join depends
/// on it.
pub struct ActionParamDouble;

impl Action for ActionParamDouble {
    open spec fn title(&self) -> Seq<char> {
        "paramdouble"@
    }

    fn name(&self) -> (r: &'static str) {
        "paramdouble"
    }

    open spec fn reports(&self, pre: Funcdata, post: Funcdata, changes: usize) -> bool {
        changes == double_count(&pre, calls_of(&pre), calls_of(&pre).len() as int)
    }

    fn apply(&self, data: &mut Funcdata) -> (changes: usize)
        ensures
            final(data).opv().len() == old(data).opv().len(),
            final(data).vns().len() == old(data).vns().len(),
            final(data).bls() == old(data).bls(),
            changes == double_count(&*old(data), calls_of(&*old(data)), calls_of(&*old(data)).len() as int),
            forall|o: OpId| #[trigger] old(data).valid_op(o) ==> {
                &&& final(data).opn(o).opcode == old(data).opn(o).opcode
                &&& final(data).opn(o).dead == old(data).opn(o).dead
                &&& final(data).opn(o).output == old(data).opn(o).output
                &&& final(data).opn(o).seq == old(data).opn(o).seq
                &&& final(data).opn(o).parent == old(data).opn(o).parent
                &&& final(data).opn(o).inputs@ == (if calls_of(&*old(data)).contains(o) && old(data).opn(o).inputs@.len() > 0 {
                    doubled_operands(&*old(data), old(data).opn(o).inputs@)
                } else {
                    old(data).opn(o).inputs@
                })
                &&& (!calls_of(&*old(data)).contains(o) ==> final(data).opn(o) == old(data).opn(o))
            },
    {
        let ghost pre = *data;
        let all = calls(data);
        proof {
            lemma_call_ops(pre.opv(), pre.opv().len() as int);
        }
        // The rewrites, all computed on the graph as it stands.
        let mut plans: Vec<(OpId, Vec<VarnodeId>)> = Vec::new();
        let mut i: usize = 0;
        while i < all.len()
            invariant
                pre.wf(),
                *data == pre,
                all@ == calls_of(&pre),
                all@.no_duplicates(),
                forall|k: int| 0 <= k < all@.len() ==> pre.valid_op(#[trigger] all@[k]),
                i <= all@.len(),
                plans@.len() == i,
                forall|k: int| 0 <= k < i ==> (#[trigger] plans@[k]).0 == all@[k],
                forall|k: int|
                    0 <= k < i ==> (if pre.opn(all@[k]).inputs@.len() > 0 {
                        (#[trigger] plans@[k]).1@ == doubled_operands(&pre, pre.opn(all@[k]).inputs@)
                    } else {
                        plans@[k].1@ == pre.opn(all@[k]).inputs@
                    }),
                forall|k: int| 0 <= k < i ==> vns_below((#[trigger] plans@[k]).1@, pre.vns().len() as int),
            decreases all@.len() - i,
        {
            let call = all[i];
            let planned = if data.op(call).inputs.len() > 0 {
                doubled_inputs(data, call)
            } else {
                crate::graph::copy_vn_ids(&data.op(call).inputs)
            };
            proof {
                assert(pre.op_wf(call));
            }
            plans.push((call, planned));
            i += 1;
        }
        // Write them.
        let mut changed: usize = 0;
        let mut j: usize = 0;
        while j < plans.len()
            invariant
                pre.wf(),
                data.wf(),
                all@ == calls_of(&pre),
                all@.no_duplicates(),
                forall|k: int| 0 <= k < all@.len() ==> pre.valid_op(#[trigger] all@[k]),
                plans@.len() == all@.len(),
                forall|k: int| 0 <= k < plans@.len() ==> (#[trigger] plans@[k]).0 == all@[k],
                forall|k: int|
                    0 <= k < plans@.len() ==> (if pre.opn(all@[k]).inputs@.len() > 0 {
                        (#[trigger] plans@[k]).1@ == doubled_operands(&pre, pre.opn(all@[k]).inputs@)
                    } else {
                        plans@[k].1@ == pre.opn(all@[k]).inputs@
                    }),
                forall|k: int| 0 <= k < plans@.len() ==> vns_below((#[trigger] plans@[k]).1@, pre.vns().len() as int),
                j <= plans@.len(),
                data.opv().len() == pre.opv().len(),
                data.vns().len() == pre.vns().len(),
                data.bls() == pre.bls(),
                arenas_grow(&pre, &*data),
                changed == double_count(&pre, all@, j as int),
                changed <= j,
                forall|o: OpId| #[trigger] pre.valid_op(o) ==> {
                    &&& data.opn(o).opcode == pre.opn(o).opcode
                    &&& data.opn(o).dead == pre.opn(o).dead
                    &&& data.opn(o).output == pre.opn(o).output
                    &&& data.opn(o).seq == pre.opn(o).seq
                    &&& data.opn(o).parent == pre.opn(o).parent
                    &&& data.opn(o).inputs@ == (if all@.take(j as int).contains(o) && pre.opn(o).inputs@.len() > 0 {
                        doubled_operands(&pre, pre.opn(o).inputs@)
                    } else {
                        pre.opn(o).inputs@
                    })
                    &&& (!all@.take(j as int).contains(o) ==> data.opn(o) == pre.opn(o))
                },
            decreases plans@.len() - j,
        {
            let call = plans[j].0;
            proof {
                assert(all@[j as int] == call);
                assert(!all@.take(j as int).contains(call)) by {
                    if all@.take(j as int).contains(call) {
                        let q = choose|q: int| 0 <= q < j && all@.take(j as int)[q] == call;
                        assert(all@[q] == all@[j as int]);
                    }
                }
                assert(data.opn(call) == pre.opn(call));
                assert(all@.take(j as int + 1) =~= all@.take(j as int).push(call));
                assert(calls_of(&pre).contains(call)) by {
                    assert(all@[j as int] == call);
                }
            }
            let ghost before = *data;
            if !same_operands(&plans[j].1, &data.op(call).inputs) {
                let inputs = crate::graph::copy_vn_ids(&plans[j].1);
                data.op_set_inputs(call, inputs);
                changed += 1;
            }
            proof {
                assert forall|o: OpId| #[trigger] pre.valid_op(o) implies {
                    &&& data.opn(o).opcode == pre.opn(o).opcode
                    &&& data.opn(o).dead == pre.opn(o).dead
                    &&& data.opn(o).output == pre.opn(o).output
                    &&& data.opn(o).seq == pre.opn(o).seq
                    &&& data.opn(o).parent == pre.opn(o).parent
                    &&& data.opn(o).inputs@ == (if all@.take(j as int + 1).contains(o) && pre.opn(o).inputs@.len() > 0 {
                        doubled_operands(&pre, pre.opn(o).inputs@)
                    } else {
                        pre.opn(o).inputs@
                    })
                    &&& (!all@.take(j as int + 1).contains(o) ==> data.opn(o) == pre.opn(o))
                } by {
                    if o != call {
                        assert(data.opn(o) == before.opn(o));
                        assert(all@.take(j as int + 1).contains(o) == all@.take(j as int).contains(o));
                    } else {
                        assert(all@.take(j as int + 1)[j as int] == call);
                    }
                }
            }
            j += 1;
        }
        proof {
            assert(all@.take(all@.len() as int) =~= all@);
        }
        changed
    }
}

proof fn lemma_collapse_wide_valid(d: &Funcdata, locations: Seq<Location>, values: Seq<VarnodeId>, index: int)
    requires
        d.wf(),
        0 <= index,
        crate::dynamic::values_valid(d, values),
    ensures
        crate::dynamic::values_valid(d, collapse_wide(d, locations, values, index)),
    decreases values.len() - index,
{
    if index < values.len() {
        lemma_collapse_wide_valid(d, locations, values, index + 1);
        if index + 1 < values.len() {
            lemma_collapse_wide_valid(d, locations, values, index + 2);
        }
        if index + 1 < values.len() && adjacent_spec(locations[index], locations[index + 1])
            && collapsed(d, values[index], values[index + 1]) is Some {
            lemma_collapsed_valid(d, values[index], values[index + 1]);
            let r = collapse_wide(d, locations, values, index);
            let rest = collapse_wide(d, locations, values, index + 2);
            assert forall|k: int| 0 <= k < r.len() implies d.valid_vn(#[trigger] r[k]) by {
                if k > 0 {
                    assert(r[k] == rest[k - 1]);
                }
            }
        } else {
            let r = collapse_wide(d, locations, values, index);
            let rest = collapse_wide(d, locations, values, index + 1);
            assert forall|k: int| 0 <= k < r.len() implies d.valid_vn(#[trigger] r[k]) by {
                if k > 0 {
                    assert(r[k] == rest[k - 1]);
                }
            }
        }
    }
}

proof fn lemma_origin_valid(d: &Funcdata, v: VarnodeId, depth: nat)
    requires
        d.wf(),
        d.valid_vn(v),
    ensures
        d.valid_vn(origin(d, v, depth)),
    decreases 64 - depth,
{
    if depth < 64 {
        assert(d.vn_wf(v));
        if let Some(df) = d.vn(v).def {
            assert(d.op_wf(df));
            let op = d.opn(df);
            if (op.opcode == COPY || op.opcode == INDIRECT) && op.inputs@.len() > 0 {
                assert(op.inputs@[0].0 < d.vns().len());
                lemma_origin_valid(d, op.inputs@[0], depth + 1);
            }
        }
    }
}

proof fn lemma_joining_valid(d: &Funcdata, first: VarnodeId, second: VarnodeId, k: int)
    requires
        d.wf(),
        d.valid_vn(first),
        0 <= k,
    ensures
        joining_piece(d, first, second, k) matches Some(v) ==> d.valid_vn(v),
    decreases d.vn(first).descendants@.len() - k,
{
    let readers = d.vn(first).descendants@;
    if k < readers.len() {
        assert(d.vn_wf(first));
        assert(readers[k].0 < d.opv().len());
        assert(d.op_wf(readers[k]));
        lemma_joining_valid(d, first, second, k + 1);
    }
}

proof fn lemma_collapsed_valid(d: &Funcdata, first: VarnodeId, second: VarnodeId)
    requires
        d.wf(),
        d.valid_vn(first),
        d.valid_vn(second),
    ensures
        collapsed(d, first, second) matches Some(v) ==> d.valid_vn(v),
{
    let a = origin(d, first, 0);
    let b = origin(d, second, 0);
    lemma_origin_valid(d, first, 0);
    lemma_origin_valid(d, second, 0);
    lemma_joining_valid(d, a, b, 0);
    assert(d.vn_wf(a));
    if let Some(fd) = d.vn(a).def {
        assert(d.op_wf(fd));
        if d.opn(fd).inputs@.len() > 0 {
            assert(d.opn(fd).inputs@[0].0 < d.vns().len());
        }
    }
}

} // verus!
