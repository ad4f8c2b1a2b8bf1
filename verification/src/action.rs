//! The Action and Rule framework: rules rewrite one operation at a time,
//! actions are the stages of the pipeline.

use vstd::prelude::*;
use crate::graph::{Funcdata, GraphOp, OpId, VarnodeId, replace_in, same_but_readers};
use crate::equality::{Equality, equality_of};
use crate::pcode::{COPY, INDIRECT, INT_ADD, INT_SUB, INT_MULT, INT_AND, INT_OR, INT_XOR, INT_LEFT, INT_RIGHT, INT_NEGATE, INT_2COMP, INT_EQUAL, INT_NOTEQUAL, INT_LESS, INT_LESSEQUAL, BOOL_NEGATE, MULTIEQUAL, UNIQUE_SPACE};

verus! {

/// The graph after `post` has grown from, or been rewritten in place of,
/// `pre`: arenas only grow, so every identifier stays valid.
pub open spec fn arenas_grow(pre: &Funcdata, post: &Funcdata) -> bool {
    &&& post.vns().len() >= pre.vns().len()
    &&& post.opv().len() >= pre.opv().len()
    &&& post.bls().len() >= pre.bls().len()
}

/// A transform applied to one operation at a time.
pub trait Rule {
    /// The rule's name.
    spec fn title(&self) -> Seq<char>;

    fn name(&self) -> (r: &'static str)
        ensures
            r@ == self.title(),
    ;

    /// The opcodes this rule is registered against.
    spec fn opcodes(&self) -> Seq<i32>;

    /// The opcodes this rule wants to see.
    fn op_list(&self) -> (r: Vec<i32>)
        ensures
            r@ == self.opcodes(),
    ;

    /// What the rule reports of one application to `op`: how the number
    /// of changes it returns relates to the graph before it.
    spec fn reports(&self, op: OpId, pre: Funcdata, post: Funcdata, changes: usize) -> bool;

    /// Applies the rule, returning the number of changes made.
    fn apply_op(&self, op: OpId, data: &mut Funcdata) -> (changes: usize)
        requires
            old(data).wf(),
            old(data).valid_op(op),
        ensures
            final(data).wf(),
            arenas_grow(&*old(data), &*final(data)),
            self.reports(op, *old(data), *final(data), changes),
    ;
}

/// A stage of the pipeline.
pub trait Action {
    /// The action's name.
    spec fn title(&self) -> Seq<char>;

    fn name(&self) -> (r: &'static str)
        ensures
            r@ == self.title(),
    ;

    /// What the action reports of one run: how the number of changes it
    /// returns relates to the graph before and after it.
    spec fn reports(&self, pre: Funcdata, post: Funcdata, changes: usize) -> bool;

    fn apply(&self, data: &mut Funcdata) -> (changes: usize)
        requires
            old(data).wf(),
        ensures
            final(data).wf(),
            arenas_grow(&*old(data), &*final(data)),
            self.reports(*old(data), *final(data), changes),
    ;
}

/// How many rounds a rule set or an action is repeated at most.
pub const ROUND_CAP: usize = 16;

/// One registered rule.
struct RuleEntry(Box<dyn Rule>);

/// One stage of a group.
struct ActionEntry(Box<dyn Action>);

fn push_action(list: &mut Vec<ActionEntry>, entry: ActionEntry)
    ensures
        final(list)@.len() == old(list)@.len() + 1,
{
    let ghost before = list@;
    list.push(entry);
    assert(list@.len() == before.len() + 1);
}

fn push_rule(list: &mut Vec<RuleEntry>, entry: RuleEntry)
    ensures
        final(list)@.len() == old(list)@.len() + 1,
        forall|k: int| 0 <= k < old(list)@.len() ==> #[trigger] final(list)@[k] == old(list)@[k],
        final(list)@[old(list)@.len() as int] == entry,
{
    let ghost before = list@;
    let ghost e = entry;
    list.push(entry);
    assert(list@ == before.push(e));
    assert(list@.len() == before.len() + 1);
    assert(list@[before.len() as int] == e);
}

/// Index `r` names a rule registered against `code`: among `old_rules`,
/// or the rule being added, whose opcodes are `fresh`.
spec fn registered_for(old_rules: Seq<RuleEntry>, fresh: Seq<i32>, r: int, code: i32) -> bool {
    if r < old_rules.len() {
        old_rules[r].0.opcodes().contains(code)
    } else {
        fresh.contains(code)
    }
}

/// Applies a set of rules to every operation, indexed by opcode.
pub struct ActionPool {
    name: &'static str,
    rules: Vec<RuleEntry>,
    per_op: Vec<(i32, Vec<usize>)>,
}

impl ActionPool {
    /// Every registered index names a rule.
    #[verifier::type_invariant]
    closed spec fn indices_valid(self) -> bool {
        forall|i: int, k: int|
            0 <= i < self.per_op@.len() && 0 <= k < self.per_op@[i].1@.len() ==> #[trigger] self.per_op@[i].1@[k]
                < self.rules@.len() && self.rules@[self.per_op@[i].1@[k] as int].0.opcodes().contains(self.per_op@[i].0)
    }

    /// The opcodes rule `r` of the pool is registered against.
    pub closed spec fn rule_opcodes(&self, r: int) -> Seq<i32> {
        self.rules@[r].0.opcodes()
    }

    /// The number of registered rules.
    pub closed spec fn rule_count(&self) -> nat {
        self.rules@.len()
    }

    /// The pool's name.
    pub closed spec fn spec_name(&self) -> &'static str {
        self.name
    }

    /// Rule `r` of the pool reports `c` changes applied to `op` from `pre`
    /// to `post`.
    pub closed spec fn rule_reports(&self, r: int, op: OpId, pre: Funcdata, post: Funcdata, c: usize) -> bool {
        self.rules@[r].0.reports(op, pre, post, c)
    }

    pub fn new(name: &'static str) -> (r: Self)
        ensures
            r.rule_count() == 0,
            r.spec_name() == name,
    {
        ActionPool { name, rules: Vec::new(), per_op: Vec::new() }
    }

    /// Registers `rule` against every opcode its `op_list` names.
    pub fn add_rule(self, rule: Box<dyn Rule>) -> (r: Self)
        ensures
            r.rule_count() == self.rule_count() + 1,
            r.spec_name() == self.spec_name(),
    {
        proof {
            use_type_invariant(&self);
        }
        let ghost count = self.rules@.len();
        let ghost pool_name = self.name;
        let ghost old_rules = self.rules@;
        let ActionPool { name, mut rules, mut per_op } = self;
        let index = rules.len();
        assert(index == count);
        let entry = RuleEntry(rule);
        let opcodes = entry.0.op_list();
        let ghost fresh = entry.0.opcodes();
        let mut i: usize = 0;
        while i < opcodes.len()
            invariant
                i <= opcodes@.len(),
                opcodes@ == fresh,
                rules@ == old_rules,
                index == rules@.len(),
                index == count,
                name == pool_name,
                forall|j: int, k: int|
                    0 <= j < per_op@.len() && 0 <= k < per_op@[j].1@.len() ==> #[trigger] per_op@[j].1@[k] < index + 1
                        && registered_for(old_rules, fresh, per_op@[j].1@[k] as int, per_op@[j].0),
            decreases opcodes@.len() - i,
        {
            let opcode = opcodes[i];
            proof {
                assert(fresh.contains(opcode)) by {
                    assert(fresh[i as int] == opcode);
                }
            }
            let mut j: usize = 0;
            let mut found = false;
            while j < per_op.len()
                invariant
                    j <= per_op@.len(),
                    index == rules@.len(),
                    rules@ == old_rules,
                    fresh.contains(opcode),
                    forall|a: int, k: int|
                        0 <= a < per_op@.len() && 0 <= k < per_op@[a].1@.len() ==> #[trigger] per_op@[a].1@[k] < index + 1
                            && registered_for(old_rules, fresh, per_op@[a].1@[k] as int, per_op@[a].0),
                decreases per_op@.len() - j,
            {
                if per_op[j].0 == opcode {
                    let ghost before = per_op@;
                    let (code, mut list) = per_op.remove(j);
                    list.push(index);
                    per_op.insert(j, (code, list));
                    proof {
                        assert forall|a: int, k: int|
                            0 <= a < per_op@.len() && 0 <= k < per_op@[a].1@.len() implies #[trigger] per_op@[a].1@[k] < index + 1
                                && registered_for(old_rules, fresh, per_op@[a].1@[k] as int, per_op@[a].0) by {
                            if a != j {
                                assert(per_op@[a] == before[a]);
                            } else if k < list@.len() - 1 {
                                assert(per_op@[a].1@[k] == before[a].1@[k]);
                                assert(per_op@[a].0 == before[a].0);
                            }
                        }
                    }
                    found = true;
                    break;
                }
                j += 1;
            }
            if !found {
                let mut list: Vec<usize> = Vec::new();
                list.push(index);
                let ghost before = per_op@;
                per_op.push((opcode, list));
                proof {
                    assert forall|a: int, k: int|
                        0 <= a < per_op@.len() && 0 <= k < per_op@[a].1@.len() implies #[trigger] per_op@[a].1@[k] < index + 1
                            && registered_for(old_rules, fresh, per_op@[a].1@[k] as int, per_op@[a].0) by {
                        if a < before.len() {
                            assert(per_op@[a] == before[a]);
                        }
                    }
                }
            }
            i += 1;
        }
        assert(rules@ == old_rules);
        assert(index == old_rules.len());
        let ghost e = entry;
        push_rule(&mut rules, entry);
        proof {
            assert(rules@.len() == index + 1);
            assert forall|a: int, k: int|
                0 <= a < per_op@.len() && 0 <= k < per_op@[a].1@.len() implies #[trigger] per_op@[a].1@[k] < rules@.len()
                    && rules@[per_op@[a].1@[k] as int].0.opcodes().contains(per_op@[a].0) by {
                let r = per_op@[a].1@[k] as int;
                assert(registered_for(old_rules, fresh, r, per_op@[a].0));
                if r < index {
                    assert(rules@[r] == old_rules[r]);
                } else {
                    assert(rules@[r] == e);
                }
            }
        }
        ActionPool { name, rules, per_op }
    }

    /// The rule indices registered against `opcode`.
    fn lookup(&self, opcode: i32) -> (r: Option<&Vec<usize>>)
        ensures
            match r {
                Some(list) => {
                    &&& forall|k: int| 0 <= k < list@.len() ==> #[trigger] list@[k] < self.rule_count()
                    &&& forall|k: int| 0 <= k < list@.len() ==> self.rule_opcodes(#[trigger] list@[k] as int).contains(opcode)
                    &&& exists|j: int|
                        0 <= j < self.per_op@.len() && (#[trigger] self.per_op@[j]).0 == opcode && list@ == self.per_op@[j].1@
                            && forall|m: int| 0 <= m < j ==> (#[trigger] self.per_op@[m]).0 != opcode
                },
                None => forall|j: int| 0 <= j < self.per_op@.len() ==> (#[trigger] self.per_op@[j]).0 != opcode,
            },
    {
        proof {
            use_type_invariant(self);
        }
        let mut j: usize = 0;
        while j < self.per_op.len()
            invariant
                j <= self.per_op@.len(),
                self.indices_valid(),
                forall|m: int| 0 <= m < j ==> (#[trigger] self.per_op@[m]).0 != opcode,
            decreases self.per_op@.len() - j,
        {
            if self.per_op[j].0 == opcode {
                proof {
                    let i = j as int;
                    assert forall|k: int| 0 <= k < self.per_op@[i].1@.len() implies #[trigger] self.per_op@[i].1@[k]
                        < self.rule_count() by {
                        assert(self.per_op@[i].1@[k] < self.rules@.len());
                    }
                    assert forall|k: int| 0 <= k < self.per_op@[i].1@.len() implies self.rule_opcodes(
                        #[trigger] self.per_op@[i].1@[k] as int,
                    ).contains(opcode) by {
                        assert(self.per_op@[i].1@[k] < self.rules@.len());
                    }
                }
                return Some(&self.per_op[j].1);
            }
            j += 1;
        }
        None
    }
}

impl Action for ActionPool {
    open spec fn title(&self) -> Seq<char> {
        self.spec_name()@
    }

    fn name(&self) -> (r: &'static str) {
        self.name
    }

    open spec fn reports(&self, pre: Funcdata, post: Funcdata, changes: usize) -> bool {
        exists|states: Seq<Funcdata>, rule_ids: Seq<int>, op_ids: Seq<OpId>, counts: Seq<usize>|
            #![trigger pool_run(self, states, rule_ids, op_ids, counts)]
            pool_run(self, states, rule_ids, op_ids, counts) && states[0] == pre && states.last() == post && changes == sat_sum(
                counts,
                counts.len() as int,
            )
    }

    fn apply(&self, data: &mut Funcdata) -> (changes: usize) {
        let mut changes: usize = 0;
        let ops = data.live_ops();
        let ghost start = *data;
        let ghost mut states: Seq<Funcdata> = seq![start];
        let ghost mut rule_ids: Seq<int> = Seq::empty();
        let ghost mut op_ids: Seq<OpId> = Seq::empty();
        let ghost mut counts: Seq<usize> = Seq::empty();
        proof {
            crate::graph::lemma_live_op_ids_below(data.opv(), data.opv().len() as int);
        }
        let mut index: usize = 0;
        while index < ops.len()
            invariant
                index <= ops@.len(),
                crate::graph::ops_below(ops@, start.opv().len() as int),
                data.wf(),
                arenas_grow(&start, &*data),
                pool_run(self, states, rule_ids, op_ids, counts),
                states[0] == start,
                states.last() == *data,
                changes == sat_sum(counts, counts.len() as int),
            decreases ops@.len() - index,
        {
            let id = ops[index];
            proof {
                assert(ops@[index as int].0 < start.opv().len());
            }
            let mut guard: usize = 0;
            loop
                invariant_except_break
                    guard < ROUND_CAP,
                invariant
                    data.wf(),
                    arenas_grow(&start, &*data),
                    data.valid_op(id),
                    pool_run(self, states, rule_ids, op_ids, counts),
                    states[0] == start,
                    states.last() == *data,
                    changes == sat_sum(counts, counts.len() as int),
                ensures
                    data.wf(),
                    arenas_grow(&start, &*data),
                    pool_run(self, states, rule_ids, op_ids, counts),
                    states[0] == start,
                    states.last() == *data,
                    changes == sat_sum(counts, counts.len() as int),
                decreases ROUND_CAP - guard,
            {
                let Some(opcode) = data.opcode_of(id) else {
                    break;
                };
                let Some(rules) = self.lookup(opcode) else {
                    break;
                };
                let ghost base = counts.len() as int;
                let mut applied: usize = 0;
                let mut k: usize = 0;
                while k < rules.len()
                    invariant_except_break
                        data.opn(id).opcode == opcode,
                        !data.opn(id).dead,
                    invariant
                        k <= rules@.len(),
                        forall|j: int| 0 <= j < rules@.len() ==> #[trigger] rules@[j] < self.rule_count(),
                        forall|j: int| 0 <= j < rules@.len() ==> self.rule_opcodes(#[trigger] rules@[j] as int).contains(opcode),
                        data.wf(),
                        arenas_grow(&start, &*data),
                        data.valid_op(id),
                        pool_run(self, states, rule_ids, op_ids, counts),
                        states[0] == start,
                        states.last() == *data,
                        0 <= base <= counts.len(),
                        changes == sat_sum(counts, base),
                        applied == sat_sum(counts.subrange(base, counts.len() as int), counts.len() - base),
                    decreases rules@.len() - k,
                {
                    let rule = rules[k];
                    proof {
                        assert(rules@[k as int] < self.rule_count());
                    }
                    let ghost before = *data;
                    let fired = self.rules[rule].0.apply_op(id, data);
                    proof {
                        let s0 = states;
                        let c0 = counts;
                        assert(self.rule_reports(rule as int, id, before, *data, fired));
                        lemma_pool_push(self, s0, rule_ids, op_ids, c0, *data, rule as int, id, fired);
                        states = states.push(*data);
                        rule_ids = rule_ids.push(rule as int);
                        op_ids = op_ids.push(id);
                        counts = counts.push(fired);
                        lemma_sat_sum_prefix(counts, c0, base);
                        let r0 = c0.subrange(base, c0.len() as int);
                        let r1 = counts.subrange(base, counts.len() as int);
                        lemma_sat_sum_prefix(r1, r0, r0.len() as int);
                        assert(r1[r0.len() as int] == fired);
                    }
                    applied = applied.saturating_add(fired);
                    if data.opcode_of(id) != Some(opcode) {
                        break;
                    }
                    k += 1;
                }
                proof {
                    lemma_sat_sum_split(counts, base, counts.len() as int);
                }
                changes = changes.saturating_add(applied);
                guard += 1;
                if applied == 0 || guard >= ROUND_CAP {
                    break;
                }
            }
            index += 1;
        }
        changes
    }
}

/// Registered rules applied one after another through `states`: the
/// `k`-th application ran rule `rule_ids[k]` on operation `op_ids[k]`
/// and reported `counts[k]` changes.
pub open spec fn pool_run(
    p: &ActionPool,
    states: Seq<Funcdata>,
    rule_ids: Seq<int>,
    op_ids: Seq<OpId>,
    counts: Seq<usize>,
) -> bool {
    &&& states.len() == counts.len() + 1
    &&& rule_ids.len() == counts.len()
    &&& op_ids.len() == counts.len()
    &&& forall|k: int| 0 <= k < counts.len() ==> 0 <= #[trigger] rule_ids[k] < p.rule_count()
    &&& forall|k: int|
        0 <= k < counts.len() ==> p.rule_opcodes(#[trigger] rule_ids[k]).contains(states[k].opn(op_ids[k]).opcode)
            && !states[k].opn(op_ids[k]).dead
    &&& forall|k: int|
        0 <= k < counts.len() ==> #[trigger] p.rule_reports(rule_ids[k], op_ids[k], states[k], states[k + 1], counts[k])
}

proof fn lemma_pool_push(
    p: &ActionPool,
    states: Seq<Funcdata>,
    rule_ids: Seq<int>,
    op_ids: Seq<OpId>,
    counts: Seq<usize>,
    post: Funcdata,
    r: int,
    op: OpId,
    c: usize,
)
    requires
        pool_run(p, states, rule_ids, op_ids, counts),
        0 <= r < p.rule_count(),
        p.rule_opcodes(r).contains(states.last().opn(op).opcode),
        !states.last().opn(op).dead,
        p.rule_reports(r, op, states.last(), post, c),
    ensures
        pool_run(p, states.push(post), rule_ids.push(r), op_ids.push(op), counts.push(c)),
{
    let s1 = states.push(post);
    let r1 = rule_ids.push(r);
    let o1 = op_ids.push(op);
    let c1 = counts.push(c);
    assert forall|k: int| 0 <= k < c1.len() implies 0 <= #[trigger] r1[k] < p.rule_count() by {
        if k < counts.len() {
            assert(r1[k] == rule_ids[k]);
        }
    }
    assert forall|k: int| 0 <= k < c1.len() implies p.rule_opcodes(#[trigger] r1[k]).contains(s1[k].opn(o1[k]).opcode)
        && !s1[k].opn(o1[k]).dead by {
        if k < counts.len() {
            assert(r1[k] == rule_ids[k] && s1[k] == states[k] && o1[k] == op_ids[k]);
        } else {
            assert(s1[k] == states.last());
        }
    }
    assert forall|k: int| 0 <= k < c1.len() implies #[trigger] p.rule_reports(r1[k], o1[k], s1[k], s1[k + 1], c1[k]) by {
        if k < counts.len() {
            assert(s1[k] == states[k] && s1[k + 1] == states[k + 1] && c1[k] == counts[k] && r1[k] == rule_ids[k]
                && o1[k] == op_ids[k]);
            assert(p.rule_reports(rule_ids[k], op_ids[k], states[k], states[k + 1], counts[k]));
        } else {
            assert(s1[k] == states.last());
        }
    }
}

/// A saturating sum splits at any point into two saturating sums.
proof fn lemma_sat_sum_split(c: Seq<usize>, m: int, n: int)
    requires
        0 <= m <= n <= c.len(),
    ensures
        sat_sum(c, n) == (if sat_sum(c, m) + sat_sum(c.subrange(m, n), n - m) > usize::MAX {
            usize::MAX
        } else {
            (sat_sum(c, m) + sat_sum(c.subrange(m, n), n - m)) as usize
        }),
    decreases n,
{
    if n > m {
        lemma_sat_sum_split(c, m, n - 1);
        let r0 = c.subrange(m, n - 1);
        let r1 = c.subrange(m, n);
        lemma_sat_sum_prefix(r1, r0, n - 1 - m);
        assert(r1[n - 1 - m] == c[n - 1]);
    }
}

/// A sequence of actions.
pub struct ActionGroup {
    name: &'static str,
    actions: Vec<ActionEntry>,
}

impl ActionGroup {
    /// The number of actions in the group.
    pub closed spec fn action_count(&self) -> nat {
        self.actions@.len()
    }

    /// The group's name.
    pub closed spec fn spec_name(&self) -> &'static str {
        self.name
    }

    /// Member `k` reports `c` changes from `pre` to `post`.
    pub closed spec fn member_reports(&self, k: int, pre: Funcdata, post: Funcdata, c: usize) -> bool {
        self.actions@[k].0.reports(pre, post, c)
    }

    pub fn new(name: &'static str) -> (r: Self)
        ensures
            r.action_count() == 0,
            r.spec_name() == name,
    {
        ActionGroup { name, actions: Vec::new() }
    }

    pub fn add(self, action: Box<dyn Action>) -> (r: Self)
        ensures
            r.action_count() == self.action_count() + 1,
            r.spec_name() == self.spec_name(),
    {
        let ghost before = self.actions@;
        let ActionGroup { name, actions } = self;
        let mut list = actions;
        assert(list@ == before);
        let entry = ActionEntry(action);
        push_action(&mut list, entry);
        ActionGroup { name, actions: list }
    }
}

impl Action for ActionGroup {
    open spec fn title(&self) -> Seq<char> {
        self.spec_name()@
    }

    fn name(&self) -> (r: &'static str) {
        self.name
    }

    open spec fn reports(&self, pre: Funcdata, post: Funcdata, changes: usize) -> bool {
        exists|states: Seq<Funcdata>, counts: Seq<usize>|
            #![trigger group_run(self, states, counts)]
            group_run(self, states, counts) && states[0] == pre && states.last() == post && changes == sat_sum(
                counts,
                counts.len() as int,
            )
    }

    fn apply(&self, data: &mut Funcdata) -> (changes: usize) {
        let mut total: usize = 0;
        let mut i: usize = 0;
        let ghost start = *data;
        let ghost mut states: Seq<Funcdata> = seq![start];
        let ghost mut counts: Seq<usize> = Seq::empty();
        while i < self.actions.len()
            invariant
                i <= self.actions@.len(),
                data.wf(),
                arenas_grow(&start, &*data),
                states.len() == i + 1,
                counts.len() == i,
                states[0] == start,
                states.last() == *data,
                total == sat_sum(counts, i as int),
                forall|k: int| 0 <= k < i ==> #[trigger] self.member_reports(k, states[k], states[k + 1], counts[k]),
            decreases self.actions@.len() - i,
        {
            let ghost before = *data;
            let changed = self.actions[i].0.apply(data);
            proof {
                let s0 = states;
                let c0 = counts;
                states = states.push(*data);
                counts = counts.push(changed);
                assert(self.member_reports(i as int, before, *data, changed));
                assert forall|k: int| 0 <= k < i + 1 implies #[trigger] self.member_reports(k, states[k], states[k + 1], counts[k]) by {
                    if k < i {
                        assert(states[k] == s0[k] && states[k + 1] == s0[k + 1] && counts[k] == c0[k]);
                    } else {
                        assert(states[k] == before);
                    }
                }
                assert(counts.take(i as int) =~= c0);
                lemma_sat_sum_prefix(counts, c0, i as int);
            }
            total = total.saturating_add(changed);
            i += 1;
        }
        proof {
            assert(group_run(self, states, counts));
        }
        total
    }
}

/// The members of `g` ran in turn through `states`, reporting `counts`.
pub open spec fn group_run(g: &ActionGroup, states: Seq<Funcdata>, counts: Seq<usize>) -> bool {
    &&& counts.len() == g.action_count()
    &&& states.len() == counts.len() + 1
    &&& forall|k: int| 0 <= k < counts.len() ==> #[trigger] g.member_reports(k, states[k], states[k + 1], counts[k])
}

/// The sum of the first `n` counts, saturating at the top of `usize`.
pub open spec fn sat_sum(counts: Seq<usize>, n: int) -> usize
    decreases n,
{
    if n <= 0 {
        0
    } else {
        let a = sat_sum(counts, n - 1);
        if a + counts[n - 1] > usize::MAX {
            usize::MAX
        } else {
            (a + counts[n - 1]) as usize
        }
    }
}

/// The sum over a prefix depends on the prefix alone.
proof fn lemma_sat_sum_prefix(s: Seq<usize>, t: Seq<usize>, n: int)
    requires
        0 <= n <= s.len(),
        n <= t.len(),
        forall|k: int| 0 <= k < n ==> s[k] == t[k],
    ensures
        sat_sum(s, n) == sat_sum(t, n),
    decreases n,
{
    if n > 0 {
        lemma_sat_sum_prefix(s, t, n - 1);
    }
}

/// Repeats an action until it reports no further change, at most
/// [`ROUND_CAP`] times.
pub struct FixedPoint {
    inner: Box<dyn Action>,
    cap: usize,
}

impl FixedPoint {
    /// The most rounds this action will run.
    pub closed spec fn spec_cap(&self) -> usize {
        self.cap
    }

    /// The repeated action reports `c` changes from `pre` to `post`.
    pub closed spec fn inner_reports(&self, pre: Funcdata, post: Funcdata, c: usize) -> bool {
        self.inner.reports(pre, post, c)
    }

    /// The name of the repeated action.
    pub closed spec fn inner_title(&self) -> Seq<char> {
        self.inner.title()
    }

    pub fn new(inner: Box<dyn Action>) -> (r: Self)
        ensures
            r.spec_cap() == ROUND_CAP,
    {
        FixedPoint { inner, cap: ROUND_CAP }
    }
}

impl Action for FixedPoint {
    open spec fn title(&self) -> Seq<char> {
        self.inner_title()
    }

    fn name(&self) -> (r: &'static str) {
        self.inner.name()
    }

    open spec fn reports(&self, pre: Funcdata, post: Funcdata, changes: usize) -> bool {
        exists|states: Seq<Funcdata>, counts: Seq<usize>|
            #![trigger fixed_run(self, states, counts)]
            fixed_run(self, states, counts) && states[0] == pre && states.last() == post && changes == sat_sum(
                counts,
                counts.len() as int,
            )
    }

    fn apply(&self, data: &mut Funcdata) -> (changes: usize) {
        let mut total: usize = 0;
        let mut round: usize = 0;
        let ghost start = *data;
        let ghost mut states: Seq<Funcdata> = seq![start];
        let ghost mut counts: Seq<usize> = Seq::empty();
        while round < self.cap
            invariant_except_break
                counts.len() == round,
                forall|k: int| 0 <= k < counts.len() ==> #[trigger] counts[k] != 0,
            invariant
                data.wf(),
                arenas_grow(&start, &*data),
                round <= self.cap,
                states.len() == counts.len() + 1,
                states[0] == start,
                states.last() == *data,
                total == sat_sum(counts, counts.len() as int),
                forall|k: int| 0 <= k < counts.len() ==> #[trigger] self.inner_reports(states[k], states[k + 1], counts[k]),
                forall|k: int| 0 <= k < counts.len() - 1 ==> #[trigger] counts[k] != 0,
                counts.len() <= self.cap,
            ensures
                fixed_run(self, states, counts),
                states[0] == start,
                states.last() == *data,
                total == sat_sum(counts, counts.len() as int),
            decreases self.cap - round,
        {
            let ghost before = *data;
            let changed = self.inner.apply(data);
            proof {
                let s0 = states;
                let c0 = counts;
                states = states.push(*data);
                counts = counts.push(changed);
                assert(self.inner_reports(before, *data, changed));
                assert forall|k: int| 0 <= k < counts.len() implies #[trigger] self.inner_reports(states[k], states[k + 1], counts[k]) by {
                    if k < c0.len() {
                        assert(states[k] == s0[k] && states[k + 1] == s0[k + 1] && counts[k] == c0[k]);
                    } else {
                        assert(states[k] == before);
                    }
                }
                assert forall|k: int| 0 <= k < counts.len() - 1 implies #[trigger] counts[k] != 0 by {
                    assert(counts[k] == c0[k]);
                }
                assert(counts.take(c0.len() as int) =~= c0);
                lemma_sat_sum_prefix(counts, c0, c0.len() as int);
            }
            total = total.saturating_add(changed);
            if changed == 0 {
                break;
            }
            proof {
                assert forall|k: int| 0 <= k < counts.len() implies #[trigger] counts[k] != 0 by {
                    if k < counts.len() - 1 {
                    } else {
                        assert(counts[k] == changed);
                    }
                }
            }
            round += 1;
        }
        total
    }
}

/// The repeated action of `f` ran round after round through `states`,
/// reporting `counts`: every round but the last reported a change, and the
/// last reported none unless the rounds ran out.
pub open spec fn fixed_run(f: &FixedPoint, states: Seq<Funcdata>, counts: Seq<usize>) -> bool {
    let n = counts.len();
    &&& states.len() == n + 1
    &&& n <= f.spec_cap()
    &&& forall|k: int| 0 <= k < n ==> #[trigger] f.inner_reports(states[k], states[k + 1], counts[k])
    &&& forall|k: int| 0 <= k < n - 1 ==> #[trigger] counts[k] != 0
    &&& (n == f.spec_cap() || (n > 0 && counts[n - 1] == 0))
}

} // verus!

verus! {

/// The readers of one value now read another, and one operation is gone.
pub open spec fn replaced_and_destroyed(pre: &Funcdata, post: &Funcdata, id: OpId, from: VarnodeId, to: VarnodeId) -> bool {
    &&& post.opv().len() == pre.opv().len()
    &&& post.vns().len() == pre.vns().len()
    &&& post.bls().len() == pre.bls().len()
    &&& forall|o: OpId|
        #![trigger post.opn(o)]
        post.valid_op(o) && o != id ==> {
            &&& post.opn(o).inputs@ == replace_in(pre.opn(o).inputs@, from, to)
            &&& post.opn(o).opcode == pre.opn(o).opcode
            &&& post.opn(o).output == pre.opn(o).output
            &&& post.opn(o).parent == pre.opn(o).parent
            &&& post.opn(o).dead == pre.opn(o).dead
        }
    &&& post.opn(id).dead
    &&& post.opn(id).inputs@.len() == 0
    &&& post.opn(id).output is None
    &&& post.opn(id).parent is None
}

/// The copy-propagation rule applies: the copy's result can be replaced by
/// its operand everywhere it is read.
pub open spec fn propagate_copy_fires(d: &Funcdata, id: OpId) -> bool {
    let op = d.opn(id);
    match op.output {
        None => false,
        Some(out) => {
            &&& op.inputs@.len() > 0
            &&& out != op.inputs@[0]
            &&& d.vn(out).size == d.vn(op.inputs@[0]).size
            &&& (d.vn(op.inputs@[0]).flags.constant || d.vn(out).space == UNIQUE_SPACE || (d.vn(out).space
                == d.vn(op.inputs@[0]).space && d.vn(out).offset == d.vn(op.inputs@[0]).offset))
            &&& d.vn(out).descendants@.len() > 0
        },
    }
}

/// Whether `v` is written by a merge.
pub open spec fn phi_value(d: &Funcdata, v: VarnodeId) -> bool {
    d.vn(v).def matches Some(o) && d.opn(o).opcode == MULTIEQUAL
}

fn is_phi(data: &Funcdata, v: VarnodeId) -> (r: bool)
    requires
        data.wf(),
        data.valid_vn(v),
    ensures
        r == phi_value(data, v),
{
    proof {
        assert(data.vn_wf(v));
    }
    match data.varnode(v).def {
        Some(o) => data.op(o).opcode == MULTIEQUAL,
        None => false,
    }
}

/// The first of `s[i..]` not written by a merge.
pub open spec fn first_non_phi(d: &Funcdata, s: Seq<VarnodeId>, i: int) -> Option<VarnodeId>
    decreases s.len() - i,
{
    if i < 0 || i >= s.len() {
        None
    } else if !phi_value(d, s[i]) {
        Some(s[i])
    } else {
        first_non_phi(d, s, i + 1)
    }
}

fn find_non_phi(data: &Funcdata, s: &Vec<VarnodeId>) -> (r: Option<VarnodeId>)
    requires
        data.wf(),
        crate::graph::vns_below(s@, data.vns().len() as int),
    ensures
        r == first_non_phi(data, s@, 0),
{
    let mut i: usize = 0;
    while i < s.len()
        invariant
            data.wf(),
            crate::graph::vns_below(s@, data.vns().len() as int),
            i <= s@.len(),
            first_non_phi(data, s@, 0) == first_non_phi(data, s@, i as int),
        decreases s@.len() - i,
    {
        proof {
            assert(s@[i as int].0 < data.vns().len());
        }
        if !is_phi(data, s[i]) {
            return Some(s[i]);
        }
        i += 1;
    }
    None
}

/// The definition of `v`, when there is one, has an operand, so that a
/// comparison of computations can look at it.
pub open spec fn comparable_def(d: &Funcdata, v: VarnodeId) -> bool {
    d.vn(v).def matches Some(o) ==> d.opn(o).inputs@.len() >= 1
}

/// `v` is computed as `b` is: functional equality finds them the same.
pub open spec fn computed_alike(d: &Funcdata, b: VarnodeId, v: VarnodeId) -> bool {
    comparable_def(d, b) && equality_of(d, b, v) == Equality::Same
}

/// Every operand of the merge `id` other than its own result is `b`, and
/// one is.
pub open spec fn one_value_merge(d: &Funcdata, id: OpId, b: VarnodeId) -> bool {
    &&& d.opn(id).opcode == MULTIEQUAL
    &&& d.opn(id).output matches Some(out) && {
        &&& d.vn(out).def == Some(id)
        &&& b != out
        &&& forall|k: int| 0 <= k < d.opn(id).inputs@.len() ==> #[trigger] d.opn(id).inputs@[k] == out || d.opn(id).inputs@[k] == b
    }
    &&& d.opn(id).inputs@.contains(b)
}

/// The operands of the placed merge `id` other than its own result are `b`,
/// the first of them not written by a merge and itself computed by an
/// operation, or values computed as `b` is; and one of them is such a
/// different value.
pub open spec fn alike_merge(d: &Funcdata, id: OpId, b: VarnodeId) -> bool {
    &&& d.opn(id).opcode == MULTIEQUAL
    &&& d.opn(id).output matches Some(out) && {
        &&& d.vn(out).def == Some(id)
        &&& b != out
        &&& forall|k: int|
            0 <= k < d.opn(id).inputs@.len() ==> #[trigger] d.opn(id).inputs@[k] == out || d.opn(id).inputs@[k] == b
                || computed_alike(d, b, d.opn(id).inputs@[k])
        &&& exists|k: int|
            0 <= k < d.opn(id).inputs@.len() && #[trigger] d.opn(id).inputs@[k] != out && d.opn(id).inputs@[k] != b
    }
    &&& first_non_phi(d, d.opn(id).inputs@, 0) == Some(b)
    &&& d.vn(b).def is Some
    &&& d.opn(id).parent is Some
}

/// The operation that writes `v`.
pub open spec fn writer(d: &Funcdata, v: VarnodeId) -> GraphOp {
    d.opn(d.vn(v).def.unwrap())
}

/// Merges that carry one value `b` among themselves, as round a loop:
/// `group` starts with the result of `id`, each member is the result of a
/// merge and no constant, and every operand of a member's merge is a member
/// or `b`. `b` is an operand of `id`, no member, and not the result of a
/// merge.
pub open spec fn merge_group(d: &Funcdata, id: OpId, b: VarnodeId, group: Seq<VarnodeId>) -> bool {
    &&& d.opn(id).output matches Some(out) && group.len() > 0 && group[0] == out && d.vn(out).def == Some(id)
    &&& forall|m: int|
        0 <= m < group.len() ==> d.valid_vn(#[trigger] group[m]) && phi_value(d, group[m]) && !d.vn(group[m]).flags.constant
    &&& forall|m: int, k: int|
        0 <= m < group.len() && 0 <= k < writer(d, group[m]).inputs@.len() ==> group.contains(
            #[trigger] writer(d, #[trigger] group[m]).inputs@[k],
        ) || writer(d, group[m]).inputs@[k] == b
    &&& !phi_value(d, b)
    &&& !group.contains(b)
    &&& d.opn(id).inputs@.contains(b)
}

/// The merges whose results are `list` became copies of `b`: `list` starts
/// with the result of `id`, holds each result once, and is closed, every
/// operand of a listed merge being listed or `b`; every other operation is
/// unchanged, and one change is counted per listed merge.
pub open spec fn group_collapsed(
    pre: &Funcdata,
    post: &Funcdata,
    id: OpId,
    b: VarnodeId,
    list: Seq<VarnodeId>,
    changes: usize,
) -> bool {
    &&& list.len() == changes
    &&& list.len() > 0 && pre.opn(id).output == Some(list[0])
    &&& list.no_duplicates()
    &&& forall|m: int| 0 <= m < list.len() ==> pre.valid_vn(#[trigger] list[m]) && phi_value(pre, list[m])
    &&& forall|m: int, k: int|
        0 <= m < list.len() && 0 <= k < writer(pre, list[m]).inputs@.len() ==> list.contains(
            #[trigger] writer(pre, #[trigger] list[m]).inputs@[k],
        ) || writer(pre, list[m]).inputs@[k] == b
    &&& forall|m: int|
        0 <= m < list.len() ==> {
            let w = pre.vn(#[trigger] list[m]).def.unwrap();
            &&& post.opn(w).opcode == COPY
            &&& post.opn(w).inputs@ == seq![b]
            &&& post.opn(w).output == pre.opn(w).output
            &&& post.opn(w).parent == pre.opn(w).parent
            &&& post.opn(w).seq == pre.opn(w).seq
            &&& post.opn(w).dead == pre.opn(w).dead
        }
    &&& forall|o: OpId|
        #![trigger post.opn(o)]
        post.valid_op(o) && (forall|m: int| 0 <= m < list.len() ==> pre.vn(#[trigger] list[m]).def != Some(o)) ==> post.opn(o)
            == pre.opn(o)
}

/// What the collapse of merge `id` reports: nothing changes when it does not
/// fire; a merge of one value becomes a copy of it; a merge of values
/// computed alike becomes that computation; and merges that carry one value
/// among themselves, round a loop, all become copies of it.
pub open spec fn multi_collapse_reports(pre: &Funcdata, post: &Funcdata, id: OpId, changes: usize) -> bool {
    &&& changes == 0 ==> *post == *pre
    &&& forall|b: VarnodeId|
        #![trigger one_value_merge(pre, id, b)]
        one_value_merge(pre, id, b) ==> {
            &&& changes == 1
            &&& post.opn(id).opcode == COPY
            &&& post.opn(id).inputs@ == seq![b]
            &&& forall|o: OpId| #![trigger post.opn(o)] post.valid_op(o) && o != id ==> post.opn(o) == pre.opn(o)
        }
    &&& forall|b: VarnodeId|
        #![trigger alike_merge(pre, id, b)]
        alike_merge(pre, id, b) ==> {
            let source = pre.vn(b).def.unwrap();
            &&& changes == 1
            &&& post.opn(id).opcode == pre.opn(source).opcode
            &&& post.opn(id).inputs@ == pre.opn(source).inputs@
            &&& post.opn(id).parent == pre.opn(id).parent
            &&& forall|o: OpId| #![trigger post.opn(o)] post.valid_op(o) && o != id ==> post.opn(o) == pre.opn(o)
        }
    &&& forall|b: VarnodeId, group: Seq<VarnodeId>|
        #![trigger merge_group(pre, id, b, group)]
        merge_group(pre, id, b, group) ==> exists|list: Seq<VarnodeId>|
            group_collapsed(pre, post, id, b, list, changes) && forall|m: int| 0 <= m < list.len() ==> group.contains(#[trigger] list[m])
}

/// A `MULTIEQUAL` whose operands all name one value is not a merge. Operands
/// equal to the merge's own result are skipped: such a value recurs round a
/// loop unchanged. An operand that is itself a merge gets one more chance:
/// it is collapsed too and its operands join the ones to match. Operands
/// computed alike make the merge that computation. A computation that the
/// block already holds is not looked for: the merge always takes a copy of
/// the computation.
pub struct RuleMultiCollapse;

impl Rule for RuleMultiCollapse {
    open spec fn title(&self) -> Seq<char> {
        "multi-collapse"@
    }

    fn name(&self) -> (r: &'static str) {
        "multi-collapse"
    }

    open spec fn reports(&self, op: OpId, pre: Funcdata, post: Funcdata, changes: usize) -> bool {
        multi_collapse_reports(&pre, &post, op, changes)
    }

    open spec fn opcodes(&self) -> Seq<i32> {
        seq![MULTIEQUAL]
    }

    fn op_list(&self) -> (r: Vec<i32>)
        ensures
            r@ == seq![MULTIEQUAL],
    {
        let mut r = Vec::new();
        r.push(MULTIEQUAL);
        r
    }

    fn apply_op(&self, id: OpId, data: &mut Funcdata) -> (changes: usize)
        ensures
            multi_collapse_reports(&*old(data), &*final(data), id, changes),
    {
        let ghost pre = *data;
        proof {
            assert(pre.op_wf(id));
        }
        let ghost grp = exists|b: VarnodeId, g: Seq<VarnodeId>| merge_group(&pre, id, b, g);
        let ghost (gb, gg) = choose|b: VarnodeId, g: Seq<VarnodeId>| merge_group(&pre, id, b, g);
        let output = match data.op(id).output {
            Some(v) => v,
            None => {
                proof {
                    if grp {
                        assert(merge_group(&pre, id, gb, gg));
                    }
                }
                return 0;
            },
        };
        let mut matchlist = crate::graph::copy_vn_ids(&data.op(id).inputs);
        let ghost inputs = matchlist@;
        let ghost one = exists|b: VarnodeId| one_value_merge(&pre, id, b);
        let ghost ob = choose|b: VarnodeId| one_value_merge(&pre, id, b);
        let ghost alike = exists|b: VarnodeId| alike_merge(&pre, id, b);
        let ghost ab = choose|b: VarnodeId| alike_merge(&pre, id, b);
        proof {
            assert forall|b: VarnodeId| #[trigger] one_value_merge(&pre, id, b) implies b == ob by {
                assert(one_value_merge(&pre, id, ob));
                let k = choose|k: int| 0 <= k < inputs.len() && inputs[k] == b;
                assert(inputs[k] == output || inputs[k] == ob);
            }
            assert forall|b: VarnodeId| #[trigger] alike_merge(&pre, id, b) implies b == ab by {
                assert(alike_merge(&pre, id, ab));
            }
            if one {
                assert(one_value_merge(&pre, id, ob));
            }
            if alike {
                assert(alike_merge(&pre, id, ab));
            }
            if grp {
                assert(merge_group(&pre, id, gb, gg));
                assert forall|b: VarnodeId, g: Seq<VarnodeId>| #[trigger] merge_group(&pre, id, b, g) implies b == gb by {
                    let k = choose|k: int| 0 <= k < inputs.len() && inputs[k] == b;
                    assert(writer(&pre, g[0]) == pre.opn(id));
                    assert forall|q: int| 0 <= q < inputs.len() implies g.contains(#[trigger] inputs[q]) || inputs[q] == b by {
                        assert(writer(&pre, g[0]).inputs@[q] == inputs[q]);
                    }
                    lemma_first_non_phi_is(&pre, inputs, 0, b, g);
                    let k2 = choose|k: int| 0 <= k < inputs.len() && inputs[k] == gb;
                    assert(writer(&pre, gg[0]) == pre.opn(id));
                    assert forall|q: int| 0 <= q < inputs.len() implies gg.contains(#[trigger] inputs[q]) || inputs[q] == gb by {
                        assert(writer(&pre, gg[0]).inputs@[q] == inputs[q]);
                    }
                    lemma_first_non_phi_is(&pre, inputs, 0, gb, gg);
                }
            }
        }
        let mut base = find_non_phi(data, &matchlist);
        proof {
            if grp {
                assert(writer(&pre, gg[0]) == pre.opn(id));
                assert forall|q: int| 0 <= q < inputs.len() implies gg.contains(#[trigger] inputs[q]) || inputs[q] == gb by {
                    assert(writer(&pre, gg[0]).inputs@[q] == inputs[q]);
                }
                assert forall|m: int| 0 <= m < gg.len() implies phi_value(&pre, #[trigger] gg[m]) by {}
                lemma_first_non_phi_is(&pre, inputs, 0, gb, gg);
            }
            if base is Some {
                lemma_first_non_phi_in(&pre, matchlist@, 0);
                let k = choose|k: int| 0 <= k < matchlist@.len() && matchlist@[k] == base.unwrap() && !phi_value(&pre, matchlist@[k]);
                assert(matchlist@[k].0 < pre.vns().len());
                if one {
                    assert(pre.opn(id).inputs@[k] == output || pre.opn(id).inputs@[k] == ob);
                    assert(phi_value(&pre, output));
                }
            }
        }
        let mut no_func = match base {
            Some(v) => is_phi(data, v) || data.varnode(v).def.is_none(),
            None => false,
        };
        let mut func_eq = false;
        let mut marked = crate::cover::unmarked_flags(data.varnode_count());
        proof {
            crate::cover::lemma_unmarked_mark(marked@, output.0 as int);
        }
        marked.set(output.0 as usize, true);
        let mut collapse: Vec<VarnodeId> = Vec::new();
        collapse.push(output);
        proof {
            assert(collapse@ == seq![output]);
            assert forall|x: int| 0 <= x < marked@.len() && #[trigger] marked@[x] implies collapse@.contains(VarnodeId(x as u32)) by {
                assert(x == output.0);
                assert(collapse@[0] == output);
            }
            if grp {
                assert(collapse@[0] == gg[0]);
                assert(gg.contains(output));
                assert(writer(&pre, output) == pre.opn(id));
                assert forall|m: int, k: int|
                    0 <= m < collapse@.len() && 0 <= k < writer(&pre, collapse@[m]).inputs@.len() implies matchlist@.contains(
                    #[trigger] writer(&pre, #[trigger] collapse@[m]).inputs@[k],
                ) by {
                    assert(matchlist@[k] == inputs[k]);
                }
                assert forall|q: int| 0 <= q < matchlist@.len() implies #[trigger] matchlist@[q] == gb || gg.contains(matchlist@[q]) by {
                    assert(writer(&pre, gg[0]).inputs@[q] == inputs[q]);
                }
            }
            if one {
                if first_non_phi(&pre, inputs, 0) is Some {
                    lemma_first_non_phi_in(&pre, inputs, 0);
                }
            }
        }
        let mut index: usize = 0;
        while index < matchlist.len()
            invariant
                *data == pre,
                pre.wf(),
                pre.valid_op(id),
                pre.opn(id).output == Some(output),
                inputs == pre.opn(id).inputs@,
                one == exists|b: VarnodeId| one_value_merge(&pre, id, b),
                alike == exists|b: VarnodeId| alike_merge(&pre, id, b),
                forall|b: VarnodeId| #[trigger] one_value_merge(&pre, id, b) ==> b == ob,
                forall|b: VarnodeId| #[trigger] alike_merge(&pre, id, b) ==> b == ab,
                one ==> one_value_merge(&pre, id, ob),
                alike ==> alike_merge(&pre, id, ab),
                crate::graph::vns_below(matchlist@, pre.vns().len() as int),
                marked@.len() == pre.vns().len(),
                marked@[output.0 as int],
                index <= matchlist@.len(),
                crate::graph::vns_below(collapse@, pre.vns().len() as int),
                collapse@.len() >= 1,
                collapse@[0] == output,
                base matches Some(v) ==> pre.valid_vn(v),
                (one || alike) ==> matchlist@ == inputs && collapse@ == seq![output]
                    && forall|x: int| 0 <= x < marked@.len() && #[trigger] marked@[x] ==> x == output.0,
                one ==> (base is None || base == Some(ob)) && !func_eq,
                one ==> (base is None ==> forall|k: int| 0 <= k < index ==> #[trigger] inputs[k] == output),
                alike ==> base == Some(ab) && !no_func,
                alike ==> (func_eq <==> exists|k: int| 0 <= k < index && #[trigger] inputs[k] != output && inputs[k] != ab),
                pre.vns().len() <= u32::MAX,
                grp == exists|b: VarnodeId, g: Seq<VarnodeId>| merge_group(&pre, id, b, g),
                grp ==> merge_group(&pre, id, gb, gg),
                grp ==> base == Some(gb) && !func_eq,
                forall|m: int| 0 <= m < collapse@.len() ==> marked@[(#[trigger] collapse@[m]).0 as int],
                forall|x: int| 0 <= x < marked@.len() && #[trigger] marked@[x] ==> collapse@.contains(VarnodeId(x as u32)),
                grp ==> collapse@.no_duplicates(),
                grp ==> forall|m: int| 0 <= m < collapse@.len() ==> gg.contains(#[trigger] collapse@[m]),
                grp ==> forall|q: int| 0 <= q < matchlist@.len() ==> #[trigger] matchlist@[q] == gb || gg.contains(matchlist@[q]),
                forall|g: Seq<VarnodeId>|
                    #[trigger] merge_group(&pre, id, gb, g) ==> (forall|q: int| 0 <= q < matchlist@.len() ==> #[trigger] matchlist@[q] == gb
                        || g.contains(matchlist@[q])) && (forall|m: int| 0 <= m < collapse@.len() ==> g.contains(#[trigger] collapse@[m])),
                grp ==> forall|q: int| 0 <= q < index ==> #[trigger] matchlist@[q] == gb || collapse@.contains(matchlist@[q]),
                grp ==> forall|m: int, k: int|
                    0 <= m < collapse@.len() && 0 <= k < writer(&pre, collapse@[m]).inputs@.len() ==> matchlist@.contains(
                        #[trigger] writer(&pre, #[trigger] collapse@[m]).inputs@[k],
                    ),
            decreases crate::cover::unmarked(marked@), matchlist@.len() - index,
        {
            let candidate = matchlist[index];
            proof {
                assert(matchlist@[index as int].0 < pre.vns().len());
                if one {
                    assert(pre.opn(id).inputs@[index as int] == output || pre.opn(id).inputs@[index as int] == ob);
                }
                if alike {
                    assert(pre.opn(id).inputs@[index as int] == output || pre.opn(id).inputs@[index as int] == ab || computed_alike(&pre, ab, pre.opn(id).inputs@[index as int]));
                }
                if grp {
                    assert(candidate == gb || gg.contains(candidate));
                }
            }
            let ghost index0 = index;
            index += 1;
            if marked[candidate.0 as usize] {
                proof {
                    if alike {
                        assert(candidate == output);
                        assert forall|k: int| 0 <= k < index && #[trigger] inputs[k] != output && inputs[k] != ab implies k < index - 1 by {}
                    }
                    assert(VarnodeId((candidate.0 as int) as u32) == candidate);
                    assert(collapse@.contains(candidate));
                    if grp {
                        assert forall|q: int| 0 <= q < index implies #[trigger] matchlist@[q] == gb || collapse@.contains(matchlist@[q]) by {
                            if q < index0 {
                            } else {
                                assert(matchlist@[q] == candidate);
                            }
                        }
                    }
                }
                continue;
            }
            match base {
                None => {
                    no_func = is_phi(data, candidate) || data.varnode(candidate).def.is_none();
                    base = Some(candidate);
                },
                Some(chosen) => {
                    if chosen == candidate {
                        proof {
                            if grp {
                                assert forall|q: int| 0 <= q < index implies #[trigger] matchlist@[q] == gb || collapse@.contains(matchlist@[q]) by {
                                    if q == index0 {
                                        assert(matchlist@[q] == candidate);
                                    }
                                }
                            }
                        }
                    } else {
                        let comparable = match data.varnode(chosen).def {
                            Some(o) => {
                                proof {
                                    assert(pre.vn_wf(chosen));
                                }
                                data.op(o).inputs.len() >= 1
                            },
                            None => true,
                        };
                        let same = if !no_func && comparable {
                            match crate::equality::functional_equality(data, chosen, candidate) {
                                Equality::Same => true,
                                _ => false,
                            }
                        } else {
                            false
                        };
                        proof {
                            if grp {
                                assert(gg.contains(candidate));
                                lemma_group_not_alike(&pre, id, gb, gg, candidate);
                                assert(!same);
                                let m = choose|m: int| 0 <= m < gg.len() && gg[m] == candidate;
                                assert(phi_value(&pre, gg[m]));
                            }
                        }
                        if same {
                            func_eq = true;
                        } else if is_phi(data, candidate) {
                            proof {
                                assert(!one && !alike);
                                crate::cover::lemma_unmarked_mark(marked@, candidate.0 as int);
                                assert(pre.vn_wf(candidate));
                            }
                            let ghost marked0 = marked@;
                            let ghost collapse0 = collapse@;
                            marked.set(candidate.0 as usize, true);
                            collapse.push(candidate);
                            proof {
                                assert(!collapse0.contains(candidate)) by {
                                    if collapse0.contains(candidate) {
                                        let m = choose|m: int| 0 <= m < collapse0.len() && collapse0[m] == candidate;
                                        assert(marked0[(collapse0[m]).0 as int]);
                                    }
                                }
                                assert forall|m: int| 0 <= m < collapse@.len() implies marked@[(#[trigger] collapse@[m]).0 as int] by {
                                    if m < collapse0.len() {
                                        assert(collapse@[m] == collapse0[m]);
                                        assert(marked0[(collapse0[m]).0 as int]);
                                    }
                                }
                                assert forall|x: int| 0 <= x < marked@.len() && #[trigger] marked@[x] implies collapse@.contains(VarnodeId(x as u32)) by {
                                    if x == candidate.0 {
                                        assert(collapse@[collapse0.len() as int] == candidate);
                                    } else {
                                        assert(marked0[x]);
                                        let m = choose|m: int| 0 <= m < collapse0.len() && collapse0[m] == VarnodeId(x as u32);
                                        assert(collapse@[m] == collapse0[m]);
                                    }
                                }
                                assert forall|v: VarnodeId| collapse0.contains(v) implies #[trigger] collapse@.contains(v) by {
                                    let m = choose|m: int| 0 <= m < collapse0.len() && collapse0[m] == v;
                                    assert(collapse@[m] == v);
                                }
                                assert(collapse@.contains(candidate)) by {
                                    assert(collapse@[collapse0.len() as int] == candidate);
                                }
                                if grp {
                                    assert(collapse@.no_duplicates()) by {
                                        assert forall|i: int, j: int| 0 <= i < j < collapse@.len() implies collapse@[i] != collapse@[j] by {
                                            if j == collapse0.len() {
                                                assert(collapse@[i] == collapse0[i]);
                                            } else {
                                                assert(collapse@[i] == collapse0[i] && collapse@[j] == collapse0[j]);
                                            }
                                        }
                                    }
                                    assert forall|m: int| 0 <= m < collapse@.len() implies gg.contains(#[trigger] collapse@[m]) by {
                                        if m < collapse0.len() {
                                            assert(collapse@[m] == collapse0[m]);
                                        }
                                    }
                                    assert forall|q: int| 0 <= q < index implies #[trigger] matchlist@[q] == gb || collapse@.contains(matchlist@[q]) by {
                                        if q == index0 {
                                            assert(matchlist@[q] == candidate);
                                        } else if !(matchlist@[q] == gb) {
                                            assert(collapse0.contains(matchlist@[q]));
                                        }
                                    }
                                }
                            }
                            let definition = match data.varnode(candidate).def {
                                Some(o) => o,
                                None => {
                                    proof {
                                        assert(!phi_value(&pre, candidate));
                                    }
                                    return 0;
                                },
                            };
                            proof {
                                assert(pre.op_wf(definition));
                            }
                            let extra = crate::graph::copy_vn_ids(&data.op(definition).inputs);
                            let ghost mstart = matchlist@;
                            proof {
                                assert(extra@ == writer(&pre, candidate).inputs@);
                            }
                            let mut t: usize = 0;
                            while t < extra.len()
                                invariant
                                    crate::graph::vns_below(extra@, pre.vns().len() as int),
                                    crate::graph::vns_below(matchlist@, pre.vns().len() as int),
                                    index <= mstart.len(),
                                    t <= extra@.len(),
                                    matchlist@.len() == mstart.len() + t,
                                    forall|q: int| 0 <= q < mstart.len() ==> #[trigger] matchlist@[q] == mstart[q],
                                    forall|q: int| 0 <= q < t ==> #[trigger] matchlist@[mstart.len() + q] == extra@[q],
                                decreases extra@.len() - t,
                            {
                                let ghost m0 = matchlist@;
                                matchlist.push(extra[t]);
                                proof {
                                    assert(extra@[t as int].0 < pre.vns().len());
                                    assert forall|q: int| 0 <= q < matchlist@.len() implies (#[trigger] matchlist@[q]).0 < pre.vns().len() by {
                                        if q < m0.len() {
                                            assert(matchlist@[q] == m0[q]);
                                        }
                                    }
                                    assert forall|q: int| 0 <= q < t + 1 implies #[trigger] matchlist@[mstart.len() + q] == extra@[q] by {
                                        if q < t {
                                            assert(matchlist@[mstart.len() + q] == m0[mstart.len() + q]);
                                        }
                                    }
                                }
                                t += 1;
                            }
                            proof {
                                assert forall|v: VarnodeId| mstart.contains(v) implies #[trigger] matchlist@.contains(v) by {
                                    let q = choose|q: int| 0 <= q < mstart.len() && mstart[q] == v;
                                    assert(matchlist@[q] == v);
                                }
                                assert forall|g: Seq<VarnodeId>| #[trigger] merge_group(&pre, id, gb, g) implies (forall|q: int|
                                    0 <= q < matchlist@.len() ==> #[trigger] matchlist@[q] == gb || g.contains(matchlist@[q])) && (forall|m: int|
                                    0 <= m < collapse@.len() ==> g.contains(#[trigger] collapse@[m])) by {
                                    assert(grp);
                                    assert(mstart[index0 as int] == candidate);
                                    assert(g.contains(candidate));
                                    let mg = choose|m: int| 0 <= m < g.len() && g[m] == candidate;
                                    assert forall|q: int| 0 <= q < matchlist@.len() implies #[trigger] matchlist@[q] == gb || g.contains(matchlist@[q]) by {
                                        if q < mstart.len() {
                                            assert(matchlist@[q] == mstart[q]);
                                        } else {
                                            let k = q - mstart.len();
                                            assert(matchlist@[mstart.len() + k] == extra@[k]);
                                            assert(writer(&pre, g[mg]).inputs@[k] == extra@[k]);
                                        }
                                    }
                                    assert forall|m: int| 0 <= m < collapse@.len() implies g.contains(#[trigger] collapse@[m]) by {
                                        if m < collapse0.len() {
                                            assert(collapse@[m] == collapse0[m]);
                                        }
                                    }
                                }
                                if grp {
                                    let mc = choose|m: int| 0 <= m < gg.len() && gg[m] == candidate;
                                    assert forall|q: int| 0 <= q < matchlist@.len() implies #[trigger] matchlist@[q] == gb || gg.contains(matchlist@[q]) by {
                                        if q < mstart.len() {
                                            assert(matchlist@[q] == mstart[q]);
                                        } else {
                                            let k = q - mstart.len();
                                            assert(matchlist@[mstart.len() + k] == extra@[k]);
                                            assert(writer(&pre, gg[mc]).inputs@[k] == extra@[k]);
                                        }
                                    }
                                    assert forall|q: int| 0 <= q < index implies #[trigger] matchlist@[q] == gb || collapse@.contains(matchlist@[q]) by {
                                        assert(matchlist@[q] == mstart[q]);
                                    }
                                    assert forall|m: int, k: int|
                                        0 <= m < collapse@.len() && 0 <= k < writer(&pre, collapse@[m]).inputs@.len() implies matchlist@.contains(
                                        #[trigger] writer(&pre, #[trigger] collapse@[m]).inputs@[k],
                                    ) by {
                                        if m < collapse0.len() {
                                            assert(collapse@[m] == collapse0[m]);
                                            assert(mstart.contains(writer(&pre, collapse0[m]).inputs@[k]));
                                        } else {
                                            assert(collapse@[m] == candidate);
                                            assert(matchlist@[mstart.len() + k] == extra@[k]);
                                        }
                                    }
                                }
                            }
                        } else {
                            proof {
                                if one {
                                    assert(candidate == output || candidate == ob);
                                    assert(candidate != output);
                                    assert(false);
                                }
                                if alike {
                                    assert(candidate != output);
                                    assert(candidate == ab || computed_alike(&pre, ab, candidate));
                                    assert(comparable);
                                    assert(false);
                                }
                                assert(!grp);
                            }
                            return 0;
                        }
                    }
                },
            }
        }
        let base = match base {
            Some(b) => b,
            None => {
                proof {
                    if one {
                        let k = choose|k: int| 0 <= k < inputs.len() && inputs[k] == ob;
                        assert(inputs[k] == output);
                    }
                }
                return 0;
            },
        };
        let ghost scanned = collapse@;
        proof {
            if grp {
                assert forall|m: int, k: int|
                    0 <= m < scanned.len() && 0 <= k < writer(&pre, scanned[m]).inputs@.len() implies scanned.contains(
                    #[trigger] writer(&pre, #[trigger] scanned[m]).inputs@[k],
                ) || writer(&pre, scanned[m]).inputs@[k] == gb by {
                    let w = writer(&pre, scanned[m]).inputs@[k];
                    assert(matchlist@.contains(w));
                    let q = choose|q: int| 0 <= q < matchlist@.len() && matchlist@[q] == w;
                    assert(matchlist@[q] == gb || collapse@.contains(matchlist@[q]));
                }
                assert forall|m: int| 0 <= m < scanned.len() implies pre.valid_vn(#[trigger] scanned[m]) && phi_value(&pre, scanned[m]) by {
                    assert(gg.contains(scanned[m]));
                    let j = choose|j: int| 0 <= j < gg.len() && gg[j] == scanned[m];
                    assert(pre.valid_vn(gg[j]) && phi_value(&pre, gg[j]));
                }
                assert(!scanned.contains(gb)) by {
                    if scanned.contains(gb) {
                        let m = choose|m: int| 0 <= m < scanned.len() && scanned[m] == gb;
                        assert(gg.contains(scanned[m]));
                    }
                }
            }
        }
        let mut changed: usize = 0;
        let mut c: usize = 0;
        while c < collapse.len()
            invariant
                pre.wf(),
                data.wf(),
                arenas_grow(&pre, &*data),
                data.vns().len() == pre.vns().len(),
                pre.valid_vn(base),
                crate::graph::vns_below(collapse@, pre.vns().len() as int),
                c <= collapse@.len(),
                changed <= c,
                changed == 0 ==> *data == pre,
                pre.opn(id).output == Some(output),
                one == exists|b: VarnodeId| one_value_merge(&pre, id, b),
                alike == exists|b: VarnodeId| alike_merge(&pre, id, b),
                forall|b: VarnodeId| #[trigger] one_value_merge(&pre, id, b) ==> b == ob,
                forall|b: VarnodeId| #[trigger] alike_merge(&pre, id, b) ==> b == ab,
                one ==> one_value_merge(&pre, id, ob),
                alike ==> alike_merge(&pre, id, ab),
                (one || alike) ==> collapse@ == seq![output],
                one ==> base == ob && !func_eq,
                alike ==> base == ab && func_eq,
                (one || alike) && c == 0 ==> *data == pre,
                one && c == 1 ==> {
                    &&& changed == 1
                    &&& data.opn(id).opcode == COPY
                    &&& data.opn(id).inputs@ == seq![ob]
                    &&& forall|o: OpId| #![trigger data.opn(o)] data.valid_op(o) && o != id ==> data.opn(o) == pre.opn(o)
                },
                collapse@ == scanned,
                grp ==> merge_group(&pre, id, gb, gg) && base == gb && !func_eq,
                grp ==> collapse@.no_duplicates() && collapse@[0] == output && !collapse@.contains(gb),
                grp ==> forall|m: int| 0 <= m < scanned.len() ==> pre.valid_vn(#[trigger] scanned[m]) && phi_value(&pre, scanned[m]),
                grp ==> forall|m: int, k: int|
                    0 <= m < scanned.len() && 0 <= k < writer(&pre, scanned[m]).inputs@.len() ==> scanned.contains(
                        #[trigger] writer(&pre, #[trigger] scanned[m]).inputs@[k],
                    ) || writer(&pre, scanned[m]).inputs@[k] == gb,
                grp ==> forall|v: VarnodeId| #![trigger data.vn(v)] pre.valid_vn(v) ==> data.vn(v).def == pre.vn(v).def,
                grp ==> changed == c,
                grp ==> forall|m: int|
                    0 <= m < c ==> {
                        let w = pre.vn(#[trigger] scanned[m]).def.unwrap();
                        &&& data.opn(w).opcode == COPY
                        &&& data.opn(w).inputs@ == seq![gb]
                        &&& data.opn(w).output == pre.opn(w).output
                        &&& data.opn(w).parent == pre.opn(w).parent
                        &&& data.opn(w).seq == pre.opn(w).seq
                        &&& data.opn(w).dead == pre.opn(w).dead
                    },
                grp ==> forall|o: OpId|
                    #![trigger data.opn(o)]
                    data.valid_op(o) && (forall|m: int| 0 <= m < c ==> pre.vn(#[trigger] scanned[m]).def != Some(o)) ==> data.opn(o)
                        == pre.opn(o),
                alike && c == 1 ==> {
                    let source = pre.vn(ab).def.unwrap();
                    &&& changed == 1
                    &&& data.opn(id).opcode == pre.opn(source).opcode
                    &&& data.opn(id).inputs@ == pre.opn(source).inputs@
                    &&& data.opn(id).parent == pre.opn(id).parent
                    &&& forall|o: OpId| #![trigger data.opn(o)] data.valid_op(o) && o != id ==> data.opn(o) == pre.opn(o)
                },
            decreases collapse@.len() - c,
        {
            let value = collapse[c];
            proof {
                assert(collapse@[c as int].0 < pre.vns().len());
                assert(data.vn_wf(value));
                if one || alike {
                    assert(value == output);
                    assert(data.vn(value).def == Some(id));
                    assert(value != base);
                }
                if alike {
                    assert(data.vn(base).def is Some);
                    assert(data.opn(id).parent is Some);
                }
                if grp {
                    assert(scanned[c as int] == value);
                    assert(pre.valid_vn(scanned[c as int]) && phi_value(&pre, scanned[c as int]));
                    assert(data.vn(value).def == pre.vn(value).def);
                    assert(value != base) by {
                        if value == base {
                            assert(collapse@.contains(gb));
                        }
                    }
                }
            }
            let ghost c0 = c as int;
            c += 1;
            let definition = match data.varnode(value).def {
                Some(o) => o,
                None => {
                    continue;
                },
            };
            if value == base {
                continue;
            }
            proof {
                assert(data.op_wf(definition));
                if one || alike {
                    assert(value == output);
                    assert(definition == id);
                }
            }
            if !func_eq {
                let ghost d0 = *data;
                data.op_set_opcode(definition, COPY);
                let mut only = Vec::new();
                only.push(base);
                proof {
                    assert(only@ =~= seq![base]);
                    assert forall|q: int| 0 <= q < only@.len() implies (#[trigger] only@[q]).0 < data.vns().len() by {}
                }
                let ghost d1 = *data;
                data.op_set_inputs(definition, only);
                proof {
                    assert forall|o: OpId| #![trigger data.opn(o)] data.valid_op(o) && o != definition implies data.opn(o) == d0.opn(o) by {
                        assert(d1.opn(o) == d0.opn(o));
                    }
                    if grp {
                        assert(pre.vn(scanned[c0]).def == Some(definition));
                        assert forall|m: int| 0 <= m < c0 implies pre.vn(#[trigger] scanned[m]).def != Some(definition) by {
                            if pre.vn(scanned[m]).def == Some(definition) {
                                assert(pre.vn_wf(scanned[m]));
                                assert(pre.vn_wf(scanned[c0]));
                                assert(scanned[m] == scanned[c0]);
                            }
                        }
                        assert(d0.opn(definition) == pre.opn(definition));
                        assert forall|v: VarnodeId| #![trigger data.vn(v)] pre.valid_vn(v) implies data.vn(v).def == pre.vn(v).def by {
                            assert(d1.vn(v) == d0.vn(v));
                            assert(same_but_readers(data.vn(v), d1.vn(v)));
                        }
                        assert forall|m: int|
                            0 <= m < c0 + 1 implies {
                            let w = pre.vn(#[trigger] scanned[m]).def.unwrap();
                            &&& data.opn(w).opcode == COPY
                            &&& data.opn(w).inputs@ == seq![gb]
                            &&& data.opn(w).output == pre.opn(w).output
                            &&& data.opn(w).parent == pre.opn(w).parent
                            &&& data.opn(w).seq == pre.opn(w).seq
                            &&& data.opn(w).dead == pre.opn(w).dead
                        } by {
                            if m < c0 {
                                let w = pre.vn(scanned[m]).def.unwrap();
                                assert(pre.vn_wf(scanned[m]));
                                assert(w != definition);
                                assert(data.opn(w) == d0.opn(w));
                            }
                        }
                        assert forall|o: OpId|
                            #![trigger data.opn(o)]
                            data.valid_op(o) && (forall|m: int| 0 <= m < c0 + 1 ==> pre.vn(#[trigger] scanned[m]).def != Some(o)) implies data.opn(o)
                                == pre.opn(o) by {
                            assert(pre.vn(scanned[c0]).def != Some(o));
                            assert(data.opn(o) == d0.opn(o));
                        }
                    }
                }
                changed = changed + 1;
                continue;
            }
            let source = match data.varnode(base).def {
                Some(o) => o,
                None => {
                    continue;
                },
            };
            let block = match data.op(definition).parent {
                Some(b) => b,
                None => {
                    continue;
                },
            };
            proof {
                assert(data.vn_wf(base));
                assert(data.op_wf(source));
            }
            let operands = crate::graph::copy_vn_ids(&data.op(source).inputs);
            let opcode = data.op(source).opcode;
            let was_marker = data.op(definition).opcode == MULTIEQUAL;
            let ghost d0 = *data;
            data.op_set_inputs(definition, operands);
            let ghost d1 = *data;
            data.op_set_opcode(definition, opcode);
            let ghost d2 = *data;
            if was_marker {
                data.op_uninsert(definition);
                let ghost d3 = *data;
                data.op_insert_begin(definition, block);
                proof {
                    assert(d3.opn(definition).parent is None);
                    assert forall|o: OpId| #![trigger data.opn(o)] data.valid_op(o) && o != definition implies data.opn(o) == d2.opn(o) by {
                        assert(d3.opn(o) == d2.opn(o));
                    }
                }
            }
            proof {
                assert forall|o: OpId| #![trigger data.opn(o)] data.valid_op(o) && o != definition implies data.opn(o) == d0.opn(o) by {
                    assert(d2.opn(o) == d1.opn(o));
                    assert(d1.opn(o) == d0.opn(o));
                }
            }
            changed = changed + 1;
        }
        proof {
            if grp {
                assert(group_collapsed(&pre, &*data, id, gb, scanned, changed));
                assert forall|b: VarnodeId, g: Seq<VarnodeId>| #[trigger] merge_group(&pre, id, b, g) implies exists|list: Seq<VarnodeId>|
                    group_collapsed(&pre, &*data, id, b, list, changed) by {
                    assert(b == gb);
                }
            }
        }
        changed
    }
}

/// In a list of merge results and one other value `b`, `b` is the first
/// value not written by a merge.
proof fn lemma_first_non_phi_is(d: &Funcdata, s: Seq<VarnodeId>, i: int, b: VarnodeId, group: Seq<VarnodeId>)
    requires
        0 <= i,
        forall|k: int| i <= k < s.len() ==> group.contains(#[trigger] s[k]) || s[k] == b,
        forall|m: int| 0 <= m < group.len() ==> phi_value(d, #[trigger] group[m]),
        !phi_value(d, b),
        exists|k: int| i <= k < s.len() && s[k] == b,
    ensures
        first_non_phi(d, s, i) == Some(b),
    decreases s.len() - i,
{
    if s[i] != b {
        assert(group.contains(s[i]));
        let m = choose|m: int| 0 <= m < group.len() && group[m] == s[i];
        assert(phi_value(d, group[m]));
        lemma_first_non_phi_is(d, s, i + 1, b, group);
    }
}

/// A merge result is never computed as a value that no merge writes.
proof fn lemma_group_not_alike(d: &Funcdata, id: OpId, b: VarnodeId, group: Seq<VarnodeId>, c: VarnodeId)
    requires
        d.wf(),
        merge_group(d, id, b, group),
        group.contains(c),
    ensures
        equality_of(d, b, c) != Equality::Same,
{
    let m = choose|m: int| 0 <= m < group.len() && group[m] == c;
    assert(d.valid_vn(group[m]) && phi_value(d, group[m]) && !d.vn(group[m]).flags.constant);
    assert(c != b);
    if crate::equality::operands_compared(d, b, c) {
        assert(d.opn(d.vn(c).def.unwrap()).opcode == MULTIEQUAL);
        assert(false);
    }
}

proof fn lemma_first_non_phi_in(d: &Funcdata, s: Seq<VarnodeId>, i: int)
    requires
        0 <= i,
        first_non_phi(d, s, i) is Some,
    ensures
        exists|k: int| i <= k < s.len() && s[k] == first_non_phi(d, s, i).unwrap() && !phi_value(d, s[k]),
    decreases s.len() - i,
{
    if !phi_value(d, s[i]) {
        assert(s[i] == first_non_phi(d, s, i).unwrap());
    } else {
        lemma_first_non_phi_in(d, s, i + 1);
    }
}

/// A `COPY` result is the same value as its operand, so readers can use the
/// operand directly.
pub struct RulePropagateCopy;

impl Rule for RulePropagateCopy {
    open spec fn title(&self) -> Seq<char> {
        "propagate-copy"@
    }

    fn name(&self) -> (r: &'static str) {
        "propagate-copy"
    }

    open spec fn reports(&self, op: OpId, pre: Funcdata, post: Funcdata, changes: usize) -> bool {
        changes == (if propagate_copy_fires(&pre, op) {
            1usize
        } else {
            0
        })
    }

    open spec fn opcodes(&self) -> Seq<i32> {
        seq![COPY]
    }

    fn op_list(&self) -> (r: Vec<i32>)
        ensures
            r@ == seq![COPY],
    {
        let mut r = Vec::new();
        r.push(COPY);
        r
    }

    fn apply_op(&self, id: OpId, data: &mut Funcdata) -> (changes: usize)
        ensures
            changes == (if propagate_copy_fires(&*old(data), id) { 1usize } else { 0 }),
            !propagate_copy_fires(&*old(data), id) ==> *final(data) == *old(data),
            propagate_copy_fires(&*old(data), id) ==> replaced_and_destroyed(
                &*old(data),
                &*final(data),
                id,
                old(data).opn(id).output.unwrap(),
                old(data).opn(id).inputs@[0],
            ),
    {
        let operation = data.op(id);
        proof {
            assert(data.op_wf(id));
        }
        let Some(output) = operation.output else {
            return 0;
        };
        if operation.inputs.len() == 0 {
            return 0;
        }
        let source = operation.inputs[0];
        if output == source {
            return 0;
        }
        let out = data.varnode(output);
        let src = data.varnode(source);
        if out.size != src.size {
            return 0;
        }
        let transparent = src.flags.constant || out.space == UNIQUE_SPACE || (out.space == src.space
            && out.offset == src.offset);
        if !transparent {
            return 0;
        }
        if out.descendants.len() == 0 {
            return 0;
        }
        let ghost pre = *data;
        data.total_replace(output, source);
        let ghost mid = *data;
        data.op_destroy(id);
        proof {
            let post = *data;
            assert forall|o: OpId|
                #![trigger post.opn(o)]
                post.valid_op(o) && o != id implies {
                    &&& post.opn(o).inputs@ == replace_in(pre.opn(o).inputs@, output, source)
                    &&& post.opn(o).opcode == pre.opn(o).opcode
                    &&& post.opn(o).output == pre.opn(o).output
                    &&& post.opn(o).parent == pre.opn(o).parent
                    &&& post.opn(o).dead == pre.opn(o).dead
                } by {
                assert(post.opn(o) == mid.opn(o));
            }
        }
        1
    }
}

/// The mask of every bit a value of `width` bytes holds.
pub open spec fn width_mask(width: u32) -> u64 {
    if width >= 8 {
        u64::MAX
    } else {
        ((1u64 << (width * 8)) - 1) as u64
    }
}

fn width_mask_exec(width: u32) -> (r: u64)
    ensures
        r == width_mask(width),
{
    if width >= 8 {
        u64::MAX
    } else {
        let shift = width * 8;
        assert((1u64 << shift) >= 1) by (bit_vector)
            requires shift < 64;
        (1u64 << shift) - 1
    }
}

/// The value an operation with constant operands computes, before it is
/// narrowed to the output's width.
pub open spec fn fold_constant(opcode: i32, left: u64, right: u64) -> Option<u64> {
    if opcode == INT_ADD {
        Some(left.wrapping_add(right))
    } else if opcode == INT_SUB {
        Some(left.wrapping_sub(right))
    } else if opcode == INT_MULT {
        Some(left.wrapping_mul(right))
    } else if opcode == INT_AND {
        Some(left & right)
    } else if opcode == INT_OR {
        Some(left | right)
    } else if opcode == INT_XOR {
        Some(left ^ right)
    } else if opcode == INT_LEFT {
        Some(if right < 64 { left << right } else { 0 })
    } else if opcode == INT_RIGHT {
        Some(if right < 64 { left >> right } else { 0 })
    } else if opcode == INT_NEGATE {
        Some(!left)
    } else if opcode == INT_2COMP {
        Some(0u64.wrapping_sub(left))
    } else if opcode == INT_EQUAL {
        Some(if left == right { 1 } else { 0 })
    } else if opcode == INT_NOTEQUAL {
        Some(if left != right { 1 } else { 0 })
    } else if opcode == INT_LESS {
        Some(if left < right { 1 } else { 0 })
    } else if opcode == INT_LESSEQUAL {
        Some(if left <= right { 1 } else { 0 })
    } else if opcode == BOOL_NEGATE {
        Some(if left == 0 { 1 } else { 0 })
    } else {
        None
    }
}

/// The number of distinct 64-bit words.
pub open spec fn word_modulus() -> int {
    0x1_0000_0000_0000_0000
}

/// Bit `i` of `x`.
pub open spec fn bit_of(x: u64, i: u64) -> bool {
    (x >> i) & 1 == 1
}

/// How each bit of a bitwise result or of a shift is read off the operand
/// bits, and that the bitwise operations ignore operand order.
pub(crate) proof fn lemma_bits_of_ops(l: u64, r: u64, i: u64, width: u32)
    by (bit_vector)
    requires
        i < 64,
    ensures
        bit_of(width_mask(width), i) == (i < 8 * width),
        bit_of(l & r, i) == (bit_of(l, i) && bit_of(r, i)),
        bit_of(l | r, i) == (bit_of(l, i) || bit_of(r, i)),
        bit_of(l ^ r, i) == (bit_of(l, i) != bit_of(r, i)),
        bit_of(!l, i) == !bit_of(l, i),
        r < 64 ==> bit_of(l << r, i) == (r <= i && bit_of(l, (i - r) as u64)),
        r < 64 ==> bit_of(l >> r, i) == (i + r < 64 && bit_of(l, (i + r) as u64)),
        l & r == r & l,
        l | r == r | l,
        l ^ r == r ^ l,
{
}

/// What each folded opcode computes, told by the relation between the folded
/// value and the operands `l` (first) and `r` (second): a sum, a difference,
/// a product and a negation are taken modulo 2^64 (the difference plus the
/// second operand gives back the first); bit `i` of a bitwise result is read
/// off bit `i` of the operands; a shift by `r` moves each bit `r` places, and
/// clears the word from 64 places on; a comparison gives 1 exactly when it
/// holds of the first operand against the second, and 0 otherwise.
pub proof fn lemma_fold_constant_meaning(l: u64, r: u64, i: u64)
    requires
        i < 64,
    ensures
        fold_constant(INT_ADD, l, r) matches Some(v) && v == (l + r) % word_modulus(),
        fold_constant(INT_SUB, l, r) matches Some(v) && (v + r) % word_modulus() == l,
        fold_constant(INT_MULT, l, r) matches Some(v) && v == (l * r) % word_modulus(),
        fold_constant(INT_2COMP, l, r) matches Some(v) && (v + l) % word_modulus() == 0,
        fold_constant(INT_AND, l, r) matches Some(v) && bit_of(v, i) == (bit_of(l, i) && bit_of(r, i)),
        fold_constant(INT_OR, l, r) matches Some(v) && bit_of(v, i) == (bit_of(l, i) || bit_of(r, i)),
        fold_constant(INT_XOR, l, r) matches Some(v) && bit_of(v, i) == (bit_of(l, i) != bit_of(r, i)),
        fold_constant(INT_NEGATE, l, r) matches Some(v) && bit_of(v, i) == !bit_of(l, i),
        fold_constant(INT_LEFT, l, r) matches Some(v) && (r < 64 ==> bit_of(v, i) == (r <= i && bit_of(
            l,
            (i - r) as u64,
        ))) && (r >= 64 ==> v == 0),
        fold_constant(INT_RIGHT, l, r) matches Some(v) && (r < 64 ==> bit_of(v, i) == (i + r < 64 && bit_of(
            l,
            (i + r) as u64,
        ))) && (r >= 64 ==> v == 0),
        fold_constant(INT_EQUAL, l, r) matches Some(v) && (v == 1) == (l == r) && (v == 0) == (l != r),
        fold_constant(INT_NOTEQUAL, l, r) matches Some(v) && (v == 1) == (l != r) && (v == 0) == (l == r),
        fold_constant(INT_LESS, l, r) matches Some(v) && (v == 1) == (l < r) && (v == 0) == (r <= l),
        fold_constant(INT_LESSEQUAL, l, r) matches Some(v) && (v == 1) == (l <= r) && (v == 0) == (r < l),
        fold_constant(BOOL_NEGATE, l, r) matches Some(v) && (v == 1) == (l == 0) && (v == 0) == (l != 0),
{
    lemma_bits_of_ops(l, r, i, 0);
}

/// The mask of an output of `width` bytes keeps exactly its low `8 * width`
/// bits: bit `i` survives the narrowing of a folded value when it lies in
/// the output, and is cleared otherwise.
pub proof fn lemma_width_mask_meaning(width: u32, v: u64, i: u64)
    requires
        i < 64,
    ensures
        bit_of(width_mask(width), i) == (i < 8 * width),
        bit_of(v & width_mask(width), i) == (i < 8 * width && bit_of(v, i)),
{
    lemma_bits_of_ops(v, width_mask(width), i, width);
}

/// The folded constant `RuleCollapseConstants` replaces an operation with,
/// when every operand is a constant and the opcode folds.
pub open spec fn collapse_value(d: &Funcdata, id: OpId) -> Option<u64> {
    let op = d.opn(id);
    if op.output is Some && op.inputs@.len() > 0 && (forall|k: int|
        0 <= k < op.inputs@.len() ==> #[trigger] d.vn(op.inputs@[k]).flags.constant) {
        let left = d.vn(op.inputs@[0]).offset;
        let right = if op.inputs@.len() > 1 { d.vn(op.inputs@[1]).offset } else { 0 };
        match fold_constant(op.opcode, left, right) {
            Some(v) => Some(v & width_mask(d.vn(op.output.unwrap()).size)),
            None => None,
        }
    } else {
        None
    }
}

/// An operation with constant operands is a constant.
pub struct RuleCollapseConstants;

impl Rule for RuleCollapseConstants {
    open spec fn title(&self) -> Seq<char> {
        "collapse-constants"@
    }

    fn name(&self) -> (r: &'static str) {
        "collapse-constants"
    }

    open spec fn reports(&self, op: OpId, pre: Funcdata, post: Funcdata, changes: usize) -> bool {
        changes == (if collapse_value(&pre, op) is Some && pre.vns().len() < u32::MAX {
            1usize
        } else {
            0
        })
    }

    open spec fn opcodes(&self) -> Seq<i32> {
        seq![
                INT_ADD,
                INT_SUB,
                INT_MULT,
                INT_AND,
                INT_OR,
                INT_XOR,
                INT_LEFT,
                INT_RIGHT,
                INT_NEGATE,
                INT_2COMP,
                INT_EQUAL,
                INT_NOTEQUAL,
                INT_LESS,
                INT_LESSEQUAL,
                BOOL_NEGATE,
            ]
    }

    fn op_list(&self) -> (r: Vec<i32>)
        ensures
            r@ == seq![
                INT_ADD,
                INT_SUB,
                INT_MULT,
                INT_AND,
                INT_OR,
                INT_XOR,
                INT_LEFT,
                INT_RIGHT,
                INT_NEGATE,
                INT_2COMP,
                INT_EQUAL,
                INT_NOTEQUAL,
                INT_LESS,
                INT_LESSEQUAL,
                BOOL_NEGATE,
            ],
    {
        let mut r = Vec::new();
        r.push(INT_ADD);
        r.push(INT_SUB);
        r.push(INT_MULT);
        r.push(INT_AND);
        r.push(INT_OR);
        r.push(INT_XOR);
        r.push(INT_LEFT);
        r.push(INT_RIGHT);
        r.push(INT_NEGATE);
        r.push(INT_2COMP);
        r.push(INT_EQUAL);
        r.push(INT_NOTEQUAL);
        r.push(INT_LESS);
        r.push(INT_LESSEQUAL);
        r.push(BOOL_NEGATE);
        r
    }

    fn apply_op(&self, id: OpId, data: &mut Funcdata) -> (changes: usize)
        ensures
            changes == (if collapse_value(&*old(data), id) is Some && old(data).vns().len() < u32::MAX {
                1usize
            } else {
                0
            }),
            changes == 0 ==> *final(data) == *old(data),
            changes == 1 ==> {
                let c = VarnodeId(old(data).vns().len() as u32);
                &&& final(data).vns().len() == old(data).vns().len() + 1
                &&& final(data).vn(c).flags.constant
                &&& final(data).vn(c).offset == collapse_value(&*old(data), id).unwrap()
                &&& final(data).vn(c).size == old(data).vn(old(data).opn(id).output.unwrap()).size
                &&& final(data).opn(id).opcode == COPY
                &&& final(data).opn(id).inputs@ == seq![c]
                &&& final(data).opn(id).output == old(data).opn(id).output
                &&& final(data).opv().len() == old(data).opv().len()
                &&& forall|o: OpId| #![trigger final(data).opn(o)] final(data).valid_op(o) && o != id ==> final(data).opn(o) == old(data).opn(o)
            },
    {
        let ghost pre = *data;
        let operation = data.op(id);
        proof {
            assert(data.op_wf(id));
        }
        let Some(output) = operation.output else {
            return 0;
        };
        let count = operation.inputs.len();
        if count == 0 {
            return 0;
        }
        let mut k: usize = 0;
        while k < count
            invariant
                k <= count,
                count == operation.inputs@.len(),
                *operation == pre.opn(id),
                data.op_wf(id),
                *data == pre,
                pre.wf(),
                forall|j: int| 0 <= j < k ==> #[trigger] data.vn(operation.inputs@[j]).flags.constant,
            decreases count - k,
        {
            if !data.varnode(operation.inputs[k]).flags.constant {
                return 0;
            }
            k += 1;
        }
        let width = data.varnode(output).size;
        let mask = width_mask_exec(width);
        let left = data.varnode(operation.inputs[0]).offset;
        let right = if count > 1 { data.varnode(operation.inputs[1]).offset } else { 0 };
        let opcode = operation.opcode;
        let folded = if opcode == INT_ADD {
            left.wrapping_add(right)
        } else if opcode == INT_SUB {
            left.wrapping_sub(right)
        } else if opcode == INT_MULT {
            left.wrapping_mul(right)
        } else if opcode == INT_AND {
            left & right
        } else if opcode == INT_OR {
            left | right
        } else if opcode == INT_XOR {
            left ^ right
        } else if opcode == INT_LEFT {
            if right < 64 { left << right } else { 0 }
        } else if opcode == INT_RIGHT {
            if right < 64 { left >> right } else { 0 }
        } else if opcode == INT_NEGATE {
            !left
        } else if opcode == INT_2COMP {
            0u64.wrapping_sub(left)
        } else if opcode == INT_EQUAL {
            if left == right { 1 } else { 0 }
        } else if opcode == INT_NOTEQUAL {
            if left != right { 1 } else { 0 }
        } else if opcode == INT_LESS {
            if left < right { 1 } else { 0 }
        } else if opcode == INT_LESSEQUAL {
            if left <= right { 1 } else { 0 }
        } else if opcode == BOOL_NEGATE {
            if left == 0 { 1 } else { 0 }
        } else {
            return 0;
        };
        if data.varnode_count() >= 0xFFFF_FFFF {
            return 0;
        }
        let constant = data.new_constant(folded & mask, width);
        let ghost mid = *data;
        data.op_set_opcode(id, COPY);
        let ghost mid2 = *data;
        let mut inputs: Vec<VarnodeId> = Vec::new();
        inputs.push(constant);
        proof {
            assert(inputs@ == seq![constant]);
            assert(crate::graph::vns_below(inputs@, data.vns().len() as int)) by {
                assert forall|j: int| 0 <= j < inputs@.len() implies (#[trigger] inputs@[j]).0 < data.vns().len() by {}
            }
        }
        data.op_set_inputs(id, inputs);
        proof {
            let post = *data;
            assert forall|o: OpId| #![trigger post.opn(o)] post.valid_op(o) && o != id implies post.opn(o) == pre.opn(o) by {
                assert(post.opn(o) == mid2.opn(o));
                assert(mid2.opv()[o.0 as int] == mid.opv()[o.0 as int]);
            }
            assert(post.vn(constant).flags == mid.vn(constant).flags);
        }
        1
    }
}

/// The operand `RuleTrivialArith` reduces an operation to, when an algebraic
/// identity makes the operation a copy of one operand.
pub open spec fn trivial_source(d: &Funcdata, id: OpId) -> Option<VarnodeId> {
    let op = d.opn(id);
    if op.output is None || op.inputs@.len() != 2 {
        None
    } else {
        let left = op.inputs@[0];
        let right = op.inputs@[1];
        let l = d.vn(left);
        let r = d.vn(right);
        let right_zero = r.flags.constant && r.offset == 0;
        let right_one = r.flags.constant && r.offset == 1;
        let left_zero = l.flags.constant && l.offset == 0;
        let left_one = l.flags.constant && l.offset == 1;
        let opcode = op.opcode;
        if (opcode == INT_ADD || opcode == INT_OR || opcode == INT_XOR) && left_zero {
            Some(right)
        } else if opcode == INT_MULT && left_one {
            Some(right)
        } else if opcode == INT_XOR && left == right {
            None
        } else if ((opcode == INT_ADD || opcode == INT_SUB || opcode == INT_LEFT || opcode == INT_RIGHT) && right_zero)
            || (opcode == INT_MULT && right_one) || (opcode == INT_OR && (right_zero || left == right)) || (opcode
            == INT_AND && left == right) || (opcode == INT_XOR && right_zero) {
            Some(left)
        } else {
            None
        }
    }
}

/// `RuleTrivialArith` turns a value exclusive-ored with itself into zero.
pub open spec fn trivial_zero(d: &Funcdata, id: OpId) -> bool {
    let op = d.opn(id);
    &&& op.output is Some
    &&& op.inputs@.len() == 2
    &&& op.opcode == INT_XOR
    &&& op.inputs@[0] == op.inputs@[1]
    &&& !(d.vn(op.inputs@[0]).flags.constant && d.vn(op.inputs@[0]).offset == 0)
}

/// Identities that make an operation its own operand.
pub struct RuleTrivialArith;

impl Rule for RuleTrivialArith {
    open spec fn title(&self) -> Seq<char> {
        "trivial-arith"@
    }

    fn name(&self) -> (r: &'static str) {
        "trivial-arith"
    }

    open spec fn reports(&self, op: OpId, pre: Funcdata, post: Funcdata, changes: usize) -> bool {
        changes == (if trivial_source(&pre, op) is Some || (trivial_zero(&pre, op) && pre.vns().len() < u32::MAX) {
            1usize
        } else {
            0
        })
    }

    open spec fn opcodes(&self) -> Seq<i32> {
        seq![INT_ADD, INT_SUB, INT_MULT, INT_AND, INT_OR, INT_XOR, INT_LEFT, INT_RIGHT]
    }

    fn op_list(&self) -> (r: Vec<i32>)
        ensures
            r@ == seq![INT_ADD, INT_SUB, INT_MULT, INT_AND, INT_OR, INT_XOR, INT_LEFT, INT_RIGHT],
    {
        let mut r = Vec::new();
        r.push(INT_ADD);
        r.push(INT_SUB);
        r.push(INT_MULT);
        r.push(INT_AND);
        r.push(INT_OR);
        r.push(INT_XOR);
        r.push(INT_LEFT);
        r.push(INT_RIGHT);
        r
    }

    fn apply_op(&self, id: OpId, data: &mut Funcdata) -> (changes: usize)
        ensures
            changes == (if trivial_source(&*old(data), id) is Some || (trivial_zero(&*old(data), id)
                && old(data).vns().len() < u32::MAX) {
                1usize
            } else {
                0
            }),
            changes == 0 ==> *final(data) == *old(data),
            changes == 1 ==> {
                &&& final(data).opn(id).opcode == COPY
                &&& final(data).opn(id).output == old(data).opn(id).output
                &&& final(data).opv().len() == old(data).opv().len()
                &&& forall|o: OpId| #![trigger final(data).opn(o)] final(data).valid_op(o) && o != id ==> final(data).opn(o) == old(data).opn(o)
            },
            trivial_source(&*old(data), id) matches Some(s) ==> final(data).opn(id).inputs@ == seq![s],
            trivial_zero(&*old(data), id) && old(data).vns().len() < u32::MAX ==> {
                let c = VarnodeId(old(data).vns().len() as u32);
                &&& final(data).opn(id).inputs@ == seq![c]
                &&& final(data).vn(c).flags.constant
                &&& final(data).vn(c).offset == 0
                &&& final(data).vn(c).size == old(data).vn(old(data).opn(id).inputs@[0]).size
            },
    {
        let ghost pre = *data;
        let operation = data.op(id);
        proof {
            assert(data.op_wf(id));
        }
        if operation.output.is_none() || operation.inputs.len() != 2 {
            return 0;
        }
        let left = operation.inputs[0];
        let right = operation.inputs[1];
        let opcode = operation.opcode;
        let right_value = data.varnode(right);
        let left_value = data.varnode(left);
        let right_zero = right_value.flags.constant && right_value.offset == 0;
        let right_one = right_value.flags.constant && right_value.offset == 1;
        let left_zero = left_value.flags.constant && left_value.offset == 0;
        let left_one = left_value.flags.constant && left_value.offset == 1;
        let mut source: Option<VarnodeId> = None;
        if (opcode == INT_ADD || opcode == INT_OR || opcode == INT_XOR) && left_zero {
            source = Some(right);
        } else if opcode == INT_MULT && left_one {
            source = Some(right);
        } else {
            let identity = if opcode == INT_ADD || opcode == INT_SUB || opcode == INT_LEFT || opcode == INT_RIGHT {
                right_zero
            } else if opcode == INT_MULT {
                right_one
            } else if opcode == INT_OR {
                right_zero || left == right
            } else if opcode == INT_AND {
                left == right
            } else if opcode == INT_XOR {
                right_zero
            } else {
                false
            };
            if opcode == INT_XOR && left == right {
                if data.varnode_count() >= 0xFFFF_FFFF {
                    return 0;
                }
                let width = data.varnode(left).size;
                let zero = data.new_constant(0, width);
                let ghost mid = *data;
                data.op_set_opcode(id, COPY);
                let ghost mid2 = *data;
                let mut inputs: Vec<VarnodeId> = Vec::new();
                inputs.push(zero);
                proof {
                    assert(inputs@ == seq![zero]);
                    assert(crate::graph::vns_below(inputs@, data.vns().len() as int)) by {
                        assert forall|j: int| 0 <= j < inputs@.len() implies (#[trigger] inputs@[j]).0 < data.vns().len() by {}
                    }
                }
                data.op_set_inputs(id, inputs);
                proof {
                    let post = *data;
                    assert forall|o: OpId| #![trigger post.opn(o)] post.valid_op(o) && o != id implies post.opn(o) == pre.opn(o) by {
                        assert(post.opn(o) == mid2.opn(o));
                        assert(mid2.opv()[o.0 as int] == mid.opv()[o.0 as int]);
                    }
                    assert(post.vn(zero).flags == mid.vn(zero).flags);
                }
                return 1;
            }
            if identity {
                source = Some(left);
            }
        }
        let Some(value) = source else {
            return 0;
        };
        data.op_set_opcode(id, COPY);
        let ghost mid = *data;
        let mut inputs: Vec<VarnodeId> = Vec::new();
        inputs.push(value);
        proof {
            assert(inputs@ == seq![value]);
            assert(crate::graph::vns_below(inputs@, data.vns().len() as int)) by {
                assert forall|j: int| 0 <= j < inputs@.len() implies (#[trigger] inputs@[j]).0 < data.vns().len() by {
                    assert(pre.opn(id).inputs@[0].0 < pre.vns().len());
                    assert(pre.opn(id).inputs@[1].0 < pre.vns().len());
                }
            }
        }
        data.op_set_inputs(id, inputs);
        proof {
            let post = *data;
            assert forall|o: OpId| #![trigger post.opn(o)] post.valid_op(o) && o != id implies post.opn(o) == pre.opn(o) by {
                assert(post.opn(o) == mid.opn(o));
            }
        }
        1
    }
}

} // verus!
