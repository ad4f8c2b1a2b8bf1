//! Topological live ranges used when deciding whether two values may share
//! one variable.
//!
//! A range endpoint is an operation index inside a block. `None` stands for
//! the beginning or the end of the block. Intersections tell a shared
//! transfer boundary apart from an interval overlap: a `COPY` may end one
//! value and begin another at the same operation without forcing two
//! variables.

use vstd::prelude::*;

use crate::graph::{Funcdata, GraphBlock, GraphBlockId, OpId, VarnodeId, copy_block_ids, copy_op_ids, copy_vn_ids,
    first_index_or, lemma_first_index, live_blocks, position_of_op};
use crate::pcode::MULTIEQUAL;

verus! {

/// The covered part of one basic block.
///
/// `begin == None` denotes the block's first program point and `end == None`
/// its last. `covered` is kept apart because the pair of boundary markers is
/// also the representation of an entirely covered block. When `begin` comes
/// after `end` the range wraps around the block boundary.
#[derive(Clone, Copy, Debug, PartialEq, Eq, Structural)]
pub struct CoverBlock {
    begin: Option<usize>,
    end: Option<usize>,
    covered: bool,
}

impl CoverBlock {
    /// An empty range has no endpoints.
    #[verifier::type_invariant]
    closed spec fn endpoints_only_when_covered(self) -> bool {
        !self.covered ==> self.begin is None && self.end is None
    }

    pub closed spec fn spec_begin(&self) -> Option<usize> {
        self.begin
    }

    pub closed spec fn spec_end(&self) -> Option<usize> {
        self.end
    }

    pub closed spec fn spec_covered(&self) -> bool {
        self.covered
    }

    /// The first covered index, with the block start read as zero.
    pub open spec fn lo(&self) -> int {
        match self.spec_begin() {
            Some(b) => b as int,
            None => 0,
        }
    }

    /// The last covered index, with the block end read as the largest index.
    pub open spec fn hi(&self) -> int {
        match self.spec_end() {
            Some(e) => e as int,
            None => usize::MAX as int,
        }
    }

    /// Whether the range wraps around the block boundary.
    pub open spec fn wraps(&self) -> bool {
        self.lo() > self.hi()
    }

    /// Whether operation index `i` lies in the range, endpoints included.
    pub open spec fn covers(&self, i: int) -> bool {
        &&& self.spec_covered()
        &&& if !self.wraps() {
            self.lo() <= i <= self.hi()
        } else {
            i >= self.lo() || i <= self.hi()
        }
    }

    /// Construct an uncovered block.
    pub fn new() -> (r: Self)
        ensures
            !r.spec_covered(),
            r.spec_begin() is None,
            r.spec_end() is None,
    {
        CoverBlock { begin: None, end: None, covered: false }
    }

    /// Whether this block has no live program point.
    pub fn is_empty(&self) -> (r: bool)
        ensures
            r == !self.spec_covered(),
            r == (forall|i: int| 0 <= i <= usize::MAX ==> !#[trigger] self.covers(i)),
    {
        proof {
            if self.spec_covered() {
                assert(self.covers(self.hi()));
            }
        }
        !self.covered
    }

    /// Set the beginning endpoint, retaining the existing tail endpoint.
    ///
    /// An empty block becomes a range reaching the block end; a caller that
    /// needs a single point sets the end right after.
    pub fn set_begin(&mut self, begin: usize)
        ensures
            final(self).spec_covered(),
            final(self).spec_begin() == Some(begin),
            final(self).spec_end() == (if old(self).spec_covered() {
                old(self).spec_end()
            } else {
                None
            }),
    {
        if !self.covered {
            self.covered = true;
            self.end = None;
        }
        self.begin = Some(begin);
    }

    /// Set the ending endpoint, retaining the existing beginning endpoint.
    pub fn set_end(&mut self, end: usize)
        ensures
            final(self).spec_covered(),
            final(self).spec_end() == Some(end),
            final(self).spec_begin() == (if old(self).spec_covered() {
                old(self).spec_begin()
            } else {
                None
            }),
    {
        if !self.covered {
            self.covered = true;
            self.begin = None;
        }
        self.end = Some(end);
    }

    /// Mark every point in the block as covered.
    pub fn set_all(&mut self)
        ensures
            final(self).spec_covered(),
            final(self).spec_begin() is None,
            final(self).spec_end() is None,
            forall|i: int| 0 <= i <= usize::MAX ==> #[trigger] final(self).covers(i),
    {
        self.covered = true;
        self.begin = None;
        self.end = None;
    }

    /// Remove all coverage from this block.
    pub fn clear(&mut self)
        ensures
            !final(self).spec_covered(),
            final(self).spec_begin() is None,
            final(self).spec_end() is None,
    {
        *self = CoverBlock { begin: None, end: None, covered: false };
    }

    /// Beginning endpoint, or `None` for the block beginning.
    pub fn begin(&self) -> (r: Option<usize>)
        ensures
            r == self.spec_begin(),
    {
        self.begin
    }

    /// Ending endpoint, or `None` for the block end.
    pub fn end(&self) -> (r: Option<usize>)
        ensures
            r == self.spec_end(),
    {
        self.end
    }

    fn begin_value(&self) -> (r: usize)
        ensures
            r == self.lo(),
    {
        match self.begin {
            Some(b) => b,
            None => 0,
        }
    }

    fn end_value(&self) -> (r: usize)
        ensures
            r == self.hi(),
    {
        match self.end {
            Some(e) => e,
            None => usize::MAX,
        }
    }

    /// Whether an operation index is inside this range, including endpoints.
    pub fn contains(&self, index: usize) -> (r: bool)
        ensures
            r == self.covers(index as int),
    {
        if !self.covered {
            return false;
        }
        let begin = self.begin_value();
        let end = self.end_value();
        if begin <= end {
            begin <= index && index <= end
        } else {
            index >= begin || index <= end
        }
    }

    /// Characterize intersection with another range: `0` for none, `1` when
    /// the two only touch at an endpoint, `2` when an interval of program
    /// points is shared. Merge decisions reject only the last.
    pub fn intersect(&self, other: &Self) -> (r: u8)
        ensures
            r == intersection_kind(*self, *other),
    {
        if !self.covered || !other.covered {
            return 0;
        }
        let start = self.begin_value();
        let stop = self.end_value();
        let other_start = other.begin_value();
        let other_stop = other.end_value();
        if start <= stop {
            if other_start <= other_stop {
                if stop <= other_start || other_stop <= start {
                    if start == other_stop || stop == other_start {
                        return 1;
                    }
                    return 0;
                }
            } else if start >= other_stop && stop <= other_start {
                if start == other_stop || stop == other_start {
                    return 1;
                }
                return 0;
            }
        } else if other_start <= other_stop {
            if other_start >= stop && other_stop <= start {
                if other_start == stop || other_stop == start {
                    return 1;
                }
                return 0;
            }
        }
        2
    }

    /// Merge another range into this one, filling the interval between them:
    /// a value's cover is a control-flow scope, not only the set of its
    /// direct uses.
    pub fn merge(&mut self, other: &Self)
        ensures
            *final(self) == merged(*old(self), *other),
            !old(self).spec_covered() ==> *final(self) == *other,
            !other.spec_covered() ==> *final(self) == *old(self),
    {
        proof {
            use_type_invariant(&*self);
            use_type_invariant(other);
        }
        if !other.covered {
            return;
        }
        if !self.covered {
            *self = *other;
            return;
        }
        let start = self.begin_value();
        let other_start = other.begin_value();
        let other_contains_start = (start == 0 && other.end.is_none()) || other.contains(start);
        let this_contains_other_start = (other_start == 0 && self.end.is_none()) || self.contains(other_start);
        let other_covers_beginning = other_start == 0 && self.end.is_none();
        let self_covers_beginning = start == 0 && other.end.is_none();
        if other_contains_start && this_contains_other_start {
            if start != other_start || self_covers_beginning || other_covers_beginning {
                self.set_all();
                return;
            }
        }
        if other_contains_start {
            self.begin = other.begin;
        } else if !this_contains_other_start {
            if start < other_start {
                self.end = other.end;
            } else {
                self.begin = other.begin;
            }
            self.covered = true;
            return;
        }
        let end_value = self.end_value();
        if other_covers_beginning || other.contains(end_value) {
            self.end = other.end;
        }
        self.covered = true;
    }
}

/// The intersection classification of two ranges.
pub open spec fn intersection_kind(a: CoverBlock, b: CoverBlock) -> u8 {
    let touch = a.lo() == b.hi() || a.hi() == b.lo();
    if !a.spec_covered() || !b.spec_covered() {
        0
    } else if a.wraps() && b.wraps() {
        2
    } else if !a.wraps() && !b.wraps() {
        // Two linear pieces: apart, touching, or overlapping.
        if a.hi() <= b.lo() || b.hi() <= a.lo() {
            if touch { 1 } else { 0 }
        } else {
            2
        }
    } else if !a.wraps() {
        // `b` wraps: `a` must fit in the gap between `b`'s two pieces.
        if a.lo() >= b.hi() && a.hi() <= b.lo() {
            if touch { 1 } else { 0 }
        } else {
            2
        }
    } else {
        if b.lo() >= a.hi() && b.hi() <= a.lo() {
            if touch { 1 } else { 0 }
        } else {
            2
        }
    }
}

impl CoverBlock {
    /// The range with exactly these fields.
    pub closed spec fn from_fields(begin: Option<usize>, end: Option<usize>, covered: bool) -> CoverBlock {
        CoverBlock { begin, end, covered }
    }

    pub proof fn lemma_from_fields(begin: Option<usize>, end: Option<usize>, covered: bool)
        ensures
            CoverBlock::from_fields(begin, end, covered).spec_begin() == begin,
            CoverBlock::from_fields(begin, end, covered).spec_end() == end,
            CoverBlock::from_fields(begin, end, covered).spec_covered() == covered,
            forall|r: CoverBlock|
                r.spec_begin() == begin && r.spec_end() == end && r.spec_covered() == covered ==> r
                    == CoverBlock::from_fields(begin, end, covered),
    {
    }
}

/// The result of merging `b` into `a`.
pub open spec fn merged(a: CoverBlock, b: CoverBlock) -> CoverBlock {
    let start = a.lo();
    let other_start = b.lo();
    let other_contains_start = (start == 0 && b.spec_end() is None) || b.covers(start);
    let this_contains_other_start = (other_start == 0 && a.spec_end() is None) || a.covers(other_start);
    let other_covers_beginning = other_start == 0 && a.spec_end() is None;
    let self_covers_beginning = start == 0 && b.spec_end() is None;
    if !b.spec_covered() {
        a
    } else if !a.spec_covered() {
        b
    } else if other_contains_start && this_contains_other_start && (start != other_start || self_covers_beginning
        || other_covers_beginning) {
        CoverBlock::from_fields(None, None, true)
    } else if !other_contains_start && !this_contains_other_start {
        if start < other_start {
            CoverBlock::from_fields(a.spec_begin(), b.spec_end(), true)
        } else {
            CoverBlock::from_fields(b.spec_begin(), a.spec_end(), true)
        }
    } else {
        let begin = if other_contains_start { b.spec_begin() } else { a.spec_begin() };
        let end = if other_covers_beginning || b.covers(a.hi()) { b.spec_end() } else { a.spec_end() };
        CoverBlock::from_fields(begin, end, true)
    }
}

/// Intersection is symmetric.
pub proof fn lemma_intersection_symmetric(a: CoverBlock, b: CoverBlock)
    ensures
        intersection_kind(a, b) == intersection_kind(b, a),
{
}

impl CoverBlock {
    /// Whether the range covers the whole stretch between operation indices
    /// `i` and `i + 1`, not just one of its ends.
    pub open spec fn spans(&self, i: int) -> bool {
        &&& self.spec_covered()
        &&& if !self.wraps() {
            self.lo() <= i && i + 1 <= self.hi()
        } else {
            i >= self.lo() || i + 1 <= self.hi()
        }
    }
}

/// What the classification means: two ranges that both span the stretch
/// from `i` to `i + 1` cross (kind 2), and ranges classed as apart (kind 0)
/// cover no index in common. Kinds run from 0 to 2.
pub proof fn lemma_intersection_meaning(a: CoverBlock, b: CoverBlock, i: int, j: int)
    ensures
        a.spans(i) && b.spans(i) ==> intersection_kind(a, b) == 2,
        intersection_kind(a, b) == 0 ==> !(a.covers(j) && b.covers(j)),
        intersection_kind(a, b) <= 2,
{
}

/// Two covers whose ranges in one block both span the stretch from `i` to
/// `i + 1` intersect, in the sense `Cover::intersects` reports.
pub proof fn lemma_shared_stretch_intersects(x: &Cover, y: &Cover, b: GraphBlockId, i: int)
    requires
        x@.contains_key(b),
        y@.contains_key(b),
        x@[b].spans(i),
        y@[b].spans(i),
    ensures
        exists|c: GraphBlockId|
            #![trigger x@[c], y@[c]]
            x@.contains_key(c) && y@.contains_key(c) && intersection_kind(x@[c], y@[c]) >= 2,
{
    lemma_intersection_meaning(x@[b], y@[b], i, i);
}

/// An empty range intersects nothing.
pub proof fn lemma_empty_intersects_nothing(a: CoverBlock, b: CoverBlock)
    requires
        !a.spec_covered(),
    ensures
        intersection_kind(a, b) == 0,
        intersection_kind(b, a) == 0,
{
}

/// Merging keeps every point that either range covered.
pub proof fn lemma_merge_covers_both(a: CoverBlock, b: CoverBlock, i: int)
    requires
        0 <= i <= usize::MAX,
        a.covers(i) || b.covers(i),
    ensures
        merged(a, b).covers(i),
{
    CoverBlock::lemma_from_fields(None, None, true);
    CoverBlock::lemma_from_fields(a.spec_begin(), b.spec_end(), true);
    CoverBlock::lemma_from_fields(b.spec_begin(), a.spec_end(), true);
    CoverBlock::lemma_from_fields(b.spec_begin(), b.spec_end(), true);
    CoverBlock::lemma_from_fields(a.spec_begin(), a.spec_end(), true);
}

/// Whether the keys of `s` are pairwise distinct.
pub open spec fn distinct_keys(s: Seq<(GraphBlockId, CoverBlock)>) -> bool {
    forall|i: int, j: int| 0 <= i < s.len() && 0 <= j < s.len() && i != j ==> #[trigger] s[i].0 != #[trigger] s[j].0
}

/// The map that a list of entries with distinct keys stands for.
pub open spec fn entries_map(s: Seq<(GraphBlockId, CoverBlock)>) -> Map<GraphBlockId, CoverBlock> {
    Map::new(
        |k: GraphBlockId| exists|i: int| 0 <= i < s.len() && #[trigger] s[i].0 == k,
        |k: GraphBlockId| s[choose|i: int| 0 <= i < s.len() && #[trigger] s[i].0 == k].1,
    )
}

/// Looking up the key of an entry gives that entry's range.
pub proof fn lemma_entries_lookup(s: Seq<(GraphBlockId, CoverBlock)>, i: int)
    requires
        distinct_keys(s),
        0 <= i < s.len(),
    ensures
        entries_map(s).contains_key(s[i].0),
        entries_map(s)[s[i].0] == s[i].1,
{
    let k = s[i].0;
    assert(exists|j: int| 0 <= j < s.len() && #[trigger] s[j].0 == k);
    let j = choose|j: int| 0 <= j < s.len() && #[trigger] s[j].0 == k;
    assert(j == i);
}

/// The topological scope of one SSA value: a range for each block it is
/// live in.
#[derive(Debug)]
pub struct Cover {
    blocks: Vec<(GraphBlockId, CoverBlock)>,
}

impl View for Cover {
    type V = Map<GraphBlockId, CoverBlock>;

    closed spec fn view(&self) -> Map<GraphBlockId, CoverBlock> {
        entries_map(self.blocks@)
    }
}

impl Cover {
    #[verifier::type_invariant]
    closed spec fn inv(self) -> bool {
        distinct_keys(self.blocks@)
    }

    /// A cover with no live block.
    pub fn new() -> (r: Self)
        ensures
            r@ == Map::<GraphBlockId, CoverBlock>::empty(),
    {
        let r = Cover { blocks: Vec::new() };
        proof {
            assert(r@ =~= Map::<GraphBlockId, CoverBlock>::empty());
        }
        r
    }

    /// Position of `block` among the entries.
    fn position(&self, block: GraphBlockId) -> (r: Option<usize>)
        ensures
            match r {
                Some(i) => i < self.blocks@.len() && self.blocks@[i as int].0 == block,
                None => forall|i: int| 0 <= i < self.blocks@.len() ==> #[trigger] self.blocks@[i].0 != block,
            },
    {
        let mut i: usize = 0;
        while i < self.blocks.len()
            invariant
                i <= self.blocks@.len(),
                forall|k: int| 0 <= k < i ==> #[trigger] self.blocks@[k].0 != block,
            decreases self.blocks@.len() - i,
        {
            if self.blocks[i].0 == block {
                return Some(i);
            }
            i += 1;
        }
        None
    }

    /// Set the range of one block, replacing what it had.
    pub fn set_block(&mut self, block: GraphBlockId, range: CoverBlock)
        ensures
            final(self)@ == old(self)@.insert(block, range),
    {
        proof {
            use_type_invariant(&*self);
        }
        let ghost before = self.blocks@;
        match self.position(block) {
            Some(i) => {
                let mut blocks: Vec<(GraphBlockId, CoverBlock)> = Vec::new();
                std::mem::swap(&mut blocks, &mut self.blocks);
                blocks.set(i, (block, range));
                proof {
                    assert(distinct_keys(blocks@));
                }
                self.blocks = blocks;
                proof {
                    assert forall|k: GraphBlockId| #[trigger] self@.contains_key(k) <==> old(self)@.insert(block, range).contains_key(k) by {
                        if old(self)@.contains_key(k) {
                            let j = choose|j: int| 0 <= j < before.len() && #[trigger] before[j].0 == k;
                            assert(self.blocks@[j].0 == k);
                        }
                        if self@.contains_key(k) {
                            let j = choose|j: int| 0 <= j < self.blocks@.len() && #[trigger] self.blocks@[j].0 == k;
                            if k != block {
                                assert(before[j].0 == k);
                            }
                        }
                    }
                    assert forall|k: GraphBlockId| #[trigger] self@.contains_key(k) implies self@[k] == old(self)@.insert(block, range)[k] by {
                        let j = choose|j: int| 0 <= j < self.blocks@.len() && #[trigger] self.blocks@[j].0 == k;
                        lemma_entries_lookup(self.blocks@, j);
                        if k != block {
                            assert(before[j].0 == k);
                            lemma_entries_lookup(before, j);
                        } else {
                            assert(j == i);
                        }
                    }
                    assert(self@ =~= old(self)@.insert(block, range));
                }
            },
            None => {
                let mut blocks: Vec<(GraphBlockId, CoverBlock)> = Vec::new();
                std::mem::swap(&mut blocks, &mut self.blocks);
                blocks.push((block, range));
                proof {
                    assert(distinct_keys(blocks@));
                }
                self.blocks = blocks;
                proof {
                    let n = before.len() as int;
                    assert forall|k: GraphBlockId| #[trigger] self@.contains_key(k) <==> old(self)@.insert(block, range).contains_key(k) by {
                        if old(self)@.contains_key(k) {
                            let j = choose|j: int| 0 <= j < before.len() && #[trigger] before[j].0 == k;
                            assert(self.blocks@[j].0 == k);
                        }
                        if k == block {
                            assert(self.blocks@[n].0 == k);
                        }
                        if self@.contains_key(k) && k != block {
                            let j = choose|j: int| 0 <= j < self.blocks@.len() && #[trigger] self.blocks@[j].0 == k;
                            assert(before[j].0 == k);
                        }
                    }
                    assert forall|k: GraphBlockId| #[trigger] self@.contains_key(k) implies self@[k] == old(self)@.insert(block, range)[k] by {
                        let j = choose|j: int| 0 <= j < self.blocks@.len() && #[trigger] self.blocks@[j].0 == k;
                        lemma_entries_lookup(self.blocks@, j);
                        if k != block {
                            assert(before[j].0 == k);
                            lemma_entries_lookup(before, j);
                        }
                    }
                    assert(self@ =~= old(self)@.insert(block, range));
                }
            },
        }
    }

    /// Whether the two covers overlap over an interval of operations in some
    /// block. A shared endpoint is only a transfer boundary: it lets a value
    /// die at a `COPY` whose result starts there.
    pub fn intersects(&self, other: &Self) -> (r: bool)
        ensures
            r == exists|b: GraphBlockId|
                #![trigger self@[b], other@[b]]
                self@.contains_key(b) && other@.contains_key(b) && intersection_kind(self@[b], other@[b]) >= 2,
    {
        proof {
            use_type_invariant(self);
            use_type_invariant(other);
        }
        let mut i: usize = 0;
        while i < self.blocks.len()
            invariant
                i <= self.blocks@.len(),
                distinct_keys(self.blocks@),
                distinct_keys(other.blocks@),
                forall|k: int|
                    0 <= k < i ==> {
                        let b = #[trigger] self.blocks@[k].0;
                        !(other@.contains_key(b) && intersection_kind(self@[b], other@[b]) >= 2)
                    },
            decreases self.blocks@.len() - i,
        {
            let (block, left) = self.blocks[i];
            proof {
                lemma_entries_lookup(self.blocks@, i as int);
            }
            match other.position(block) {
                Some(j) => {
                    let right = other.blocks[j].1;
                    proof {
                        lemma_entries_lookup(other.blocks@, j as int);
                    }
                    if left.intersect(&right) >= 2 {
                        return true;
                    }
                },
                None => {
                    proof {
                        if other@.contains_key(block) {
                            let j = choose|j: int| 0 <= j < other.blocks@.len() && #[trigger] other.blocks@[j].0 == block;
                            assert(other.blocks@[j].0 != block);
                        }
                    }
                },
            }
            i += 1;
        }
        proof {
            assert forall|b: GraphBlockId|
                #![trigger self@[b], other@[b]]
                self@.contains_key(b) && other@.contains_key(b) implies intersection_kind(self@[b], other@[b]) < 2 by {
                let k = choose|k: int| 0 <= k < self.blocks@.len() && #[trigger] self.blocks@[k].0 == b;
                assert(self.blocks@[k].0 == b);
            }
        }
        false
    }

    /// Whether a block operation index belongs to this cover.
    pub fn contains(&self, block: GraphBlockId, index: usize) -> (r: bool)
        ensures
            r == (self@.contains_key(block) && self@[block].covers(index as int)),
    {
        proof {
            use_type_invariant(self);
        }
        match self.position(block) {
            Some(i) => {
                proof {
                    lemma_entries_lookup(self.blocks@, i as int);
                }
                self.blocks[i].1.contains(index)
            },
            None => {
                proof {
                    if self@.contains_key(block) {
                        let j = choose|j: int| 0 <= j < self.blocks@.len() && #[trigger] self.blocks@[j].0 == block;
                        assert(self.blocks@[j].0 != block);
                    }
                }
                false
            },
        }
    }

    /// The range of one block, when the cover reaches it.
    pub fn block(&self, block: GraphBlockId) -> (r: Option<&CoverBlock>)
        ensures
            match r {
                Some(range) => self@.contains_key(block) && *range == self@[block],
                None => !self@.contains_key(block),
            },
    {
        proof {
            use_type_invariant(self);
        }
        match self.position(block) {
            Some(i) => {
                proof {
                    lemma_entries_lookup(self.blocks@, i as int);
                }
                Some(&self.blocks[i].1)
            },
            None => {
                proof {
                    if self@.contains_key(block) {
                        let j = choose|j: int| 0 <= j < self.blocks@.len() && #[trigger] self.blocks@[j].0 == block;
                        assert(self.blocks@[j].0 != block);
                    }
                }
                None
            },
        }
    }
}

/// Every range of `a` is kept in `b`, possibly grown.
pub open spec fn grows(a: Map<GraphBlockId, CoverBlock>, b: Map<GraphBlockId, CoverBlock>) -> bool {
    forall|k: GraphBlockId|
        #![trigger a.contains_key(k)]
        a.contains_key(k) ==> b.contains_key(k) && forall|i: int| #![trigger b[k].covers(i)] a[k].covers(i) ==> b[k].covers(i)
}

proof fn lemma_grows_trans(a: Map<GraphBlockId, CoverBlock>, b: Map<GraphBlockId, CoverBlock>, c: Map<GraphBlockId, CoverBlock>)
    requires
        grows(a, b),
        grows(b, c),
    ensures
        grows(a, c),
{
    assert forall|k: GraphBlockId| #![trigger a.contains_key(k)] a.contains_key(k) implies c.contains_key(k) && forall|i: int|
        #![trigger c[k].covers(i)]
        a[k].covers(i) ==> c[k].covers(i) by {
        assert(b.contains_key(k));
        assert forall|i: int| #![trigger c[k].covers(i)] a[k].covers(i) implies c[k].covers(i) by {
            assert(b[k].covers(i));
        }
    }
}

proof fn lemma_grows_refl(a: Map<GraphBlockId, CoverBlock>)
    ensures
        grows(a, a),
{
}

/// Replacing a range by one that covers at least as much keeps the cover
/// growing.
proof fn lemma_grows_insert(a: Map<GraphBlockId, CoverBlock>, k: GraphBlockId, c: CoverBlock)
    requires
        a.contains_key(k) ==> forall|i: int| #![trigger c.covers(i)] a[k].covers(i) ==> c.covers(i),
    ensures
        grows(a, a.insert(k, c)),
{
    assert forall|j: GraphBlockId| #![trigger a.contains_key(j)] a.contains_key(j) implies a.insert(k, c).contains_key(j)
        && forall|i: int| #![trigger a.insert(k, c)[j].covers(i)] a[j].covers(i) ==> a.insert(k, c)[j].covers(i) by {
        if j == k {
            assert forall|i: int| #![trigger a.insert(k, c)[j].covers(i)] a[j].covers(i) implies a.insert(k, c)[j].covers(i) by {
                assert(c.covers(i));
            }
        }
    }
}

impl CoverBlock {
    /// Moving the end of a covered range to an index it does not cover
    /// keeps every covered index and covers the new end.
    proof fn lemma_set_end_grows(self, post: CoverBlock, index: usize)
        requires
            self.spec_covered(),
            !self.covers(index as int),
            post.spec_covered(),
            post.spec_begin() == self.spec_begin(),
            post.spec_end() == Some(index),
        ensures
            forall|i: int| #![trigger post.covers(i)] self.covers(i) ==> post.covers(i),
            post.covers(index as int),
    {
    }

    /// Extending a range that does not wrap to the block end keeps every
    /// covered index.
    proof fn lemma_extend_grows(self, post: CoverBlock)
        requires
            self.spec_covered(),
            !self.wraps(),
            post.spec_covered(),
            post.spec_begin() == self.spec_begin(),
            post.spec_end() is None,
        ensures
            forall|i: int| #![trigger post.covers(i)] self.covers(i) ==> post.covers(i),
    {
    }
}

/// Dominator information over the blocks of a graph.
pub struct Dominance {
    /// The blocks reachable from the entry, in reverse postorder.
    pub reverse_postorder: Vec<GraphBlockId>,
    /// The immediate dominator of each block, indexed by block; `None` for
    /// the entry and for blocks it does not reach.
    pub immediate: Vec<Option<GraphBlockId>>,
}

/// The number of unmarked entries.
pub open spec fn unmarked(s: Seq<bool>) -> nat
    decreases s.len(),
{
    if s.len() == 0 {
        0
    } else {
        unmarked(s.drop_last()) + (if s.last() {
            0nat
        } else {
            1nat
        })
    }
}

pub(crate) proof fn lemma_unmarked_mark(s: Seq<bool>, i: int)
    requires
        0 <= i < s.len(),
        !s[i],
    ensures
        unmarked(s.update(i, true)) + 1 == unmarked(s),
    decreases s.len(),
{
    let t = s.update(i, true);
    if i == s.len() - 1 {
        assert(t.drop_last() =~= s.drop_last());
    } else {
        lemma_unmarked_mark(s.drop_last(), i);
        assert(t.drop_last() =~= s.drop_last().update(i, true));
    }
}

proof fn lemma_unmarked_bound(s: Seq<bool>)
    ensures
        unmarked(s) <= s.len(),
    decreases s.len(),
{
    if s.len() > 0 {
        lemma_unmarked_bound(s.drop_last());
    }
}

pub(crate) fn unmarked_flags(n: usize) -> (r: Vec<bool>)
    ensures
        r@.len() == n,
        forall|i: int| 0 <= i < n ==> !#[trigger] r@[i],
{
    let mut r: Vec<bool> = Vec::new();
    let mut i: usize = 0;
    while i < n
        invariant
            i <= n,
            r@.len() == i,
            forall|k: int| 0 <= k < i ==> !#[trigger] r@[k],
        decreases n - i,
    {
        r.push(false);
        i += 1;
    }
    r
}

/// One step up the dominator tree: the recorded immediate dominator of `b`,
/// when there is one other than `b` itself.
pub open spec fn idom_step(immediate: Seq<Option<GraphBlockId>>, b: GraphBlockId) -> Option<GraphBlockId> {
    if (b.0 as int) < immediate.len() {
        match immediate[b.0 as int] {
            Some(p) => if p == b {
                None
            } else {
                Some(p)
            },
            None => None,
        }
    } else {
        None
    }
}

/// The block `k` steps up the dominator tree from `b`, while the steps last.
pub open spec fn idom_walk(immediate: Seq<Option<GraphBlockId>>, b: GraphBlockId, k: nat) -> Option<GraphBlockId>
    decreases k,
{
    if k == 0 {
        Some(b)
    } else {
        match idom_step(immediate, b) {
            Some(p) => idom_walk(immediate, p, (k - 1) as nat),
            None => None,
        }
    }
}

/// `ancestor` is met walking up the dominator tree from `block`, or there is
/// no dominator information at all.
pub open spec fn dominated_by(dominance: &Dominance, ancestor: GraphBlockId, block: GraphBlockId) -> bool {
    dominance.immediate@.len() == 0 || exists|k: nat| #[trigger] idom_walk(dominance.immediate@, block, k) == Some(ancestor)
}

proof fn lemma_walk_add(imm: Seq<Option<GraphBlockId>>, b: GraphBlockId, a: nat, c: nat)
    ensures
        idom_walk(imm, b, a + c) == (match idom_walk(imm, b, a) {
            Some(x) => idom_walk(imm, x, c),
            None => None,
        }),
    decreases a,
{
    if a > 0 {
        match idom_step(imm, b) {
            Some(p) => {
                lemma_walk_add(imm, p, (a - 1) as nat, c);
                assert((a + c - 1) as nat == ((a - 1) as nat + c) as nat);
            },
            None => {},
        }
    }
}

/// Past a repetition, the walk only revisits blocks met before it, and past
/// its end it stays ended; so it never meets a block it did not meet in its
/// first `t + 1` steps.
proof fn lemma_walk_never(imm: Seq<Option<GraphBlockId>>, b: GraphBlockId, ancestor: GraphBlockId, t: nat, j: nat, k: nat)
    requires
        forall|m: nat| m <= t ==> #[trigger] idom_walk(imm, b, m) != Some(ancestor),
        j < t,
        idom_walk(imm, b, j) == idom_walk(imm, b, t),
    ensures
        idom_walk(imm, b, k) != Some(ancestor),
    decreases k,
{
    if k > t {
        let c = (k - t) as nat;
        lemma_walk_add(imm, b, t, c);
        lemma_walk_add(imm, b, j, c);
        lemma_walk_never(imm, b, ancestor, t, j, (j + c) as nat);
    }
}

proof fn lemma_walk_ended(imm: Seq<Option<GraphBlockId>>, b: GraphBlockId, ancestor: GraphBlockId, t: nat, k: nat)
    requires
        forall|m: nat| m <= t ==> #[trigger] idom_walk(imm, b, m) != Some(ancestor),
        idom_walk(imm, b, t) matches Some(x) && idom_step(imm, x) is None,
    ensures
        idom_walk(imm, b, k) != Some(ancestor),
{
    if k > t {
        let x = idom_walk(imm, b, t).unwrap();
        lemma_walk_add(imm, b, t, (k - t) as nat);
        assert(idom_walk(imm, x, (k - t) as nat) is None);
    }
}

/// Whether `ancestor` dominates `block`: walking immediate dominators up from
/// `block` reaches it. Without dominator information every block counts as
/// dominated.
fn dominates(dominance: &Dominance, ancestor: GraphBlockId, block: GraphBlockId) -> (r: bool)
    ensures
        r == dominated_by(dominance, ancestor, block),
        ancestor == block ==> r,
        dominance.immediate@.len() == 0 ==> r,
{
    let ghost imm = dominance.immediate@;
    if ancestor == block {
        assert(idom_walk(imm, block, 0) == Some(ancestor));
        return true;
    }
    let n = dominance.immediate.len();
    if n == 0 {
        return true;
    }
    let mut seen = unmarked_flags(n);
    let mut current = block;
    let ghost mut t: nat = 0;
    proof {
        lemma_unmarked_bound(seen@);
    }
    loop
        invariant
            ancestor != block,
            n > 0,
            n == dominance.immediate@.len(),
            imm == dominance.immediate@,
            seen@.len() == n,
            idom_walk(imm, block, t) == Some(current),
            forall|m: nat| m <= t ==> #[trigger] idom_walk(imm, block, m) != Some(ancestor),
            forall|i: int|
                0 <= i < n && #[trigger] seen@[i] ==> exists|j: nat|
                    j < t && #[trigger] idom_walk(imm, block, j) == Some(GraphBlockId(i as u32)),
        decreases unmarked(seen@),
    {
        let index = current.0 as usize;
        if index >= n || seen[index] {
            proof {
                if index >= n {
                    assert(idom_step(imm, current) is None);
                    assert forall|k: nat| #[trigger] idom_walk(imm, block, k) != Some(ancestor) by {
                        lemma_walk_ended(imm, block, ancestor, t, k);
                    }
                } else {
                    let j = choose|j: nat| j < t && #[trigger] idom_walk(imm, block, j) == Some(GraphBlockId(index as u32));
                    assert(GraphBlockId(index as u32) == current);
                    assert forall|k: nat| #[trigger] idom_walk(imm, block, k) != Some(ancestor) by {
                        lemma_walk_never(imm, block, ancestor, t, j, k);
                    }
                }
            }
            return false;
        }
        proof {
            lemma_unmarked_mark(seen@, index as int);
        }
        let ghost before = seen@;
        seen.set(index, true);
        let parent = match dominance.immediate[index] {
            Some(p) => p,
            None => {
                proof {
                    assert forall|k: nat| #[trigger] idom_walk(imm, block, k) != Some(ancestor) by {
                        lemma_walk_ended(imm, block, ancestor, t, k);
                    }
                }
                return false;
            },
        };
        if parent == current {
            proof {
                assert forall|k: nat| #[trigger] idom_walk(imm, block, k) != Some(ancestor) by {
                    lemma_walk_ended(imm, block, ancestor, t, k);
                }
            }
            return false;
        }
        proof {
            lemma_walk_add(imm, block, t, 1);
            assert(idom_walk(imm, parent, 0) == Some(parent));
            assert(idom_walk(imm, block, t + 1) == Some(parent));
        }
        if parent == ancestor {
            return true;
        }
        proof {
            assert forall|i: int|
                0 <= i < n && #[trigger] seen@[i] implies exists|j: nat|
                    j < t + 1 && #[trigger] idom_walk(imm, block, j) == Some(GraphBlockId(i as u32)) by {
                if i == index as int {
                    assert(GraphBlockId(i as u32) == current);
                    assert(idom_walk(imm, block, t) == Some(GraphBlockId(i as u32)));
                } else {
                    assert(before[i]);
                }
            }
            t = t + 1;
        }
        current = parent;
    }
}

/// A walk may enter block `b`: it is listed in the reverse postorder (when
/// there is one) and dominated by the definition's block (when there is
/// one).
pub open spec fn block_admitted(dominance: &Dominance, definition_block: Option<GraphBlockId>, b: GraphBlockId) -> bool {
    &&& (dominance.reverse_postorder@.len() == 0 || dominance.reverse_postorder@.contains(b))
    &&& (definition_block matches Some(owner) ==> dominated_by(dominance, owner, b))
}

/// A walk enters `b`: not yet visited, and admitted.
pub open spec fn walk_enters(
    dominance: &Dominance,
    definition_block: Option<GraphBlockId>,
    visited: Seq<bool>,
    b: GraphBlockId,
) -> bool {
    !visited[b.0 as int] && block_admitted(dominance, definition_block, b)
}

/// Where a walk leaves block `b` covered from: the start of its present
/// range, or its first operation when it is not covered.
pub open spec fn walk_floor(cover: Map<GraphBlockId, CoverBlock>, b: GraphBlockId) -> int {
    if cover.contains_key(b) && cover[b].spec_covered() {
        cover[b].lo()
    } else {
        0
    }
}

/// Block `b` is covered from `floor` to its end.
pub open spec fn covered_from(cover: Map<GraphBlockId, CoverBlock>, b: GraphBlockId, floor: int) -> bool {
    &&& cover.contains_key(b)
    &&& forall|i: int| floor <= i <= usize::MAX ==> #[trigger] cover[b].covers(i)
}

/// The blocks that are not marked afterwards keep their ranges.
pub open spec fn walk_frame(
    v0: Seq<bool>,
    v1: Seq<bool>,
    c0: Map<GraphBlockId, CoverBlock>,
    c1: Map<GraphBlockId, CoverBlock>,
) -> bool {
    forall|x: GraphBlockId|
        #![trigger c1.contains_key(x)]
        #![trigger c0.contains_key(x)]
        !(0 <= x.0 < v1.len() && v1[x.0 as int]) ==> c1.contains_key(x) == c0.contains_key(x) && (c0.contains_key(x)
            ==> c1[x] == c0[x])
}

/// Every admitted block that the walk marked is covered from where it
/// started to its end.
pub open spec fn walk_covered(
    dominance: &Dominance,
    definition_block: Option<GraphBlockId>,
    v0: Seq<bool>,
    v1: Seq<bool>,
    c0: Map<GraphBlockId, CoverBlock>,
    c1: Map<GraphBlockId, CoverBlock>,
) -> bool {
    forall|x: GraphBlockId|
        #![trigger v1[x.0 as int], v0[x.0 as int]]
        0 <= x.0 < v0.len() && !v0[x.0 as int] && v1[x.0 as int] && block_admitted(dominance, definition_block, x)
            ==> covered_from(c1, x, walk_floor(c0, x))
}

proof fn lemma_walk_refl(
    dominance: &Dominance,
    definition_block: Option<GraphBlockId>,
    v: Seq<bool>,
    c: Map<GraphBlockId, CoverBlock>,
)
    ensures
        walk_frame(v, v, c, c),
        walk_covered(dominance, definition_block, v, v, c, c),
{
}

proof fn lemma_walk_trans(
    dominance: &Dominance,
    definition_block: Option<GraphBlockId>,
    v0: Seq<bool>,
    v1: Seq<bool>,
    v2: Seq<bool>,
    c0: Map<GraphBlockId, CoverBlock>,
    c1: Map<GraphBlockId, CoverBlock>,
    c2: Map<GraphBlockId, CoverBlock>,
)
    requires
        v0.len() == v1.len(),
        v1.len() == v2.len(),
        forall|k: int| 0 <= k < v0.len() && #[trigger] v0[k] ==> v1[k],
        forall|k: int| 0 <= k < v1.len() && #[trigger] v1[k] ==> v2[k],
        walk_frame(v0, v1, c0, c1),
        walk_frame(v1, v2, c1, c2),
        walk_covered(dominance, definition_block, v0, v1, c0, c1),
        walk_covered(dominance, definition_block, v1, v2, c1, c2),
        grows(c1, c2),
    ensures
        walk_frame(v0, v2, c0, c2),
        walk_covered(dominance, definition_block, v0, v2, c0, c2),
{
    assert forall|x: GraphBlockId|
        #![trigger c2.contains_key(x)]
        #![trigger c0.contains_key(x)]
        !(0 <= x.0 < v2.len() && v2[x.0 as int]) implies c2.contains_key(x) == c0.contains_key(x) && (c0.contains_key(x)
        ==> c2[x] == c0[x]) by {
        if 0 <= x.0 < v1.len() && v1[x.0 as int] {
            assert(v2[x.0 as int]);
        }
        assert(c1.contains_key(x) == c0.contains_key(x));
        assert(c2.contains_key(x) == c1.contains_key(x));
    }
    assert forall|x: GraphBlockId|
        #![trigger v2[x.0 as int], v0[x.0 as int]]
        0 <= x.0 < v0.len() && !v0[x.0 as int] && v2[x.0 as int] && block_admitted(dominance, definition_block, x)
        implies covered_from(c2, x, walk_floor(c0, x)) by {
        if v1[x.0 as int] {
            assert(covered_from(c1, x, walk_floor(c0, x)));
            assert(c1.contains_key(x));
            assert forall|i: int| walk_floor(c0, x) <= i <= usize::MAX implies #[trigger] c2[x].covers(i) by {
                assert(c1[x].covers(i));
            }
        } else {
            assert(c1.contains_key(x) == c0.contains_key(x));
            assert(walk_floor(c1, x) == walk_floor(c0, x));
            assert(covered_from(c2, x, walk_floor(c1, x)));
        }
    }
}

proof fn lemma_walk_step(
    dominance: &Dominance,
    definition_block: Option<GraphBlockId>,
    block: GraphBlockId,
    marks: Seq<bool>,
    marked: Seq<bool>,
    vis: Seq<bool>,
    start: Map<GraphBlockId, CoverBlock>,
    placed: Map<GraphBlockId, CoverBlock>,
    fin: Map<GraphBlockId, CoverBlock>,
)
    requires
        0 <= block.0 < marks.len(),
        !marks[block.0 as int],
        marked == marks.update(block.0 as int, true),
        vis.len() == marked.len(),
        covered_from(placed, block, walk_floor(start, block)),
        forall|x: GraphBlockId|
            #![trigger placed.contains_key(x)]
            x != block ==> placed.contains_key(x) == start.contains_key(x) && (start.contains_key(x) ==> placed[x] == start[x]),
        forall|k: int| 0 <= k < marked.len() && #[trigger] marked[k] ==> vis[k],
        walk_frame(marked, vis, placed, fin),
        walk_covered(dominance, definition_block, marked, vis, placed, fin),
        grows(placed, fin),
    ensures
        walk_frame(marks, vis, start, fin),
        walk_covered(dominance, definition_block, marks, vis, start, fin),
        forall|k: int| 0 <= k < marks.len() && #[trigger] marks[k] ==> vis[k],
{
    assert(marked[block.0 as int]);
    assert forall|k: int| 0 <= k < marks.len() && #[trigger] marks[k] implies vis[k] by {
        assert(marked[k]);
    }
    assert forall|x: GraphBlockId|
        #![trigger fin.contains_key(x)]
        #![trigger start.contains_key(x)]
        !(0 <= x.0 < vis.len() && vis[x.0 as int]) implies fin.contains_key(x) == start.contains_key(x) && (start.contains_key(x)
        ==> fin[x] == start[x]) by {
        assert(x != block);
        assert(placed.contains_key(x) == start.contains_key(x));
        assert(fin.contains_key(x) == placed.contains_key(x));
    }
    assert forall|x: GraphBlockId|
        #![trigger vis[x.0 as int], marks[x.0 as int]]
        0 <= x.0 < marks.len() && !marks[x.0 as int] && vis[x.0 as int] && block_admitted(dominance, definition_block, x)
        implies covered_from(fin, x, walk_floor(start, x)) by {
        if x == block {
            assert(placed.contains_key(block));
            assert forall|i: int| walk_floor(start, block) <= i <= usize::MAX implies #[trigger] fin[block].covers(i) by {
                assert(placed[block].covers(i));
            }
        } else {
            assert(!marked[x.0 as int]);
            assert(placed.contains_key(x) == start.contains_key(x));
            assert(walk_floor(placed, x) == walk_floor(start, x));
            assert(covered_from(fin, x, walk_floor(placed, x)));
        }
    }
}

/// The last position of `o` among `ops[..n]`.
pub open spec fn last_pos(ops: Seq<OpId>, o: OpId, n: int) -> Option<int>
    decreases n,
{
    if n <= 0 {
        None
    } else if ops[n - 1] == o {
        Some(n - 1)
    } else {
        last_pos(ops, o, n - 1)
    }
}

/// The position of `o` recorded after reading the live blocks among the
/// first `nb` slots in order: its last position in the last of them that
/// holds it.
pub open spec fn recorded_upto(bls: Seq<GraphBlock>, o: OpId, nb: int) -> Option<int>
    decreases nb,
{
    if nb <= 0 {
        None
    } else if !bls[nb - 1].dead && last_pos(bls[nb - 1].ops@, o, bls[nb - 1].ops@.len() as int) is Some {
        last_pos(bls[nb - 1].ops@, o, bls[nb - 1].ops@.len() as int)
    } else {
        recorded_upto(bls, o, nb - 1)
    }
}

/// The position of an operation within the live blocks that hold it: the
/// last one read, reading blocks in arena order.
pub open spec fn op_index(d: &Funcdata, o: OpId) -> Option<int> {
    recorded_upto(d.bls(), o, d.bls().len() as int)
}

proof fn lemma_last_pos_bounds(ops: Seq<OpId>, o: OpId, n: int)
    requires
        0 <= n <= ops.len(),
    ensures
        last_pos(ops, o, n) matches Some(i) ==> 0 <= i < n && ops[i] == o,
    decreases n,
{
    if n > 0 && ops[n - 1] != o {
        lemma_last_pos_bounds(ops, o, n - 1);
    }
}

/// For every operation, its position within the live block that holds it,
/// as `op_index` describes.
fn operation_indices(data: &Funcdata) -> (r: Vec<Option<usize>>)
    requires
        data.wf(),
    ensures
        r@.len() == data.opv().len(),
        forall|o: OpId| data.valid_op(o) ==> (#[trigger] r@[o.0 as int]) == (match op_index(data, o) {
            Some(i) => Some(i as usize),
            None => None,
        }),
        forall|o: OpId| #[trigger] data.valid_op(o) ==> (op_index(data, o) matches Some(i) ==> 0 <= i <= usize::MAX),
{
    let count = data.op_arena_len();
    let mut table: Vec<Option<usize>> = Vec::new();
    let mut i: usize = 0;
    while i < count
        invariant
            count == data.opv().len(),
            i <= count,
            table@.len() == i,
            forall|k: int| 0 <= k < i ==> (#[trigger] table@[k]) is None,
        decreases count - i,
    {
        table.push(None);
        i += 1;
    }
    let nb = data.block_arena_len();
    let mut b: usize = 0;
    while b < nb
        invariant
            data.wf(),
            nb == data.bls().len(),
            count == data.opv().len(),
            b <= nb,
            table@.len() == count,
            forall|o: OpId| data.valid_op(o) ==> (#[trigger] table@[o.0 as int]) == (match recorded_upto(
                data.bls(),
                o,
                b as int,
            ) {
                Some(i) => Some(i as usize),
                None => None,
            }),
            forall|o: OpId| #[trigger] data.valid_op(o) ==> (recorded_upto(data.bls(), o, b as int) matches Some(i) ==> 0 <= i
                <= usize::MAX),
        decreases nb - b,
    {
        let block = data.block(GraphBlockId(b as u32));
        proof {
            assert((b as u32) as int == b as int);
            assert(data.block_wf(GraphBlockId(b as u32)));
        }
        if !block.dead {
            let ops = &block.ops;
            let mut p: usize = 0;
            while p < ops.len()
                invariant
                    data.wf(),
                    nb == data.bls().len(),
                    count == data.opv().len(),
                    b < nb,
                    *block == data.bls()[b as int],
                    !block.dead,
                    *ops == block.ops,
                    crate::graph::ops_below(ops@, count as int),
                    p <= ops@.len(),
                    forall|o: OpId| #[trigger] data.valid_op(o) ==> (recorded_upto(data.bls(), o, b as int) matches Some(i) ==> 0
                        <= i <= usize::MAX),
                    table@.len() == count,
                    forall|o: OpId| data.valid_op(o) ==> (#[trigger] table@[o.0 as int]) == (match last_pos(ops@, o, p as int) {
                        Some(i) => Some(i as usize),
                        None => match recorded_upto(data.bls(), o, b as int) {
                            Some(i) => Some(i as usize),
                            None => None,
                        },
                    }),
                decreases ops@.len() - p,
            {
                let o = ops[p];
                proof {
                    assert(ops@[p as int].0 < count);
                }
                let ghost t0 = table@;
                table.set(o.0 as usize, Some(p));
                proof {
                    assert forall|x: OpId| data.valid_op(x) implies (#[trigger] table@[x.0 as int]) == (match last_pos(
                        ops@,
                        x,
                        p + 1,
                    ) {
                        Some(i) => Some(i as usize),
                        None => match recorded_upto(data.bls(), x, b as int) {
                            Some(i) => Some(i as usize),
                            None => None,
                        },
                    }) by {
                        if x == o {
                            assert(last_pos(ops@, x, p + 1) == Some(p as int));
                        } else {
                            assert(x.0 != o.0);
                            assert(table@[x.0 as int] == t0[x.0 as int]);
                        }
                    }
                }
                p += 1;
            }
            proof {
                assert forall|o: OpId| data.valid_op(o) implies (#[trigger] table@[o.0 as int]) == (match recorded_upto(
                    data.bls(),
                    o,
                    b + 1,
                ) {
                    Some(i) => Some(i as usize),
                    None => None,
                }) by {
                    lemma_last_pos_bounds(ops@, o, ops@.len() as int);
                }
                assert forall|o: OpId| #[trigger] data.valid_op(o) implies (recorded_upto(data.bls(), o, b + 1) matches Some(
                    i,
                ) ==> 0 <= i <= usize::MAX) by {
                    lemma_last_pos_bounds(ops@, o, ops@.len() as int);
                }
            }
        } else {
            proof {
                assert forall|o: OpId| data.valid_op(o) implies (#[trigger] table@[o.0 as int]) == (match recorded_upto(
                    data.bls(),
                    o,
                    b + 1,
                ) {
                    Some(i) => Some(i as usize),
                    None => None,
                }) by {}
            }
        }
        b += 1;
    }
    table
}

/// Whether the operation at position `end` of `block` is a live merge.
fn ends_at_merge(data: &Funcdata, block: GraphBlockId, end: Option<usize>) -> (r: bool)
    requires
        data.wf(),
        data.valid_block(block),
    ensures
        r == (end matches Some(i) && i < data.blk(block).ops@.len() && !data.opn(data.blk(block).ops@[i as int]).dead
            && data.opn(data.blk(block).ops@[i as int]).opcode == MULTIEQUAL),
{
    match end {
        Some(index) => {
            let ops = &data.block(block).ops;
            if index < ops.len() {
                proof {
                    assert(data.block_wf(block));
                    assert(ops@[index as int].0 < data.opv().len());
                }
                data.opcode_of(ops[index]) == Some(MULTIEQUAL)
            } else {
                false
            }
        },
        None => false,
    }
}

/// Whether `block` is among `blocks`.
fn lists_block(blocks: &Vec<GraphBlockId>, block: GraphBlockId) -> (r: bool)
    ensures
        r == blocks@.contains(block),
{
    let mut i: usize = 0;
    while i < blocks.len()
        invariant
            i <= blocks@.len(),
            forall|k: int| 0 <= k < i ==> blocks@[k] != block,
        decreases blocks@.len() - i,
    {
        if blocks[i] == block {
            return true;
        }
        i += 1;
    }
    false
}

/// The last position of `block` among `order[..n]`; `usize::MAX` when it is
/// not there.
pub open spec fn rank_in(order: Seq<GraphBlockId>, block: GraphBlockId, n: int) -> usize
    decreases n,
{
    if n <= 0 {
        usize::MAX
    } else if order[n - 1] == block {
        (n - 1) as usize
    } else {
        rank_in(order, block, n - 1)
    }
}

/// The position of a block in reverse postorder, its last listing when it
/// is listed twice; `usize::MAX` for a block not listed.
fn rank_of(dominance: &Dominance, block: GraphBlockId) -> (r: usize)
    ensures
        r == rank_in(dominance.reverse_postorder@, block, dominance.reverse_postorder@.len() as int),
{
    let order = &dominance.reverse_postorder;
    let mut i: usize = order.len();
    while i > 0
        invariant
            i <= order@.len(),
            order@ == dominance.reverse_postorder@,
            rank_in(order@, block, order@.len() as int) == rank_in(order@, block, i as int),
        decreases i,
    {
        i -= 1;
        if order[i] == block {
            proof {
                assert(rank_in(order@, block, i + 1) == i);
            }
            return i;
        }
    }
    usize::MAX
}

/// `a` orders before `b`: by block rank, then operation position, then
/// operation identifier.
fn key_less(a: (usize, usize, u32, OpId), b: (usize, usize, u32, OpId)) -> (r: bool)
    ensures
        r == (a.0 < b.0 || (a.0 == b.0 && (a.1 < b.1 || (a.1 == b.1 && a.2 < b.2)))),
{
    a.0 < b.0 || (a.0 == b.0 && (a.1 < b.1 || (a.1 == b.1 && a.2 < b.2)))
}

/// Exchanging two elements keeps the multiset of a sequence.
proof fn lemma_swap_multiset<T>(s: Seq<T>, i: int, j: int)
    requires
        0 <= i < s.len(),
        0 <= j < s.len(),
    ensures
        s.update(i, s[j]).update(j, s[i]).to_multiset() == s.to_multiset(),
{
    broadcast use vstd::multiset::group_multiset_axioms;
    let s1 = s.update(i, s[j]);
    vstd::seq_lib::to_multiset_update(s, i, s[j]);
    vstd::seq_lib::to_multiset_update(s1, j, s[i]);
    vstd::seq_lib::to_multiset_contains(s, s[i]);
    assert(s.contains(s[i]));
    if i == j {
        assert(s.update(i, s[j]).update(j, s[i]) =~= s);
    } else {
        assert(s1[j] == s[j]);
        assert(s.update(i, s[j]).update(j, s[i]).to_multiset() =~= s.to_multiset());
    }
}

/// The readers in the order the cover visits them: blocks in reverse
/// postorder, then position within the block, then identifier.
fn order_readers(data: &Funcdata, dominance: &Dominance, indices: &Vec<Option<usize>>, readers: &Vec<OpId>) -> (r: Vec<OpId>)
    requires
        data.wf(),
        indices@.len() == data.opv().len(),
        crate::graph::ops_below(readers@, data.opv().len() as int),
    ensures
        forall|o: OpId| readers@.contains(o) ==> #[trigger] r@.contains(o),
{
    let mut entries: Vec<(usize, usize, u32, OpId)> = Vec::new();
    let mut i: usize = 0;
    while i < readers.len()
        invariant
            data.wf(),
            indices@.len() == data.opv().len(),
            crate::graph::ops_below(readers@, data.opv().len() as int),
            i <= readers@.len(),
            entries@.len() == i,
            forall|k: int| 0 <= k < i ==> (#[trigger] entries@[k]).3 == readers@[k],
        decreases readers@.len() - i,
    {
        let reader = readers[i];
        proof {
            assert(readers@[i as int].0 < data.opv().len());
        }
        let rank = match data.op(reader).parent {
            Some(block) => rank_of(dominance, block),
            None => usize::MAX,
        };
        let index = match indices[reader.0 as usize] {
            Some(p) => p,
            None => usize::MAX,
        };
        entries.push((rank, index, reader.0, reader));
        i += 1;
    }
    let ghost start = entries@;
    let mut i: usize = 1;
    while i < entries.len()
        invariant
            entries@.len() == start.len(),
            entries@.to_multiset() == start.to_multiset(),
        decreases entries@.len() - i,
    {
        let mut j: usize = i;
        while j > 0 && key_less(entries[j], entries[j - 1])
            invariant
                j <= i < entries@.len(),
                entries@.len() == start.len(),
                entries@.to_multiset() == start.to_multiset(),
            decreases j,
        {
            let left = entries[j - 1];
            let right = entries[j];
            let ghost before = entries@;
            entries.set(j - 1, right);
            entries.set(j, left);
            proof {
                lemma_swap_multiset(before, j - 1, j as int);
            }
            j -= 1;
        }
        i += 1;
    }
    let mut r: Vec<OpId> = Vec::new();
    let mut k: usize = 0;
    while k < entries.len()
        invariant
            k <= entries@.len(),
            r@ == entries@.take(k as int).map_values(|e: (usize, usize, u32, OpId)| e.3),
        decreases entries@.len() - k,
    {
        r.push(entries[k].3);
        proof {
            assert(entries@.take(k + 1) =~= entries@.take(k as int).push(entries@[k as int]));
            assert(r@ =~= entries@.take(k + 1).map_values(|e: (usize, usize, u32, OpId)| e.3));
        }
        k += 1;
    }
    proof {
        assert(entries@.take(entries@.len() as int) =~= entries@);
        assert forall|o: OpId| readers@.contains(o) implies #[trigger] r@.contains(o) by {
            let k = choose|k: int| 0 <= k < readers@.len() && readers@[k] == o;
            let e = start[k];
            assert(start.contains(e));
            vstd::seq_lib::to_multiset_contains(start, e);
            vstd::seq_lib::to_multiset_contains(entries@, e);
            let m = choose|m: int| 0 <= m < entries@.len() && entries@[m] == e;
            assert(r@[m] == e.3);
        }
    }
    r
}

/// The position the cover uses for the definition `o` of a value: its
/// recorded position, or zero.
pub open spec fn def_at(d: &Funcdata, o: OpId) -> int {
    match op_index(d, o) {
        Some(i) => i,
        None => 0,
    }
}

/// The position the cover uses for a reader `o` in block `b`: its recorded
/// position, or its first position in `b`, or zero.
pub open spec fn reader_at(d: &Funcdata, o: OpId, b: GraphBlockId) -> int {
    match op_index(d, o) {
        Some(i) => i,
        None => first_index_or(d.blk(b).ops@, o, 0),
    }
}

/// The block the cover treats as the function entry: the first block in
/// reverse postorder, or the first live block when there is no order.
pub open spec fn entry_of(d: &Funcdata, dominance: &Dominance) -> Option<GraphBlockId> {
    if dominance.reverse_postorder@.len() > 0 {
        Some(dominance.reverse_postorder@[0])
    } else {
        let live = live_blocks(d.bls(), d.bls().len() as int);
        if live.len() > 0 {
            Some(live[0])
        } else {
            None
        }
    }
}

impl Cover {
    /// The range of `block`, or an empty range when the cover does not reach
    /// it.
    fn range_of(&self, block: GraphBlockId) -> (r: CoverBlock)
        ensures
            self@.contains_key(block) ==> r == self@[block],
            !self@.contains_key(block) ==> !r.spec_covered() && r.spec_begin() is None && r.spec_end() is None,
    {
        match self.block(block) {
            Some(range) => *range,
            None => CoverBlock::new(),
        }
    }

    /// Extends the cover backwards into `block` from its end: an unreached
    /// block becomes fully covered and the walk goes on through its
    /// predecessors; a reached block is extended to its end. Blocks outside
    /// the reverse postorder, or not dominated by the definition's block, are
    /// left alone, and each block is visited once per walk.
    fn add_ref_recurse(
        &mut self,
        data: &Funcdata,
        block: GraphBlockId,
        dominance: &Dominance,
        definition_block: Option<GraphBlockId>,
        visited: &mut Vec<bool>,
    )
        requires
            data.wf(),
            data.valid_block(block),
            old(visited)@.len() == data.bls().len(),
        ensures
            grows(old(self)@, final(self)@),
            final(visited)@.len() == old(visited)@.len(),
            unmarked(final(visited)@) <= unmarked(old(visited)@),
            final(visited)@[block.0 as int],
            forall|k: int| 0 <= k < old(visited)@.len() && #[trigger] old(visited)@[k] ==> final(visited)@[k],
            walk_frame(old(visited)@, final(visited)@, old(self)@, final(self)@),
            walk_covered(dominance, definition_block, old(visited)@, final(visited)@, old(self)@, final(self)@),
            !walk_enters(dominance, definition_block, old(visited)@, block) ==> final(self)@ == old(self)@,
        decreases unmarked(old(visited)@),
    {
        let ghost start = self@;
        let ghost marks = visited@;
        let index = block.0 as usize;
        if visited[index] {
            return;
        }
        proof {
            lemma_unmarked_mark(visited@, index as int);
        }
        visited.set(index, true);
        if dominance.reverse_postorder.len() > 0 && !lists_block(&dominance.reverse_postorder, block) {
            return;
        }
        match definition_block {
            Some(owner) => {
                if !dominates(dominance, owner, block) {
                    return;
                }
            },
            None => {},
        }
        proof {
            assert(block_admitted(dominance, definition_block, block));
        }
        let existing = self.range_of(block);
        proof {
            assert(data.block_wf(block));
        }
        let predecessors = copy_block_ids(&data.block(block).predecessors);
        let ghost marked = visited@;
        if existing.is_empty() {
            let mut all = existing;
            all.set_all();
            self.set_block(block, all);
            proof {
                lemma_grows_insert(start, block, all);
            }
            let ghost placed = self@;
            self.recurse_into(data, &predecessors, dominance, definition_block, visited, Ghost(start), Ghost(marks));
            proof {
                lemma_walk_step(dominance, definition_block, block, marks, marked, visited@, start, placed, self@);
            }
            return;
        }
        let stop = existing.end_value();
        if stop != usize::MAX && stop >= existing.begin_value() {
            let mut extended = existing;
            extended.end = None;
            self.set_block(block, extended);
            proof {
                existing.lemma_extend_grows(extended);
                lemma_grows_insert(start, block, extended);
            }
            let ghost placed = self@;
            if existing.begin.is_none() && ends_at_merge(data, block, existing.end) {
                self.recurse_into(data, &predecessors, dominance, definition_block, visited, Ghost(start), Ghost(marks));
            }
            proof {
                lemma_walk_step(dominance, definition_block, block, marks, marked, visited@, start, placed, self@);
            }
        } else {
            let ghost placed = self@;
            proof {
                lemma_grows_refl(start);
            }
            if stop == 0 && existing.begin.is_none() {
                if ends_at_merge(data, block, existing.end) {
                    self.recurse_into(data, &predecessors, dominance, definition_block, visited, Ghost(start), Ghost(marks));
                }
            }
            proof {
                lemma_walk_step(dominance, definition_block, block, marks, marked, visited@, start, placed, self@);
            }
        }
    }

    /// Walks on into each of `predecessors` in turn.
    fn recurse_into(
        &mut self,
        data: &Funcdata,
        predecessors: &Vec<GraphBlockId>,
        dominance: &Dominance,
        definition_block: Option<GraphBlockId>,
        visited: &mut Vec<bool>,
        Ghost(start): Ghost<Map<GraphBlockId, CoverBlock>>,
        Ghost(marks): Ghost<Seq<bool>>,
    )
        requires
            data.wf(),
            crate::graph::blocks_below(predecessors@, data.bls().len() as int),
            old(visited)@.len() == data.bls().len(),
            grows(start, old(self)@),
            unmarked(old(visited)@) < unmarked(marks),
        ensures
            grows(start, final(self)@),
            grows(old(self)@, final(self)@),
            final(visited)@.len() == old(visited)@.len(),
            unmarked(final(visited)@) < unmarked(marks),
            forall|k: int| 0 <= k < old(visited)@.len() && #[trigger] old(visited)@[k] ==> final(visited)@[k],
            forall|k: int| 0 <= k < predecessors@.len() ==> final(visited)@[(#[trigger] predecessors@[k]).0 as int],
            walk_frame(old(visited)@, final(visited)@, old(self)@, final(self)@),
            walk_covered(dominance, definition_block, old(visited)@, final(visited)@, old(self)@, final(self)@),
        decreases unmarked(marks), 0nat,
    {
        let ghost v0 = visited@;
        let ghost c0 = self@;
        proof {
            lemma_grows_refl(c0);
            lemma_walk_refl(dominance, definition_block, v0, c0);
        }
        let mut i: usize = 0;
        while i < predecessors.len()
            invariant
                data.wf(),
                crate::graph::blocks_below(predecessors@, data.bls().len() as int),
                visited@.len() == data.bls().len(),
                v0.len() == data.bls().len(),
                grows(start, self@),
                grows(c0, self@),
                unmarked(visited@) < unmarked(marks),
                i <= predecessors@.len(),
                forall|k: int| 0 <= k < v0.len() && #[trigger] v0[k] ==> visited@[k],
                forall|k: int| 0 <= k < i ==> visited@[(#[trigger] predecessors@[k]).0 as int],
                walk_frame(v0, visited@, c0, self@),
                walk_covered(dominance, definition_block, v0, visited@, c0, self@),
            decreases predecessors@.len() - i,
        {
            let predecessor = predecessors[i];
            proof {
                assert(predecessors@[i as int].0 < data.bls().len());
            }
            let ghost before = self@;
            let ghost vb = visited@;
            self.add_ref_recurse(data, predecessor, dominance, definition_block, visited);
            proof {
                lemma_grows_trans(start, before, self@);
                lemma_grows_trans(c0, before, self@);
                lemma_walk_trans(dominance, definition_block, v0, vb, visited@, c0, before, self@);
                assert forall|k: int| 0 <= k < i + 1 implies visited@[(#[trigger] predecessors@[k]).0 as int] by {
                    if k < i {
                        assert(vb[predecessors@[k].0 as int]);
                    }
                }
            }
            i += 1;
        }
    }
}

impl Cover {
    /// Adds the point where `reader` reads `value` to the cover, extending
    /// the cover backwards through the predecessors the read depends on: for
    /// a merge only those that supply `value` in its slot.
    fn add_ref_point(
        &mut self,
        data: &Funcdata,
        value: VarnodeId,
        reader: OpId,
        dominance: &Dominance,
        indices: &Vec<Option<usize>>,
        definition_block: Option<GraphBlockId>,
    )
        requires
            data.wf(),
            data.valid_op(reader),
            indices@.len() == data.opv().len(),
            forall|o: OpId| data.valid_op(o) ==> (#[trigger] indices@[o.0 as int]) == (match op_index(data, o) {
                Some(i) => Some(i as usize),
                None => None,
            }),
            forall|o: OpId| #[trigger] data.valid_op(o) ==> (op_index(data, o) matches Some(i) ==> 0 <= i <= usize::MAX),
        ensures
            grows(old(self)@, final(self)@),
            data.opn(reader).parent matches Some(b) ==> final(self)@.contains_key(b) && final(self)@[b].covers(
                reader_at(data, reader, b),
            ),
    {
        let ghost start = self@;
        proof {
            assert(data.op_wf(reader));
        }
        let operation = data.op(reader);
        let block = match operation.parent {
            Some(b) => b,
            None => return,
        };
        proof {
            assert(data.block_wf(block));
        }
        let index = match indices[reader.0 as usize] {
            Some(i) => i,
            None => {
                let found = position_of_op(&data.block(block).ops, reader);
                proof {
                    lemma_first_index(data.blk(block).ops@, reader, found);
                }
                match found {
                    Some(p) => p,
                    None => 0,
                }
            },
        };
        let opcode = operation.opcode;
        let mut recurse_all = false;
        let mut recurse = true;
        let existing = self.range_of(block);
        if existing.is_empty() {
            let mut range = existing;
            range.set_end(index);
            self.set_block(block, range);
            proof {
                lemma_grows_insert(start, block, range);
            }
        } else if existing.contains(index) {
            recurse = opcode == MULTIEQUAL;
            proof {
                lemma_grows_refl(start);
            }
        } else {
            let old_end = existing.end;
            let old_begin_is_block_start = existing.begin.is_none();
            let mut updated = existing;
            updated.set_end(index);
            self.set_block(block, updated);
            proof {
                existing.lemma_set_end_grows(updated, index);
                lemma_grows_insert(start, block, updated);
            }
            if index >= updated.begin_value() {
                if old_begin_is_block_start && ends_at_merge(data, block, old_end) {
                    recurse_all = true;
                }
                recurse = false;
            }
        }
        let ghost placed = self@;
        proof {
            assert(placed.contains_key(block) && placed[block].covers(index as int));
            assert(index as int == reader_at(data, reader, block));
            lemma_grows_refl(placed);
        }
        if !recurse && !recurse_all {
            return;
        }
        let predecessors = copy_block_ids(&data.block(block).predecessors);
        if opcode == MULTIEQUAL && !recurse_all {
            let inputs = copy_vn_ids(&data.op(reader).inputs);
            let mut slot: usize = 0;
            while slot < inputs.len()
                invariant
                    data.wf(),
                    crate::graph::blocks_below(predecessors@, data.bls().len() as int),
                    grows(placed, self@),
                    slot <= inputs@.len(),
                decreases inputs@.len() - slot,
            {
                if inputs[slot] == value && slot < predecessors.len() {
                    let predecessor = predecessors[slot];
                    proof {
                        assert(predecessors@[slot as int].0 < data.bls().len());
                    }
                    let mut visited = unmarked_flags(data.block_arena_len());
                    let ghost before = self@;
                    self.add_ref_recurse(data, predecessor, dominance, definition_block, &mut visited);
                    proof {
                        lemma_grows_trans(placed, before, self@);
                    }
                }
                slot += 1;
            }
        } else {
            let mut i: usize = 0;
            while i < predecessors.len()
                invariant
                    data.wf(),
                    crate::graph::blocks_below(predecessors@, data.bls().len() as int),
                    grows(placed, self@),
                    i <= predecessors@.len(),
                decreases predecessors@.len() - i,
            {
                let predecessor = predecessors[i];
                proof {
                    assert(predecessors@[i as int].0 < data.bls().len());
                }
                let mut visited = unmarked_flags(data.block_arena_len());
                let ghost before = self@;
                self.add_ref_recurse(data, predecessor, dominance, definition_block, &mut visited);
                proof {
                    lemma_grows_trans(placed, before, self@);
                }
                i += 1;
            }
        }
        proof {
            lemma_grows_trans(start, placed, self@);
        }
    }

    /// The cover of a value: its definition point (or the entry, for a
    /// function input) and every point where it is read, each joined to the
    /// definition backwards through the blocks in between. The walk stops at
    /// points already covered; dominance keeps it off paths that cannot see
    /// the definition, and a merge is followed only along the edge that
    /// supplies the value.
    pub fn of(data: &Funcdata, value: VarnodeId, dominance: &Dominance) -> (r: Self)
        requires
            data.wf(),
            data.valid_vn(value),
        ensures
            data.vn(value).def is Some && data.opn(data.vn(value).def.unwrap()).parent is Some ==> {
                let o = data.vn(value).def.unwrap();
                let b = data.opn(o).parent.unwrap();
                r@.contains_key(b) && r@[b].covers(def_at(data, o))
            },
            data.vn(value).def is None && data.vn(value).flags.input && entry_of(data, dominance) is Some ==> r@.contains_key(
                entry_of(data, dominance).unwrap(),
            ) && r@[entry_of(data, dominance).unwrap()].covers(0),
            forall|o: OpId|
                #![trigger data.read_by(value, o)]
                data.read_by(value, o) && !data.opn(o).dead && data.opn(o).parent is Some ==> r@.contains_key(
                    data.opn(o).parent.unwrap(),
                ) && r@[data.opn(o).parent.unwrap()].covers(reader_at(data, o, data.opn(o).parent.unwrap())),
    {
        let mut cover = Cover::new();
        let indices = operation_indices(data);
        proof {
            assert(data.vn_wf(value));
        }
        let definition = data.varnode(value).def;
        let definition_block = match definition {
            Some(def) => data.op(def).parent,
            None => None,
        };
        let entry = if dominance.reverse_postorder.len() > 0 {
            Some(dominance.reverse_postorder[0])
        } else {
            let live = data.blocks();
            if live.len() > 0 {
                Some(live[0])
            } else {
                None
            }
        };
        match definition {
            Some(def) => {
                match data.op(def).parent {
                    Some(block) => {
                        let index = match indices[def.0 as usize] {
                            Some(i) => i,
                            None => 0,
                        };
                        let mut range = CoverBlock::new();
                        range.set_begin(index);
                        range.set_end(index);
                        cover.set_block(block, range);
                    },
                    None => {},
                }
            },
            None => {
                if data.varnode(value).flags.input {
                    match entry {
                        Some(block) => {
                            let mut range = CoverBlock::new();
                            range.set_begin(0);
                            range.set_end(0);
                            cover.set_block(block, range);
                        },
                        None => {},
                    }
                }
            },
        }
        let ghost placed = cover@;
        proof {
            lemma_grows_refl(placed);
        }
        let readers = copy_op_ids(&data.varnode(value).descendants);
        let ordered = order_readers(data, dominance, &indices, &readers);
        let mut i: usize = 0;
        while i < ordered.len()
            invariant
                data.wf(),
                data.valid_vn(value),
                readers@ == data.vn(value).descendants@,
                forall|o: OpId| readers@.contains(o) ==> #[trigger] ordered@.contains(o),
                crate::graph::ops_below(readers@, data.opv().len() as int),
                indices@.len() == data.opv().len(),
                forall|o: OpId| data.valid_op(o) ==> (#[trigger] indices@[o.0 as int]) == (match op_index(data, o) {
                    Some(i) => Some(i as usize),
                    None => None,
                }),
                forall|o: OpId| #[trigger] data.valid_op(o) ==> (op_index(data, o) matches Some(i) ==> 0 <= i <= usize::MAX),
                grows(placed, cover@),
                i <= ordered@.len(),
                forall|k: int|
                    0 <= k < i && !data.opn(#[trigger] ordered@[k]).dead && data.valid_op(ordered@[k]) && data.opn(
                        ordered@[k],
                    ).parent is Some ==> cover@.contains_key(data.opn(ordered@[k]).parent.unwrap()) && cover@[data.opn(
                        ordered@[k],
                    ).parent.unwrap()].covers(reader_at(data, ordered@[k], data.opn(ordered@[k]).parent.unwrap())),
            decreases ordered@.len() - i,
        {
            let reader = ordered[i];
            let ghost before = cover@;
            if reader.0 as usize >= data.op_arena_len() {
                i += 1;
                continue;
            }
            if data.opcode_of(reader).is_none() {
                i += 1;
                continue;
            }
            cover.add_ref_point(data, value, reader, dominance, &indices, definition_block);
            proof {
                lemma_grows_trans(placed, before, cover@);
                assert forall|k: int|
                    0 <= k < i + 1 && !data.opn(#[trigger] ordered@[k]).dead && data.valid_op(ordered@[k]) && data.opn(
                        ordered@[k],
                    ).parent is Some implies cover@.contains_key(data.opn(ordered@[k]).parent.unwrap()) && cover@[data.opn(
                        ordered@[k],
                    ).parent.unwrap()].covers(reader_at(data, ordered@[k], data.opn(ordered@[k]).parent.unwrap())) by {
                    if k < i {
                        let b = data.opn(ordered@[k]).parent.unwrap();
                        assert(before.contains_key(b));
                        assert(cover@[b].covers(reader_at(data, ordered@[k], b)));
                    }
                }
            }
            i += 1;
        }
        proof {
            assert forall|o: OpId|
                #![trigger data.read_by(value, o)]
                data.read_by(value, o) && !data.opn(o).dead && data.opn(o).parent is Some implies cover@.contains_key(
                    data.opn(o).parent.unwrap(),
                ) && cover@[data.opn(o).parent.unwrap()].covers(reader_at(data, o, data.opn(o).parent.unwrap())) by {
                assert(readers@.contains(o));
                assert(ordered@.contains(o));
                let k = choose|k: int| 0 <= k < ordered@.len() && ordered@[k] == o;
                let j = choose|j: int| 0 <= j < readers@.len() && readers@[j] == o;
                assert(readers@[j].0 < data.opv().len());
            }
            match definition {
                Some(def) => {
                    if let Some(b) = data.opn(def).parent {
                        assert(placed.contains_key(b));
                        assert(placed[b].covers(def_at(data, def)));
                        assert(cover@.contains_key(b));
                        assert(cover@[b].covers(def_at(data, def)));
                    }
                },
                None => {
                    if data.vn(value).flags.input && entry is Some {
                        assert(placed.contains_key(entry.unwrap()));
                        assert(cover@[entry.unwrap()].covers(0));
                    }
                },
            }
        }
        cover
    }
}

/// Two covers intersect exactly when they intersect the other way round.
pub proof fn lemma_intersects_symmetric(a: Cover, b: Cover)
    ensures
        (exists|x: GraphBlockId|
            #![trigger a@[x], b@[x]]
            a@.contains_key(x) && b@.contains_key(x) && intersection_kind(a@[x], b@[x]) >= 2) == (exists|x: GraphBlockId|
            #![trigger b@[x], a@[x]]
            b@.contains_key(x) && a@.contains_key(x) && intersection_kind(b@[x], a@[x]) >= 2),
{
    if exists|x: GraphBlockId| #![trigger a@[x], b@[x]] a@.contains_key(x) && b@.contains_key(x) && intersection_kind(a@[x], b@[x]) >= 2 {
        let x = choose|x: GraphBlockId| #![trigger a@[x], b@[x]] a@.contains_key(x) && b@.contains_key(x) && intersection_kind(a@[x], b@[x]) >= 2;
        lemma_intersection_symmetric(a@[x], b@[x]);
    }
    if exists|x: GraphBlockId| #![trigger b@[x], a@[x]] b@.contains_key(x) && a@.contains_key(x) && intersection_kind(b@[x], a@[x]) >= 2 {
        let x = choose|x: GraphBlockId| #![trigger b@[x], a@[x]] b@.contains_key(x) && a@.contains_key(x) && intersection_kind(b@[x], a@[x]) >= 2;
        lemma_intersection_symmetric(a@[x], b@[x]);
    }
}

} // verus!
