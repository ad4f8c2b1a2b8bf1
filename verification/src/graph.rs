//! A mutable p-code data-flow graph: values, operations and basic blocks.

use vstd::prelude::*;
use crate::pcode::{CONST_SPACE, UNIQUE_SPACE, Location, Varnode};

verus! {

/// Index of a varnode in a [`Funcdata`] arena.
#[derive(Copy, Clone, PartialEq, Eq, PartialOrd, Ord, Hash, Debug, Structural)]
pub struct VarnodeId(pub u32);

/// Index of an operation in a [`Funcdata`] arena.
#[derive(Copy, Clone, PartialEq, Eq, PartialOrd, Ord, Hash, Debug, Structural)]
pub struct OpId(pub u32);

/// Index of a basic block in a [`Funcdata`] arena.
#[derive(Copy, Clone, PartialEq, Eq, PartialOrd, Ord, Hash, Debug, Structural)]
pub struct GraphBlockId(pub u32);

/// Varnode properties that the passes depend on.
#[derive(Copy, Clone, PartialEq, Eq, Debug, Structural)]
pub struct VarnodeFlags {
    /// The varnode holds a constant, so it has no defining operation.
    pub constant: bool,
    /// The varnode enters the function without a definition.
    pub input: bool,
    /// The varnode has a defining operation.
    pub written: bool,
    /// The varnode is a compiler temporary rather than a machine location.
    pub unique: bool,
    /// Reads and writes of this location may not be reordered or removed.
    pub volatile: bool,
    /// The value may be directly affected by a legal function input.
    pub direct_write: bool,
    /// Every use of an abnormal input reaches an `INDIRECT` marker.
    pub indirect_only: bool,
}

/// Flags with every property unset.
pub open spec fn no_flags() -> VarnodeFlags {
    VarnodeFlags {
        constant: false,
        input: false,
        written: false,
        unique: false,
        volatile: false,
        direct_write: false,
        indirect_only: false,
    }
}

impl Default for VarnodeFlags {
    fn default() -> (r: Self)
        ensures
            r == no_flags(),
    {
        VarnodeFlags {
            constant: false,
            input: false,
            written: false,
            unique: false,
            volatile: false,
            direct_write: false,
            indirect_only: false,
        }
    }
}

/// One value in the data-flow graph.
#[derive(Clone, PartialEq, Eq, Debug)]
pub struct GraphVarnode {
    pub space: u32,
    pub offset: u64,
    pub size: u32,
    pub flags: VarnodeFlags,
    /// The operation that writes this value, when it has one.
    pub def: Option<OpId>,
    /// Every operation that reads this value, each named once.
    pub descendants: Vec<OpId>,
}

/// The end of a byte range, saturating at the top of the address space.
pub open spec fn range_end(offset: u64, size: u32) -> int {
    if offset + size > u64::MAX {
        u64::MAX as int
    } else {
        offset + size
    }
}

impl GraphVarnode {
    /// The location as a plain varnode.
    pub fn location(&self) -> (r: Varnode)
        ensures
            r == (Varnode { space: self.space, offset: self.offset, size: self.size }),
    {
        Varnode::new(self.space, self.offset, self.size)
    }

    /// Whether this value and `other` share any byte of storage.
    pub fn overlaps(&self, other: &Self) -> (r: bool)
        ensures
            r == (self.space == other.space && self.offset < range_end(other.offset, other.size)
                && other.offset < range_end(self.offset, self.size)),
    {
        self.space == other.space && self.offset < other.offset.saturating_add(other.size as u64)
            && other.offset < self.offset.saturating_add(self.size as u64)
    }
}

} // verus!

verus! {

/// Position of an operation within the function: its instruction address and
/// its index among that instruction's p-code operations.
#[derive(Copy, Clone, PartialEq, Eq, PartialOrd, Ord, Hash, Debug, Structural)]
pub struct SeqNum {
    pub address: u64,
    pub order: u32,
}

/// One operation in the data-flow graph.
#[derive(Clone, PartialEq, Eq, Debug)]
pub struct GraphOp {
    pub opcode: i32,
    pub seq: SeqNum,
    pub output: Option<VarnodeId>,
    pub inputs: Vec<VarnodeId>,
    pub parent: Option<GraphBlockId>,
    /// Set when the operation has been removed from the graph but its slot is
    /// retained so existing identifiers stay valid.
    pub dead: bool,
}

/// One basic block, holding its operations in execution order.
#[derive(Clone, PartialEq, Eq, Debug)]
pub struct GraphBlock {
    pub start: u64,
    /// Index of the block's first p-code operation within `start`'s
    /// instruction.
    pub start_order: u32,
    pub ops: Vec<OpId>,
    pub predecessors: Vec<GraphBlockId>,
    pub successors: Vec<GraphBlockId>,
    /// Set when the block is unreachable from the entry. Its slot is retained
    /// so existing identifiers stay valid.
    pub dead: bool,
}

/// A function's mutable p-code graph.
#[derive(Clone, PartialEq, Eq, Debug)]
pub struct Funcdata {
    pub entry: u64,
    varnodes: Vec<GraphVarnode>,
    ops: Vec<GraphOp>,
    blocks: Vec<GraphBlock>,
    next_unique: u64,
    /// Whether the target's memory is big endian.
    pub big_endian: bool,
    /// The register that holds the frame base, when the caller knows it.
    pub spacebase: Option<Location>,
    /// Set once the pass pipeline has begun on this function.
    pub processing_started: bool,
    /// Set once the pass pipeline has finished on this function.
    pub processing_complete: bool,
    /// Whether data-type recovery is enabled.
    pub type_recovery_on: bool,
    /// Set once data-type recovery has begun.
    pub type_recovery_started: bool,
    /// Varnode creation index at the beginning of cleanup.
    pub clean_up_index: usize,
    /// Varnode creation index at the beginning of high-level assignment.
    pub high_level_index: usize,
    /// Set once high-level variables have been assigned.
    pub high_level_on: bool,
    /// Diagnostics a pass wants the reader to see, each recorded once.
    warnings: Vec<String>,
    /// The function's recovered prototype, once a calling convention is known.
    func_proto: Option<crate::funcproto::FuncProto>,
}

impl Funcdata {
    /// Every varnode, indexed by [`VarnodeId`].
    pub closed spec fn vns(&self) -> Seq<GraphVarnode> {
        self.varnodes@
    }

    /// Every operation, indexed by [`OpId`].
    pub closed spec fn opv(&self) -> Seq<GraphOp> {
        self.ops@
    }

    /// Every block, indexed by [`GraphBlockId`].
    pub closed spec fn bls(&self) -> Seq<GraphBlock> {
        self.blocks@
    }

    /// The recorded diagnostics, oldest first.
    pub closed spec fn warning_list(&self) -> Seq<String> {
        self.warnings@
    }

    /// The offset the next fresh temporary will take.
    pub closed spec fn unique_cursor(&self) -> u64 {
        self.next_unique
    }

    /// The prototype slot.
    pub closed spec fn proto_slot(&self) -> Option<crate::funcproto::FuncProto> {
        self.func_proto
    }

    pub closed spec fn spec_entry(&self) -> u64 {
        self.entry
    }

    pub closed spec fn spec_big_endian(&self) -> bool {
        self.big_endian
    }

    pub closed spec fn spec_spacebase(&self) -> Option<Location> {
        self.spacebase
    }

    pub closed spec fn spec_processing_started(&self) -> bool {
        self.processing_started
    }

    pub closed spec fn spec_processing_complete(&self) -> bool {
        self.processing_complete
    }

    pub closed spec fn spec_type_recovery_on(&self) -> bool {
        self.type_recovery_on
    }

    pub closed spec fn spec_type_recovery_started(&self) -> bool {
        self.type_recovery_started
    }

    pub closed spec fn spec_clean_up_index(&self) -> usize {
        self.clean_up_index
    }

    pub closed spec fn spec_high_level_index(&self) -> usize {
        self.high_level_index
    }

    pub closed spec fn spec_high_level_on(&self) -> bool {
        self.high_level_on
    }

    pub open spec fn valid_vn(&self, v: VarnodeId) -> bool {
        (v.0 as int) < self.vns().len()
    }

    pub open spec fn valid_op(&self, o: OpId) -> bool {
        (o.0 as int) < self.opv().len()
    }

    pub open spec fn valid_block(&self, b: GraphBlockId) -> bool {
        (b.0 as int) < self.bls().len()
    }

    pub open spec fn vn(&self, v: VarnodeId) -> GraphVarnode {
        self.vns()[v.0 as int]
    }

    pub open spec fn opn(&self, o: OpId) -> GraphOp {
        self.opv()[o.0 as int]
    }

    pub open spec fn blk(&self, b: GraphBlockId) -> GraphBlock {
        self.bls()[b.0 as int]
    }

    /// Operation `o` reads value `v` in at least one operand slot.
    pub open spec fn reads(&self, o: OpId, v: VarnodeId) -> bool {
        self.opn(o).inputs@.contains(v)
    }

    /// Value `v` lists operation `o` among its descendants.
    pub open spec fn read_by(&self, v: VarnodeId, o: OpId) -> bool {
        self.vn(v).descendants@.contains(o)
    }

    pub open spec fn vn_wf(&self, v: VarnodeId) -> bool {
        &&& reader_list(self.vn(v).descendants@)
        &&& ops_below(self.vn(v).descendants@, self.opv().len() as int)
        &&& (self.vn(v).def matches Some(o) ==> self.valid_op(o) && self.opn(o).output == Some(v))
        &&& self.vn(v).flags.written == self.vn(v).def.is_some()
    }

    pub open spec fn op_wf(&self, o: OpId) -> bool {
        &&& vns_below(self.opn(o).inputs@, self.vns().len() as int)
        &&& (self.opn(o).output matches Some(v) ==> self.valid_vn(v))
        &&& (self.opn(o).parent matches Some(b) ==> self.valid_block(b))
    }

    pub open spec fn block_wf(&self, b: GraphBlockId) -> bool {
        &&& ops_below(self.blk(b).ops@, self.opv().len() as int)
        &&& blocks_below(self.blk(b).predecessors@, self.bls().len() as int)
        &&& blocks_below(self.blk(b).successors@, self.bls().len() as int)
    }

    /// The descendant lists agree with the operand lists: a value names an
    /// operation as a reader exactly when that operation reads it.
    pub open spec fn links(&self) -> bool {
        forall|v: VarnodeId, o: OpId|
            #![trigger self.read_by(v, o)]
            #![trigger self.reads(o, v)]
            self.valid_vn(v) && self.valid_op(o) ==> (self.read_by(v, o) <==> self.reads(o, v))
    }

    /// The graph's structural invariant: every identifier names an arena
    /// slot, descendant lists mirror operand lists, and a definition is
    /// mirrored by its operation's output.
    pub open spec fn wf(&self) -> bool {
        &&& self.vns().len() <= u32::MAX
        &&& self.opv().len() <= u32::MAX
        &&& self.bls().len() <= u32::MAX
        &&& forall|v: VarnodeId| self.valid_vn(v) ==> #[trigger] self.vn_wf(v)
        &&& forall|o: OpId| self.valid_op(o) ==> #[trigger] self.op_wf(o)
        &&& forall|b: GraphBlockId| self.valid_block(b) ==> #[trigger] self.block_wf(b)
        &&& self.links()
    }

    /// Everything but the three arenas is unchanged.
    pub open spec fn same_header(&self, other: &Self) -> bool {
        &&& self.spec_entry() == other.spec_entry()
        &&& self.unique_cursor() == other.unique_cursor()
        &&& self.spec_big_endian() == other.spec_big_endian()
        &&& self.spec_spacebase() == other.spec_spacebase()
        &&& self.spec_processing_started() == other.spec_processing_started()
        &&& self.spec_processing_complete() == other.spec_processing_complete()
        &&& self.spec_type_recovery_on() == other.spec_type_recovery_on()
        &&& self.spec_type_recovery_started() == other.spec_type_recovery_started()
        &&& self.spec_clean_up_index() == other.spec_clean_up_index()
        &&& self.spec_high_level_index() == other.spec_high_level_index()
        &&& self.spec_high_level_on() == other.spec_high_level_on()
        &&& self.warning_list() == other.warning_list()
        &&& self.proto_slot() == other.proto_slot()
    }

    /// Only the header changed: the graph itself is untouched.
    pub open spec fn same_graph(&self, other: &Self) -> bool {
        &&& self.vns() == other.vns()
        &&& self.opv() == other.opv()
        &&& self.bls() == other.bls()
    }
}

/// A reader list: operation identifiers in strictly increasing order, so
/// each at most once.
pub open spec fn reader_list(s: Seq<OpId>) -> bool {
    &&& s.no_duplicates()
    &&& forall|i: int, j: int| 0 <= i < j < s.len() ==> (#[trigger] s[i]).0 < (#[trigger] s[j]).0
}

/// Every operation identifier in `s` is below `n`.
pub open spec fn ops_below(s: Seq<OpId>, n: int) -> bool {
    forall|k: int| 0 <= k < s.len() ==> (#[trigger] s[k]).0 < n
}

/// Every varnode identifier in `s` is below `n`.
pub open spec fn vns_below(s: Seq<VarnodeId>, n: int) -> bool {
    forall|k: int| 0 <= k < s.len() ==> (#[trigger] s[k]).0 < n
}

/// Every block identifier in `s` is below `n`.
pub open spec fn blocks_below(s: Seq<GraphBlockId>, n: int) -> bool {
    forall|k: int| 0 <= k < s.len() ==> (#[trigger] s[k]).0 < n
}

/// Extending a prefix by one element adds exactly that element.
pub proof fn lemma_take_step_contains<T>(s: Seq<T>, i: int, u: T)
    requires
        0 <= i < s.len(),
    ensures
        s.take(i + 1).contains(u) == (s.take(i).contains(u) || u == s[i]),
{
    let t = s.take(i + 1);
    let p = s.take(i);
    if t.contains(u) {
        let k = choose|k: int| 0 <= k < t.len() && t[k] == u;
        if k < i {
            assert(p[k] == u);
        }
    }
    if p.contains(u) {
        let k = choose|k: int| 0 <= k < p.len() && p[k] == u;
        assert(t[k] == u);
    }
    if u == s[i] {
        assert(t[i] == u);
    }
}

/// Well-formedness depends on the three arenas alone.
pub proof fn lemma_wf_same_graph(a: &Funcdata, b: &Funcdata)
    requires
        a.wf(),
        b.same_graph(a),
    ensures
        b.wf(),
{
    assert forall|v: VarnodeId| b.valid_vn(v) implies #[trigger] b.vn_wf(v) by {
        assert(a.vn_wf(v));
    }
    assert forall|o: OpId| b.valid_op(o) implies #[trigger] b.op_wf(o) by {
        assert(a.op_wf(o));
    }
    assert forall|x: GraphBlockId| b.valid_block(x) implies #[trigger] b.block_wf(x) by {
        assert(a.block_wf(x));
    }
    assert forall|v: VarnodeId, o: OpId|
        b.valid_vn(v) && b.valid_op(o) implies (b.read_by(v, o) <==> b.reads(o, v)) by {
        assert(a.read_by(v, o) <==> a.reads(o, v));
    }
}

/// Two varnodes agree on everything the graph invariant reads.
pub open spec fn same_links(a: GraphVarnode, b: GraphVarnode) -> bool {
    &&& a.def == b.def
    &&& a.descendants@ == b.descendants@
    &&& a.flags.written == b.flags.written
}

/// Changing what a varnode is, without changing how it is linked, keeps the
/// graph well formed.
pub proof fn lemma_wf_relabel(a: &Funcdata, b: &Funcdata)
    requires
        a.wf(),
        b.opv() == a.opv(),
        b.bls() == a.bls(),
        b.vns().len() == a.vns().len(),
        forall|v: VarnodeId| b.valid_vn(v) ==> same_links(#[trigger] b.vn(v), a.vn(v)),
    ensures
        b.wf(),
{
    assert forall|v: VarnodeId| b.valid_vn(v) implies #[trigger] b.vn_wf(v) by {
        assert(a.vn_wf(v));
        assert(same_links(b.vn(v), a.vn(v)));
    }
    assert forall|o: OpId| b.valid_op(o) implies #[trigger] b.op_wf(o) by {
        assert(a.op_wf(o));
    }
    assert forall|x: GraphBlockId| b.valid_block(x) implies #[trigger] b.block_wf(x) by {
        assert(a.block_wf(x));
    }
    assert forall|v: VarnodeId, o: OpId|
        b.valid_vn(v) && b.valid_op(o) implies (b.read_by(v, o) <==> b.reads(o, v)) by {
        assert(a.read_by(v, o) <==> a.reads(o, v));
        assert(same_links(b.vn(v), a.vn(v)));
    }
}

/// Two varnodes agree on everything but their reader lists.
pub open spec fn same_but_readers(a: GraphVarnode, b: GraphVarnode) -> bool {
    &&& a.space == b.space
    &&& a.offset == b.offset
    &&& a.size == b.size
    &&& a.flags == b.flags
    &&& a.def == b.def
}

} // verus!

verus! {

impl Default for Funcdata {
    fn default() -> (r: Self)
        ensures
            r.wf(),
            r.vns().len() == 0,
            r.opv().len() == 0,
            r.bls().len() == 0,
            r.spec_entry() == 0,
            r.unique_cursor() == 0,
            !r.spec_big_endian(),
            r.spec_spacebase() is None,
            !r.spec_processing_started(),
            !r.spec_processing_complete(),
            !r.spec_type_recovery_on(),
            !r.spec_type_recovery_started(),
            r.spec_clean_up_index() == 0,
            r.spec_high_level_index() == 0,
            !r.spec_high_level_on(),
            r.warning_list().len() == 0,
            r.proto_slot() is None,
    {
        Funcdata {
            entry: 0,
            varnodes: Vec::new(),
            ops: Vec::new(),
            blocks: Vec::new(),
            next_unique: 0,
            big_endian: false,
            spacebase: None,
            processing_started: false,
            processing_complete: false,
            type_recovery_on: false,
            type_recovery_started: false,
            clean_up_index: 0,
            high_level_index: 0,
            high_level_on: false,
            warnings: Vec::new(),
            func_proto: None,
        }
    }
}

impl Funcdata {
    /// An empty graph for the function that begins at `entry`.
    pub fn at_entry(entry: u64) -> (r: Self)
        ensures
            r.wf(),
            r.vns().len() == 0,
            r.opv().len() == 0,
            r.bls().len() == 0,
            r.spec_entry() == entry,
    {
        let mut r = Self::default();
        r.entry = entry;
        r
    }

    pub fn varnode(&self, id: VarnodeId) -> (r: &GraphVarnode)
        requires
            self.valid_vn(id),
        ensures
            *r == self.vn(id),
    {
        &self.varnodes[id.0 as usize]
    }

    pub fn op(&self, id: OpId) -> (r: &GraphOp)
        requires
            self.valid_op(id),
        ensures
            *r == self.opn(id),
    {
        &self.ops[id.0 as usize]
    }

    pub fn block(&self, id: GraphBlockId) -> (r: &GraphBlock)
        requires
            self.valid_block(id),
        ensures
            *r == self.blk(id),
    {
        &self.blocks[id.0 as usize]
    }

    /// The identifiers of every block still in the graph, in arena order.
    pub fn blocks(&self) -> (r: Vec<GraphBlockId>)
        requires
            self.bls().len() <= u32::MAX,
        ensures
            r@ == live_blocks(self.bls(), self.bls().len() as int),
    {
        let mut result: Vec<GraphBlockId> = Vec::new();
        let mut index: usize = 0;
        while index < self.blocks.len()
            invariant
                index <= self.blocks@.len() <= u32::MAX,
                result@ == live_blocks(self.blocks@, index as int),
            decreases self.blocks@.len() - index,
        {
            if !self.blocks[index].dead {
                result.push(GraphBlockId(index as u32));
            }
            index += 1;
        }
        result
    }

    /// The identifiers of every operation not yet destroyed, in arena order.
    pub fn live_ops(&self) -> (r: Vec<OpId>)
        requires
            self.opv().len() <= u32::MAX,
        ensures
            r@ == live_op_ids(self.opv(), self.opv().len() as int),
    {
        let mut result: Vec<OpId> = Vec::new();
        let mut index: usize = 0;
        while index < self.ops.len()
            invariant
                index <= self.ops@.len() <= u32::MAX,
                result@ == live_op_ids(self.ops@, index as int),
            decreases self.ops@.len() - index,
        {
            if !self.ops[index].dead {
                result.push(OpId(index as u32));
            }
            index += 1;
        }
        result
    }

    pub fn varnode_count(&self) -> (r: usize)
        ensures
            r == self.vns().len(),
    {
        self.varnodes.len()
    }

    /// The register that holds the frame base, when known.
    pub(crate) fn frame_base(&self) -> (r: Option<Location>)
        ensures
            r == self.spec_spacebase(),
    {
        self.spacebase
    }

    /// The number of block slots, removed ones included.
    pub(crate) fn block_arena_len(&self) -> (r: usize)
        ensures
            r == self.bls().len(),
    {
        self.blocks.len()
    }

    /// The number of operation slots, destroyed ones included.
    pub(crate) fn op_arena_len(&self) -> (r: usize)
        ensures
            r == self.opv().len(),
    {
        self.ops.len()
    }

    /// The number of operations not yet destroyed.
    pub fn op_count(&self) -> (r: usize)
        ensures
            r == live_op_count(self.opv(), self.opv().len() as int),
    {
        let mut count: usize = 0;
        let mut index: usize = 0;
        while index < self.ops.len()
            invariant
                index <= self.ops@.len(),
                count == live_op_count(self.ops@, index as int),
                count <= index,
            decreases self.ops@.len() - index,
        {
            if !self.ops[index].dead {
                count += 1;
            }
            index += 1;
        }
        count
    }
}

/// Live block identifiers among the first `n` slots.
pub open spec fn live_blocks(blocks: Seq<GraphBlock>, n: int) -> Seq<GraphBlockId>
    decreases n,
{
    if n <= 0 {
        Seq::empty()
    } else if blocks[n - 1].dead {
        live_blocks(blocks, n - 1)
    } else {
        live_blocks(blocks, n - 1).push(GraphBlockId((n - 1) as u32))
    }
}

/// Live operation identifiers among the first `n` slots.
pub open spec fn live_op_ids(ops: Seq<GraphOp>, n: int) -> Seq<OpId>
    decreases n,
{
    if n <= 0 {
        Seq::empty()
    } else if ops[n - 1].dead {
        live_op_ids(ops, n - 1)
    } else {
        live_op_ids(ops, n - 1).push(OpId((n - 1) as u32))
    }
}

/// Live operation identifiers name arena slots.
pub proof fn lemma_live_op_ids_below(ops: Seq<GraphOp>, n: int)
    requires
        0 <= n <= ops.len(),
    ensures
        ops_below(live_op_ids(ops, n), ops.len() as int),
        live_op_ids(ops, n).len() <= n,
    decreases n,
{
    if n > 0 {
        lemma_live_op_ids_below(ops, n - 1);
        let prev = live_op_ids(ops, n - 1);
        if !ops[n - 1].dead {
            let cur = prev.push(OpId((n - 1) as u32));
            assert forall|k: int| 0 <= k < cur.len() implies (#[trigger] cur[k]).0 < ops.len() by {
                if k < prev.len() {
                    assert(cur[k] == prev[k]);
                }
            }
        }
    }
}

/// Every live block among the first `n` slots is listed.
pub proof fn lemma_live_blocks_complete(blocks: Seq<GraphBlock>, n: int, b: GraphBlockId)
    requires
        0 <= b.0 < n <= blocks.len() <= u32::MAX,
        !blocks[b.0 as int].dead,
    ensures
        live_blocks(blocks, n).contains(b),
    decreases n,
{
    if b.0 + 1 == n {
        let cur = live_blocks(blocks, n);
        assert(cur[cur.len() - 1] == b);
    } else {
        lemma_live_blocks_complete(blocks, n - 1, b);
        let prev = live_blocks(blocks, n - 1);
        let k = choose|k: int| 0 <= k < prev.len() && prev[k] == b;
        if !blocks[n - 1].dead {
            assert(live_blocks(blocks, n)[k] == b);
        }
    }
}

/// Live block identifiers name arena slots.
pub proof fn lemma_live_blocks_below(blocks: Seq<GraphBlock>, n: int)
    requires
        0 <= n <= blocks.len() <= u32::MAX,
    ensures
        blocks_below(live_blocks(blocks, n), blocks.len() as int),
        live_blocks(blocks, n).len() <= n,
        forall|k: int| 0 <= k < live_blocks(blocks, n).len() ==> !blocks[(#[trigger] live_blocks(blocks, n)[k]).0 as int].dead,
    decreases n,
{
    if n > 0 {
        lemma_live_blocks_below(blocks, n - 1);
        let prev = live_blocks(blocks, n - 1);
        if !blocks[n - 1].dead {
            let cur = prev.push(GraphBlockId((n - 1) as u32));
            assert forall|k: int| 0 <= k < cur.len() implies (#[trigger] cur[k]).0 < blocks.len() && !blocks[cur[k].0 as int].dead by {
                if k < prev.len() {
                    assert(cur[k] == prev[k]);
                }
            }
        }
    }
}

/// How many of the first `n` operations are live.
pub open spec fn live_op_count(ops: Seq<GraphOp>, n: int) -> nat
    decreases n,
{
    if n <= 0 {
        0
    } else if ops[n - 1].dead {
        live_op_count(ops, n - 1)
    } else {
        live_op_count(ops, n - 1) + 1
    }
}

} // verus!

verus! {

/// A freshly created varnode at a location, with no definition and no reader.
pub open spec fn fresh_at(v: GraphVarnode, space: u32, offset: u64, size: u32) -> bool {
    &&& v.space == space
    &&& v.offset == offset
    &&& v.size == size
    &&& v.flags == VarnodeFlags { unique: space == UNIQUE_SPACE, ..no_flags() }
    &&& v.def is None
    &&& v.descendants@.len() == 0
}

impl Funcdata {
    /// Creates a value at a machine location. Each call produces a distinct
    /// varnode, because SSA needs one identity per definition of a location.
    pub fn new_varnode(&mut self, space: u32, offset: u64, size: u32) -> (id: VarnodeId)
        requires
            old(self).wf(),
            old(self).vns().len() < u32::MAX,
        ensures
            final(self).wf(),
            id.0 == old(self).vns().len(),
            final(self).vns().len() == old(self).vns().len() + 1,
            final(self).vns().take(old(self).vns().len() as int) == old(self).vns(),
            fresh_at(final(self).vn(id), space, offset, size),
            final(self).opv() == old(self).opv(),
            final(self).bls() == old(self).bls(),
            final(self).same_header(&*old(self)),
    {
        let id = VarnodeId(self.varnodes.len() as u32);
        let value = GraphVarnode {
            space,
            offset,
            size,
            flags: VarnodeFlags {
                constant: false,
                input: false,
                written: false,
                unique: space == UNIQUE_SPACE,
                volatile: false,
                direct_write: false,
                indirect_only: false,
            },
            def: None,
            descendants: Vec::new(),
        };
        self.varnodes.push(value);
        proof {
            let pre = old(self);
            assert(self.opv() == pre.opv());
            assert(self.bls() == pre.bls());
            assert(self.vns().take(pre.vns().len() as int) =~= pre.vns());
            assert forall|v: VarnodeId| self.valid_vn(v) implies #[trigger] self.vn_wf(v) by {
                if v != id {
                    assert(pre.vn_wf(v));
                    assert(self.vn(v) == pre.vn(v));
                }
            }
            assert forall|o: OpId| self.valid_op(o) implies #[trigger] self.op_wf(o) by {
                assert(pre.op_wf(o));
            }
            assert forall|b: GraphBlockId| self.valid_block(b) implies #[trigger] self.block_wf(b) by {
                assert(pre.block_wf(b));
            }
            assert forall|v: VarnodeId, o: OpId|
                self.valid_vn(v) && self.valid_op(o) implies (self.read_by(v, o) <==> self.reads(o, v)) by {
                if v == id {
                    assert(pre.op_wf(o));
                    if self.reads(o, v) {
                        let k = choose|k: int| 0 <= k < self.opn(o).inputs@.len() && self.opn(o).inputs@[k] == v;
                        assert(pre.valid_vn(self.opn(o).inputs@[k]));
                    }
                } else {
                    assert(pre.read_by(v, o) <==> pre.reads(o, v));
                }
            }
        }
        id
    }

    /// Creates a fresh temporary in the unique space.
    pub fn new_unique(&mut self, size: u32) -> (id: VarnodeId)
        requires
            old(self).wf(),
            old(self).vns().len() < u32::MAX,
        ensures
            final(self).wf(),
            id.0 == old(self).vns().len(),
            final(self).vns().len() == old(self).vns().len() + 1,
            final(self).vns().take(old(self).vns().len() as int) == old(self).vns(),
            fresh_at(final(self).vn(id), UNIQUE_SPACE, old(self).unique_cursor(), size),
            final(self).unique_cursor() == (if old(self).unique_cursor() + (if size == 0 { 1 } else { size as int }) > u64::MAX {
                u64::MAX as int
            } else {
                old(self).unique_cursor() + (if size == 0 { 1 } else { size as int })
            }),
            final(self).opv() == old(self).opv(),
            final(self).bls() == old(self).bls(),
            final(self).spec_entry() == old(self).spec_entry(),
            final(self).spec_big_endian() == old(self).spec_big_endian(),
            final(self).spec_spacebase() == old(self).spec_spacebase(),
            final(self).spec_processing_started() == old(self).spec_processing_started(),
            final(self).spec_processing_complete() == old(self).spec_processing_complete(),
            final(self).spec_type_recovery_on() == old(self).spec_type_recovery_on(),
            final(self).spec_type_recovery_started() == old(self).spec_type_recovery_started(),
            final(self).spec_clean_up_index() == old(self).spec_clean_up_index(),
            final(self).spec_high_level_index() == old(self).spec_high_level_index(),
            final(self).spec_high_level_on() == old(self).spec_high_level_on(),
            final(self).warning_list() == old(self).warning_list(),
            final(self).proto_slot() == old(self).proto_slot(),
    {
        let offset = self.next_unique;
        let step: u64 = if size == 0 { 1 } else { size as u64 };
        self.next_unique = self.next_unique.saturating_add(step);
        let ghost mid = *self;
        proof {
            assert(mid.same_graph(&*old(self)));
            lemma_wf_same_graph(&*old(self), &mid);
        }
        self.new_varnode(UNIQUE_SPACE, offset, size)
    }

    /// Creates a constant value.
    pub fn new_constant(&mut self, value: u64, size: u32) -> (id: VarnodeId)
        requires
            old(self).wf(),
            old(self).vns().len() < u32::MAX,
        ensures
            final(self).wf(),
            id.0 == old(self).vns().len(),
            final(self).vns().len() == old(self).vns().len() + 1,
            final(self).vns().take(old(self).vns().len() as int) == old(self).vns(),
            final(self).vn(id).space == CONST_SPACE,
            final(self).vn(id).offset == value,
            final(self).vn(id).size == size,
            final(self).vn(id).flags == (VarnodeFlags { constant: true, ..no_flags() }),
            (final(self).vn(id).def is None),
            final(self).vn(id).descendants@.len() == 0,
            final(self).opv() == old(self).opv(),
            final(self).bls() == old(self).bls(),
            final(self).same_header(&*old(self)),
    {
        let id = self.new_varnode(CONST_SPACE, value, size);
        let ghost mid = *self;
        self.varnodes[id.0 as usize].flags.constant = true;
        proof {
            let pre = old(self);
            assert(self.opv() == mid.opv());
            assert(self.bls() == mid.bls());
            assert forall|v: VarnodeId| self.valid_vn(v) implies #[trigger] self.vn_wf(v) by {
                assert(mid.vn_wf(v));
                if v != id {
                    assert(self.vn(v) == mid.vn(v));
                } else {
                    assert(same_but_readers(self.vn(v), mid.vn(v)) || true);
                    assert(self.vn(v).descendants == mid.vn(v).descendants);
                    assert(self.vn(v).def == mid.vn(v).def);
                    assert(self.vn(v).flags.written == mid.vn(v).flags.written);
                }
            }
            assert forall|o: OpId| self.valid_op(o) implies #[trigger] self.op_wf(o) by {
                assert(mid.op_wf(o));
            }
            assert forall|b: GraphBlockId| self.valid_block(b) implies #[trigger] self.block_wf(b) by {
                assert(mid.block_wf(b));
            }
            assert forall|v: VarnodeId, o: OpId|
                self.valid_vn(v) && self.valid_op(o) implies (self.read_by(v, o) <==> self.reads(o, v)) by {
                assert(mid.read_by(v, o) <==> mid.reads(o, v));
                assert(self.vn(v).descendants == mid.vn(v).descendants);
            }
            assert(self.vns().take(pre.vns().len() as int) =~= pre.vns());
        }
        id
    }
}

} // verus!

verus! {

impl Funcdata {
    /// Marks a value as entering the function without a definition.
    pub fn mark_input(&mut self, id: VarnodeId)
        requires
            old(self).wf(),
            old(self).valid_vn(id),
        ensures
            final(self).wf(),
            final(self).vns() == old(self).vns().update(
                id.0 as int,
                GraphVarnode {
                    flags: VarnodeFlags { input: true, ..old(self).vn(id).flags },
                    ..old(self).vn(id)
                },
            ),
            final(self).opv() == old(self).opv(),
            final(self).bls() == old(self).bls(),
            final(self).same_header(&*old(self)),
    {
        self.varnodes[id.0 as usize].flags.input = true;
        proof {
            lemma_wf_relabel(&*old(self), self);
        }
        assert(self.vns() =~= old(self).vns().update(
            id.0 as int,
            GraphVarnode {
                flags: VarnodeFlags { input: true, ..old(self).vn(id).flags },
                ..old(self).vn(id)
            },
        ));
    }

    /// Marks an input as directly affected by a legal function input.
    pub fn mark_direct_write(&mut self, id: VarnodeId)
        requires
            old(self).wf(),
            old(self).valid_vn(id),
        ensures
            final(self).wf(),
            final(self).vns() == old(self).vns().update(
                id.0 as int,
                GraphVarnode {
                    flags: VarnodeFlags { direct_write: true, ..old(self).vn(id).flags },
                    ..old(self).vn(id)
                },
            ),
            final(self).opv() == old(self).opv(),
            final(self).bls() == old(self).bls(),
            final(self).same_header(&*old(self)),
    {
        self.varnodes[id.0 as usize].flags.direct_write = true;
        proof {
            lemma_wf_relabel(&*old(self), self);
        }
        assert(self.vns() =~= old(self).vns().update(
            id.0 as int,
            GraphVarnode {
                flags: VarnodeFlags { direct_write: true, ..old(self).vn(id).flags },
                ..old(self).vn(id)
            },
        ));
    }
}

} // verus!

verus! {

/// The text of each diagnostic.
pub open spec fn texts(list: Seq<String>) -> Seq<Seq<char>> {
    list.map_values(|w: String| w@)
}

impl Funcdata {
    pub fn func_proto(&self) -> (r: Option<&crate::funcproto::FuncProto>)
        ensures
            r == (match self.proto_slot() {
                Some(p) => Some(&p),
                None => None,
            }),
    {
        self.func_proto.as_ref()
    }

    /// The prototype, to change in place.
    pub fn func_proto_mut(&mut self) -> (r: Option<&mut crate::funcproto::FuncProto>)
        ensures
            r is Some <==> old(self).proto_slot() is Some,
            r matches Some(p) ==> *p == old(self).proto_slot().unwrap() && final(self).proto_slot() == Some(*final(p)),
            r is None ==> *final(self) == *old(self),
            final(self).same_graph(&*old(self)),
            final(self).spec_entry() == old(self).spec_entry(),
            final(self).unique_cursor() == old(self).unique_cursor(),
            final(self).warning_list() == old(self).warning_list(),
    {
        match &mut self.func_proto {
            Some(p) => Some(p),
            None => None,
        }
    }

    pub fn set_func_proto(&mut self, proto: crate::funcproto::FuncProto)
        requires
            old(self).wf(),
        ensures
            final(self).wf(),
            final(self).proto_slot() == Some(proto),
            final(self).same_graph(&*old(self)),
            final(self).warning_list() == old(self).warning_list(),
    {
        self.func_proto = Some(proto);
        proof {
            lemma_wf_same_graph(&*old(self), self);
        }
    }

    /// Records a diagnostic, ignoring one already present.
    pub fn warning(&mut self, message: String) -> (added: bool)
        requires
            old(self).wf(),
        ensures
            final(self).wf(),
            added == !texts(old(self).warning_list()).contains(message@),
            final(self).warning_list() == (if added {
                old(self).warning_list().push(message)
            } else {
                old(self).warning_list()
            }),
            final(self).same_graph(&*old(self)),
            final(self).proto_slot() == old(self).proto_slot(),
    {
        if self.has_warning(&message) {
            return false;
        }
        self.warnings.push(message);
        proof {
            lemma_wf_same_graph(&*old(self), self);
        }
        true
    }

    fn has_warning(&self, message: &String) -> (r: bool)
        ensures
            r == texts(self.warning_list()).contains(message@),
    {
        let mut index: usize = 0;
        while index < self.warnings.len()
            invariant
                index <= self.warnings@.len(),
                forall|k: int| 0 <= k < index ==> self.warnings@[k]@ != message@,
            decreases self.warnings@.len() - index,
        {
            if self.warnings[index] == *message {
                assert(texts(self.warnings@)[index as int] == message@);
                return true;
            }
            index += 1;
        }
        assert(!texts(self.warnings@).contains(message@)) by {
            if texts(self.warnings@).contains(message@) {
                let k = choose|k: int|
                    0 <= k < texts(self.warnings@).len() && texts(self.warnings@)[k] == message@;
                assert(self.warnings@[k]@ == message@);
            }
        }
        false
    }

    pub fn warnings(&self) -> (r: &[String])
        ensures
            r@ == self.warning_list(),
    {
        self.warnings.as_slice()
    }

    /// Starts raw p-code processing for this graph.
    pub fn start_processing(&mut self)
        requires
            old(self).wf(),
        ensures
            final(self).wf(),
            final(self).spec_processing_started(),
            final(self).same_graph(&*old(self)),
    {
        self.processing_started = true;
        proof {
            lemma_wf_same_graph(&*old(self), self);
        }
    }

    /// Marks this graph as fully processed.
    pub fn stop_processing(&mut self)
        requires
            old(self).wf(),
        ensures
            final(self).wf(),
            final(self).spec_processing_complete(),
            final(self).spec_processing_started() == old(self).spec_processing_started(),
            final(self).same_graph(&*old(self)),
    {
        self.processing_complete = true;
        proof {
            lemma_wf_same_graph(&*old(self), self);
        }
    }

    /// Enables or disables type recovery for this graph.
    pub fn set_type_recovery(&mut self, enabled: bool)
        requires
            old(self).wf(),
        ensures
            final(self).wf(),
            final(self).spec_type_recovery_on() == enabled,
            final(self).spec_type_recovery_started() == old(self).spec_type_recovery_started(),
            final(self).same_graph(&*old(self)),
    {
        self.type_recovery_on = enabled;
        proof {
            lemma_wf_same_graph(&*old(self), self);
        }
    }

    /// Starts type-recovery propagation once; `true` only on the first start.
    pub fn start_type_recovery(&mut self) -> (first: bool)
        requires
            old(self).wf(),
        ensures
            final(self).wf(),
            first == !old(self).spec_type_recovery_started(),
            final(self).spec_type_recovery_started(),
            final(self).spec_type_recovery_on() == old(self).spec_type_recovery_on(),
            final(self).same_graph(&*old(self)),
    {
        if self.type_recovery_started {
            return false;
        }
        self.type_recovery_started = true;
        proof {
            lemma_wf_same_graph(&*old(self), self);
        }
        true
    }

    /// Records the beginning of cleanup at the current varnode creation index.
    pub fn start_clean_up(&mut self)
        requires
            old(self).wf(),
        ensures
            final(self).wf(),
            final(self).spec_clean_up_index() == old(self).vns().len(),
            final(self).same_graph(&*old(self)),
    {
        self.clean_up_index = self.varnodes.len();
        proof {
            lemma_wf_same_graph(&*old(self), self);
        }
    }

    /// Enables high-level variable assignment at the current creation index,
    /// recording the boundary only the first time.
    pub fn set_high_level(&mut self)
        requires
            old(self).wf(),
        ensures
            final(self).wf(),
            final(self).spec_high_level_on(),
            final(self).spec_high_level_index() == (if old(self).spec_high_level_on() {
                old(self).spec_high_level_index()
            } else {
                old(self).vns().len() as usize
            }),
            final(self).same_graph(&*old(self)),
    {
        if self.high_level_on {
            return;
        }
        self.high_level_on = true;
        self.high_level_index = self.varnodes.len();
        proof {
            lemma_wf_same_graph(&*old(self), self);
        }
    }

    pub fn is_proc_started(&self) -> (r: bool)
        ensures
            r == self.spec_processing_started(),
    {
        self.processing_started
    }

    pub fn is_proc_complete(&self) -> (r: bool)
        ensures
            r == self.spec_processing_complete(),
    {
        self.processing_complete
    }

    pub fn is_type_recovery_on(&self) -> (r: bool)
        ensures
            r == self.spec_type_recovery_on(),
    {
        self.type_recovery_on
    }

    pub fn has_type_recovery_started(&self) -> (r: bool)
        ensures
            r == self.spec_type_recovery_started(),
    {
        self.type_recovery_started
    }

    pub fn is_high_on(&self) -> (r: bool)
        ensures
            r == self.spec_high_level_on(),
    {
        self.high_level_on
    }
}

} // verus!

verus! {

/// Rewiring one operation's operands keeps the graph well formed, provided
/// the readers of every value are updated to match that operation's new
/// operands and nothing else moved.
pub proof fn lemma_wf_rewire(a: &Funcdata, b: &Funcdata, t: OpId)
    requires
        a.wf(),
        a.valid_op(t),
        b.vns().len() == a.vns().len(),
        b.opv().len() == a.opv().len(),
        b.bls() == a.bls(),
        forall|v: VarnodeId|
            #![trigger b.vn(v)]
            b.valid_vn(v) ==> {
                &&& b.vn(v).def == a.vn(v).def
                &&& b.vn(v).flags.written == a.vn(v).flags.written
                &&& reader_list(b.vn(v).descendants@)
                &&& ops_below(b.vn(v).descendants@, b.opv().len() as int)
            },
        forall|o: OpId| #![trigger b.opn(o)] b.valid_op(o) && o != t ==> b.opn(o) == a.opn(o),
        b.opn(t).output == a.opn(t).output,
        b.opn(t).parent == a.opn(t).parent,
        vns_below(b.opn(t).inputs@, b.vns().len() as int),
        forall|v: VarnodeId, x: OpId|
            #![trigger b.read_by(v, x)]
            b.valid_vn(v) && b.valid_op(x) && x != t ==> (b.read_by(v, x) == a.read_by(v, x)),
        forall|v: VarnodeId| #![trigger b.read_by(v, t)] b.valid_vn(v) ==> (b.read_by(v, t) == b.reads(t, v)),
    ensures
        b.wf(),
{
    assert forall|v: VarnodeId| b.valid_vn(v) implies #[trigger] b.vn_wf(v) by {
        assert(a.vn_wf(v));
        if let Some(o) = b.vn(v).def {
            if o != t {
                assert(b.opn(o) == a.opn(o));
            }
        }
    }
    assert forall|o: OpId| b.valid_op(o) implies #[trigger] b.op_wf(o) by {
        assert(a.op_wf(o));
        if o != t {
            assert(b.opn(o) == a.opn(o));
        }
    }
    assert forall|x: GraphBlockId| b.valid_block(x) implies #[trigger] b.block_wf(x) by {
        assert(a.block_wf(x));
    }
    assert forall|v: VarnodeId, o: OpId|
        b.valid_vn(v) && b.valid_op(o) implies (b.read_by(v, o) <==> b.reads(o, v)) by {
        if o != t {
            assert(a.read_by(v, o) <==> a.reads(o, v));
            assert(b.opn(o) == a.opn(o));
        }
    }
}

/// Adds `o` to a reader list at its place in the order, unless it is there.
fn insert_reader(list: &mut Vec<OpId>, o: OpId)
    requires
        reader_list(old(list)@),
    ensures
        reader_list(final(list)@),
        forall|x: OpId| #![trigger final(list)@.contains(x)] final(list)@.contains(x) <==> (old(list)@.contains(x) || x == o),
        final(list)@.len() <= old(list)@.len() + 1,
{
    let mut i: usize = 0;
    while i < list.len()
        invariant
            list@ == old(list)@,
            reader_list(list@),
            i <= list@.len(),
            forall|k: int| 0 <= k < i ==> (#[trigger] list@[k]).0 < o.0,
        ensures
            list@ == old(list)@,
            i <= list@.len(),
            forall|k: int| 0 <= k < i ==> (#[trigger] list@[k]).0 < o.0,
            i < list@.len() ==> list@[i as int].0 > o.0,
        decreases list@.len() - i,
    {
        let q = list[i];
        if q.0 == o.0 {
            proof {
                assert(list@[i as int] == o);
                assert forall|x: OpId| #![trigger list@.contains(x)] list@.contains(x) <==> (old(list)@.contains(x) || x == o) by {}
            }
            return;
        }
        if q.0 > o.0 {
            break;
        }
        i += 1;
    }
    let ghost before = list@;
    list.insert(i, o);
    proof {
        assert(list@ == before.insert(i as int, o));
        assert forall|a: int, b: int| 0 <= a < b < list@.len() implies (#[trigger] list@[a]).0 < (#[trigger] list@[b]).0 by {
            if b < i {
                assert(list@[a] == before[a] && list@[b] == before[b]);
            } else if b == i {
                assert(list@[a] == before[a]);
            } else if a < i {
                assert(list@[a] == before[a] && list@[b] == before[b - 1]);
                if b - 1 > i {
                    assert(before[i as int].0 < before[b - 1].0);
                }
            } else if a == i {
                assert(list@[b] == before[b - 1]);
                if b - 1 > i {
                    assert(before[i as int].0 < before[b - 1].0);
                }
            } else {
                assert(list@[a] == before[a - 1] && list@[b] == before[b - 1]);
            }
        }
        assert(list@.no_duplicates()) by {
            assert forall|a: int, b: int| 0 <= a < list@.len() && 0 <= b < list@.len() && a != b implies list@[a] != list@[b] by {
                if a < b {
                    assert(list@[a].0 < list@[b].0);
                } else {
                    assert(list@[b].0 < list@[a].0);
                }
            }
        }
        assert forall|x: OpId| #![trigger list@.contains(x)] list@.contains(x) <==> (before.contains(x) || x == o) by {
            if list@.contains(x) {
                let k = choose|k: int| 0 <= k < list@.len() && list@[k] == x;
                if k < i {
                    assert(before[k] == x);
                } else if k > i {
                    assert(before[k - 1] == x);
                }
            }
            if before.contains(x) {
                let k = choose|k: int| 0 <= k < before.len() && before[k] == x;
                if k < i {
                    assert(list@[k] == x);
                } else {
                    assert(list@[k + 1] == x);
                }
            }
            if x == o {
                assert(list@[i as int] == o);
            }
        }
    }
}

impl Funcdata {
    /// Adds `o` to the readers of `v` unless it is already there.
    fn reader_insert(&mut self, v: VarnodeId, o: OpId)
        requires
            old(self).valid_vn(v),
            reader_list(old(self).vn(v).descendants@),
        ensures
            final(self).vns().len() == old(self).vns().len(),
            forall|u: VarnodeId| #![trigger final(self).vn(u)] final(self).valid_vn(u) && u != v ==> final(self).vn(u) == old(self).vn(u),
            same_but_readers(final(self).vn(v), old(self).vn(v)),
            reader_list(final(self).vn(v).descendants@),
            forall|x: OpId| #![trigger final(self).vn(v).descendants@.contains(x)]
                final(self).vn(v).descendants@.contains(x) <==> (old(self).vn(v).descendants@.contains(x) || x == o),
            final(self).vn(v).descendants@.len() <= old(self).vn(v).descendants@.len() + 1,
            forall|x: OpId| #![trigger final(self).vn(v).descendants@.contains(x)]
                final(self).vn(v).descendants@.contains(x) ==> (old(self).vn(v).descendants@.contains(x) || x == o),
            final(self).opv() == old(self).opv(),
            final(self).bls() == old(self).bls(),
            final(self).same_header(&*old(self)),
    {
        let index = v.0 as usize;
        insert_reader(&mut self.varnodes[index].descendants, o);
        proof {
            assert forall|u: VarnodeId| #![trigger self.vn(u)] self.valid_vn(u) && u != v implies self.vn(u) == old(self).vn(u) by {
                assert(u.0 != v.0);
            }
        }
    }

    /// Removes `o` from the readers of `v`.
    fn reader_remove(&mut self, v: VarnodeId, o: OpId)
        requires
            old(self).valid_vn(v),
            reader_list(old(self).vn(v).descendants@),
        ensures
            final(self).vns().len() == old(self).vns().len(),
            forall|u: VarnodeId| #![trigger final(self).vn(u)] final(self).valid_vn(u) && u != v ==> final(self).vn(u) == old(self).vn(u),
            same_but_readers(final(self).vn(v), old(self).vn(v)),
            reader_list(final(self).vn(v).descendants@),
            forall|x: OpId| #![trigger final(self).vn(v).descendants@.contains(x)]
                final(self).vn(v).descendants@.contains(x) <==> (old(self).vn(v).descendants@.contains(x) && x != o),
            ops_below(old(self).vn(v).descendants@, old(self).opv().len() as int) ==> ops_below(
                final(self).vn(v).descendants@,
                old(self).opv().len() as int,
            ),
            final(self).opv() == old(self).opv(),
            final(self).bls() == old(self).bls(),
            final(self).same_header(&*old(self)),
    {
        let index = v.0 as usize;
        let found = position_of_op(&self.varnodes[index].descendants, o);
        if let Some(k) = found {
            self.varnodes[index].descendants.remove(k);
            proof {
                let s = self.vn(v).descendants@;
                let t = old(self).vn(v).descendants@;
                assert(s == t.remove(k as int));
                assert forall|i: int, j: int| 0 <= i < j < s.len() implies s[i] != s[j] by {
                    let ii = if i < k { i } else { i + 1 };
                    let jj = if j < k { j } else { j + 1 };
                    assert(s[i] == t[ii]);
                    assert(s[j] == t[jj]);
                }
                assert forall|i: int| 0 <= i < s.len() implies s[i] == t[if i < k { i } else { i + 1 }] by {}
                assert forall|x: OpId| s.contains(x) <==> (t.contains(x) && x != o) by {
                    if s.contains(x) {
                        let i = choose|i: int| 0 <= i < s.len() && s[i] == x;
                        let ii = if i < k { i } else { i + 1 };
                        assert(t[ii] == x);
                        assert(ii != k);
                    }
                    if t.contains(x) && x != o {
                        let i = choose|i: int| 0 <= i < t.len() && t[i] == x;
                        assert(i != k);
                        if i < k {
                            assert(s[i] == x);
                        } else {
                            assert(s[i - 1] == x);
                        }
                    }
                }
            }
        }
        proof {
            assert forall|u: VarnodeId| #![trigger self.vn(u)] self.valid_vn(u) && u != v implies self.vn(u) == old(self).vn(u) by {
                assert(u.0 != v.0);
            }
        }
    }
}

/// Whether `ids` names `o`.
pub fn ids_contain_op(ids: &Vec<OpId>, o: OpId) -> (r: bool)
    ensures
        r == ids@.contains(o),
{
    let mut i: usize = 0;
    while i < ids.len()
        invariant
            i <= ids@.len(),
            forall|k: int| 0 <= k < i ==> ids@[k] != o,
        decreases ids@.len() - i,
    {
        if ids[i] == o {
            return true;
        }
        i += 1;
    }
    false
}

/// The first slot of `ids` holding `o`.
pub fn position_of_op(ids: &Vec<OpId>, o: OpId) -> (r: Option<usize>)
    ensures
        match r {
            Some(k) => k < ids@.len() && ids@[k as int] == o && forall|j: int| 0 <= j < k ==> ids@[j] != o,
            None => !ids@.contains(o),
        },
{
    let mut i: usize = 0;
    while i < ids.len()
        invariant
            i <= ids@.len(),
            forall|k: int| 0 <= k < i ==> ids@[k] != o,
        decreases ids@.len() - i,
    {
        if ids[i] == o {
            return Some(i);
        }
        i += 1;
    }
    None
}

} // verus!

verus! {

/// The operand list after `value` is written into `slot`, padding with
/// `value` when the list is shorter than the slot.
pub open spec fn set_slot(inputs: Seq<VarnodeId>, value: VarnodeId, slot: int) -> Seq<VarnodeId> {
    if slot < inputs.len() {
        inputs.update(slot, value)
    } else {
        inputs + Seq::new((slot + 1 - inputs.len()) as nat, |_i: int| value)
    }
}

/// Whether some slot other than `slot` holds `v`.
pub open spec fn held_elsewhere(inputs: Seq<VarnodeId>, v: VarnodeId, slot: int) -> bool {
    exists|k: int| 0 <= k < inputs.len() && k != slot && inputs[k] == v
}

fn held_elsewhere_exec(inputs: &Vec<VarnodeId>, v: VarnodeId, slot: usize) -> (r: bool)
    ensures
        r == held_elsewhere(inputs@, v, slot as int),
{
    let mut i: usize = 0;
    while i < inputs.len()
        invariant
            i <= inputs@.len(),
            forall|k: int| 0 <= k < i && k != slot ==> inputs@[k] != v,
        decreases inputs@.len() - i,
    {
        if i != slot && inputs[i] == v {
            return true;
        }
        i += 1;
    }
    false
}

impl Funcdata {
    /// Sets one operand, maintaining the descendant list on both sides.
    ///
    /// A slot past the end grows the operand list, and the slots in between
    /// take the same value.
    pub fn op_set_input(&mut self, op: OpId, value: VarnodeId, slot: usize)
        requires
            old(self).wf(),
            old(self).valid_op(op),
            old(self).valid_vn(value),
            slot < usize::MAX,
        ensures
            final(self).wf(),
            final(self).opn(op).inputs@ == set_slot(old(self).opn(op).inputs@, value, slot as int),
            final(self).read_by(value, op),
            forall|p: VarnodeId|
                #![trigger final(self).read_by(p, op)]
                final(self).valid_vn(p) ==> (final(self).read_by(p, op) <==> final(self).opn(op).inputs@.contains(p)),
            final(self).opn(op).opcode == old(self).opn(op).opcode,
            final(self).opn(op).seq == old(self).opn(op).seq,
            final(self).opn(op).output == old(self).opn(op).output,
            final(self).opn(op).parent == old(self).opn(op).parent,
            final(self).opn(op).dead == old(self).opn(op).dead,
            final(self).opv().len() == old(self).opv().len(),
            forall|o: OpId| #![trigger final(self).opn(o)] final(self).valid_op(o) && o != op ==> final(self).opn(o) == old(self).opn(o),
            final(self).vns().len() == old(self).vns().len(),
            forall|v: VarnodeId| #![trigger final(self).vn(v)] final(self).valid_vn(v) ==> same_but_readers(final(self).vn(v), old(self).vn(v)),
            final(self).bls() == old(self).bls(),
            final(self).same_header(&*old(self)),
    {
        let ghost pre = *old(self);
        proof {
            pre.lemma_frame_start(op);
            assert(pre.op_wf(op));
        }
        let index = op.0 as usize;
        let length = self.ops[index].inputs.len();
        let mut dropped = false;
        if slot < length {
            let previous = self.ops[index].inputs[slot];
            if previous != value && !held_elsewhere_exec(&self.ops[index].inputs, previous, slot) {
                self.unlink(previous, op, Ghost(pre));
                dropped = true;
            }
        }
        let ghost mid = *self;
        self.link(value, op, Ghost(pre));
        let ghost mid2 = *self;
        let mut inputs = take_inputs(&mut self.ops[index]);
        if slot < length {
            inputs.set(slot, value);
        } else {
            let mut filled = length;
            while filled <= slot
                invariant
                    length <= filled <= slot + 1,
                    slot < usize::MAX,
                    slot >= length,
                    length == pre.opn(op).inputs@.len(),
                    inputs@ == pre.opn(op).inputs@ + Seq::new((filled - length) as nat, |_i: int| value),
                decreases slot + 1 - filled,
            {
                inputs.push(value);
                assert(inputs@ =~= pre.opn(op).inputs@ + Seq::new((filled + 1 - length) as nat, |_i: int| value));
                filled += 1;
            }
        }
        self.ops[index].inputs = inputs;
        proof {
            let post = *self;
            let ins = set_slot(pre.opn(op).inputs@, value, slot as int);
            let old_in = pre.opn(op).inputs@;
            assert(post.opn(op).inputs@ =~= ins);
            assert forall|o: OpId| #![trigger post.opn(o)] post.valid_op(o) && o != op implies post.opn(o) == pre.opn(o) by {
                assert(o.0 != op.0);
                assert(mid2.opn(o) == pre.opn(o));
            }
            assert(vns_below(ins, post.vns().len() as int)) by {
                assert forall|k: int| 0 <= k < ins.len() implies (#[trigger] ins[k]).0 < post.vns().len() by {
                    if k < old_in.len() && k != slot {
                        assert(ins[k] == old_in[k]);
                    }
                }
            }
            assert forall|v: VarnodeId| #![trigger post.vn(v)] post.valid_vn(v) implies {
                &&& post.vn(v).def == pre.vn(v).def
                &&& post.vn(v).flags.written == pre.vn(v).flags.written
                &&& reader_list(post.vn(v).descendants@)
                &&& ops_below(post.vn(v).descendants@, post.opv().len() as int)
                &&& same_but_readers(post.vn(v), pre.vn(v))
            } by {
                assert(post.vn(v) == mid2.vn(v));
            }
            assert forall|v: VarnodeId, x: OpId|
                #![trigger post.read_by(v, x)]
                post.valid_vn(v) && post.valid_op(x) && x != op implies (post.read_by(v, x) == pre.read_by(v, x)) by {
                assert(post.vn(v) == mid2.vn(v));
                assert(mid2.read_by(v, x) == pre.read_by(v, x));
            }
            assert forall|v: VarnodeId| #![trigger post.read_by(v, op)] post.valid_vn(v) implies (post.read_by(v, op) == post.reads(op, v)) by {
                assert(post.vn(v) == mid2.vn(v));
                assert(pre.read_by(v, op) <==> pre.reads(op, v));
                assert(mid2.read_by(v, op) == (mid.read_by(v, op) || v == value));
                if v == value {
                    assert(ins[slot as int] == value);
                } else {
                    assert(ins.contains(v) ==> old_in.contains(v)) by {
                        if ins.contains(v) {
                            let k = choose|k: int| 0 <= k < ins.len() && ins[k] == v;
                            assert(old_in[k] == v);
                        }
                    }
                    if dropped {
                        let p = old_in[slot as int];
                        if v == p {
                            assert(!ins.contains(v)) by {
                                if ins.contains(v) {
                                    let k = choose|k: int| 0 <= k < ins.len() && ins[k] == v;
                                    assert(old_in[k] == v && k != slot);
                                }
                            }
                        } else {
                            assert(old_in.contains(v) ==> ins.contains(v)) by {
                                if old_in.contains(v) {
                                    let k = choose|k: int| 0 <= k < old_in.len() && old_in[k] == v;
                                    assert(ins[k] == v);
                                }
                            }
                        }
                    } else {
                        assert(old_in.contains(v) ==> ins.contains(v)) by {
                            if old_in.contains(v) {
                                let k = choose|k: int| 0 <= k < old_in.len() && old_in[k] == v;
                                if k == slot && slot < old_in.len() {
                                    let p = old_in[slot as int];
                                    assert(p == value || held_elsewhere(old_in, p, slot as int));
                                    let j = choose|j: int| 0 <= j < old_in.len() && j != slot && old_in[j] == p;
                                    assert(ins[j] == v);
                                } else {
                                    assert(ins[k] == v);
                                }
                            }
                        }
                    }
                }
            }
            lemma_wf_rewire(&pre, &post, op);
            assert(post.op_wf(op));
            assert(post.opn(op).inputs@.contains(value)) by {
                let ins = post.opn(op).inputs@;
                if (slot as int) < pre.opn(op).inputs@.len() {
                    assert(ins[slot as int] == value);
                } else {
                    assert(ins[ins.len() - 1] == value);
                }
            }
            assert(post.reads(op, value));
        }
    }
}

/// Moves an operation's operand list out, leaving it empty.
fn take_inputs(op: &mut GraphOp) -> (r: Vec<VarnodeId>)
    ensures
        r@ == old(op).inputs@,
        final(op).inputs@.len() == 0,
        final(op).opcode == old(op).opcode,
        final(op).seq == old(op).seq,
        final(op).output == old(op).output,
        final(op).parent == old(op).parent,
        final(op).dead == old(op).dead,
{
    let mut r = Vec::new();
    std::mem::swap(&mut r, &mut op.inputs);
    r
}

} // verus!

verus! {

impl Funcdata {
    /// Relative to `pre`, only the reader lists changed, and only in whether
    /// they name `t`; every list still names live arena slots once each.
    pub open spec fn rewire_frame(&self, pre: &Self, t: OpId) -> bool {
        &&& self.vns().len() == pre.vns().len()
        &&& self.opv() == pre.opv()
        &&& self.bls() == pre.bls()
        &&& self.same_header(pre)
        &&& forall|v: VarnodeId|
            #![trigger self.vn(v)]
            self.valid_vn(v) ==> {
                &&& same_but_readers(self.vn(v), pre.vn(v))
                &&& reader_list(self.vn(v).descendants@)
                &&& ops_below(self.vn(v).descendants@, self.opv().len() as int)
            }
        &&& forall|v: VarnodeId, x: OpId|
            #![trigger self.read_by(v, x)]
            self.valid_vn(v) && self.valid_op(x) && x != t ==> (self.read_by(v, x) == pre.read_by(v, x))
    }

    /// Drops `t` from the readers of `v`.
    fn unlink(&mut self, v: VarnodeId, t: OpId, Ghost(pre): Ghost<Funcdata>)
        requires
            old(self).rewire_frame(&pre, t),
            old(self).valid_vn(v),
            old(self).valid_op(t),
        ensures
            final(self).rewire_frame(&pre, t),
            forall|u: VarnodeId|
                #![trigger final(self).read_by(u, t)]
                final(self).valid_vn(u) ==> (final(self).read_by(u, t) == (old(self).read_by(u, t) && u != v)),
            forall|u: VarnodeId| #![trigger final(self).vn(u)] final(self).valid_vn(u) && u != v ==> final(self).vn(u) == old(self).vn(u),
    {
        proof {
            assert(reader_list(old(self).vn(v).descendants@));
            assert(ops_below(old(self).vn(v).descendants@, old(self).opv().len() as int));
        }
        self.reader_remove(v, t);
        proof {
            assert forall|u: VarnodeId| #![trigger self.vn(u)] self.valid_vn(u) implies {
                &&& same_but_readers(self.vn(u), pre.vn(u))
                &&& reader_list(self.vn(u).descendants@)
                &&& ops_below(self.vn(u).descendants@, self.opv().len() as int)
            } by {
                assert(same_but_readers(old(self).vn(u), pre.vn(u)));
            }
            assert forall|u: VarnodeId, x: OpId|
                #![trigger self.read_by(u, x)]
                self.valid_vn(u) && self.valid_op(x) && x != t implies (self.read_by(u, x) == pre.read_by(u, x)) by {
                assert(old(self).read_by(u, x) == pre.read_by(u, x));
            }
        }
    }

    /// Adds `t` to the readers of `v`.
    fn link(&mut self, v: VarnodeId, t: OpId, Ghost(pre): Ghost<Funcdata>)
        requires
            old(self).rewire_frame(&pre, t),
            old(self).valid_vn(v),
            old(self).valid_op(t),
        ensures
            final(self).rewire_frame(&pre, t),
            forall|u: VarnodeId|
                #![trigger final(self).read_by(u, t)]
                final(self).valid_vn(u) ==> (final(self).read_by(u, t) == (old(self).read_by(u, t) || u == v)),
            forall|u: VarnodeId| #![trigger final(self).vn(u)] final(self).valid_vn(u) && u != v ==> final(self).vn(u) == old(self).vn(u),
    {
        proof {
            assert(reader_list(old(self).vn(v).descendants@));
            assert(ops_below(old(self).vn(v).descendants@, old(self).opv().len() as int));
        }
        self.reader_insert(v, t);
        proof {
            assert forall|u: VarnodeId| #![trigger self.vn(u)] self.valid_vn(u) implies {
                &&& same_but_readers(self.vn(u), pre.vn(u))
                &&& reader_list(self.vn(u).descendants@)
                &&& ops_below(self.vn(u).descendants@, self.opv().len() as int)
            } by {
                assert(same_but_readers(old(self).vn(u), pre.vn(u)));
                assert(ops_below(old(self).vn(u).descendants@, old(self).opv().len() as int));
                if u == v {
                    let d = self.vn(u).descendants@;
                    assert forall|k: int| 0 <= k < d.len() implies (#[trigger] d[k]).0 < self.opv().len() by {
                        assert(d.contains(d[k]));
                        if d[k] != t {
                            let j = choose|j: int| 0 <= j < old(self).vn(u).descendants@.len() && old(self).vn(u).descendants@[j] == d[k];
                            assert(old(self).vn(u).descendants@[j].0 < old(self).opv().len());
                        }
                    }
                }
            }
            assert forall|u: VarnodeId, x: OpId|
                #![trigger self.read_by(u, x)]
                self.valid_vn(u) && self.valid_op(x) && x != t implies (self.read_by(u, x) == pre.read_by(u, x)) by {
                assert(old(self).read_by(u, x) == pre.read_by(u, x));
            }
        }
    }

    /// A well-formed graph is trivially in the rewiring frame of itself.
    proof fn lemma_frame_start(&self, t: OpId)
        requires
            self.wf(),
        ensures
            self.rewire_frame(self, t),
    {
        assert forall|v: VarnodeId| #![trigger self.vn(v)] self.valid_vn(v) implies {
            &&& same_but_readers(self.vn(v), self.vn(v))
            &&& reader_list(self.vn(v).descendants@)
            &&& ops_below(self.vn(v).descendants@, self.opv().len() as int)
        } by {
            assert(self.vn_wf(v));
        }
    }

    /// Removes `t` from the readers of every value in `ids`.
    fn unlink_all(&mut self, ids: &Vec<VarnodeId>, t: OpId, Ghost(pre): Ghost<Funcdata>)
        requires
            old(self).rewire_frame(&pre, t),
            old(self).valid_op(t),
            vns_below(ids@, old(self).vns().len() as int),
        ensures
            final(self).rewire_frame(&pre, t),
            forall|u: VarnodeId|
                #![trigger final(self).read_by(u, t)]
                final(self).valid_vn(u) ==> (final(self).read_by(u, t) == (old(self).read_by(u, t) && !ids@.contains(u))),
            forall|u: VarnodeId| #![trigger final(self).vn(u)] final(self).valid_vn(u) && !ids@.contains(u) ==> final(self).vn(u) == old(self).vn(u),
    {
        let mut i: usize = 0;
        while i < ids.len()
            invariant
                i <= ids@.len(),
                self.rewire_frame(&pre, t),
                self.valid_op(t),
                self.vns().len() == old(self).vns().len(),
                vns_below(ids@, self.vns().len() as int),
                forall|u: VarnodeId|
                    #![trigger self.read_by(u, t)]
                    self.valid_vn(u) ==> (self.read_by(u, t) == (old(self).read_by(u, t) && !ids@.take(i as int).contains(u))),
                forall|u: VarnodeId| #![trigger self.vn(u)] self.valid_vn(u) && !ids@.take(i as int).contains(u) ==> self.vn(u) == old(self).vn(u),
            decreases ids@.len() - i,
        {
            let ghost before = *self;
            self.unlink(ids[i], t, Ghost(pre));
            proof {
                assert forall|u: VarnodeId|
                    #![trigger self.read_by(u, t)]
                    self.valid_vn(u) implies (self.read_by(u, t) == (old(self).read_by(u, t) && !ids@.take(i + 1).contains(u))) by {
                    assert(before.read_by(u, t) == (old(self).read_by(u, t) && !ids@.take(i as int).contains(u)));
                    lemma_take_step_contains(ids@, i as int, u);
                }
                assert forall|u: VarnodeId| #![trigger self.vn(u)] self.valid_vn(u) && !ids@.take(i + 1).contains(u) implies self.vn(u) == old(self).vn(u) by {
                    lemma_take_step_contains(ids@, i as int, u);
                    assert(u != ids@[i as int]);
                    assert(before.vn(u) == old(self).vn(u));
                }
            }
            i += 1;
        }
        assert(ids@.take(ids@.len() as int) =~= ids@);
    }

    /// Adds `t` to the readers of every value in `ids`.
    fn link_all(&mut self, ids: &Vec<VarnodeId>, t: OpId, Ghost(pre): Ghost<Funcdata>)
        requires
            old(self).rewire_frame(&pre, t),
            old(self).valid_op(t),
            vns_below(ids@, old(self).vns().len() as int),
        ensures
            final(self).rewire_frame(&pre, t),
            forall|u: VarnodeId|
                #![trigger final(self).read_by(u, t)]
                final(self).valid_vn(u) ==> (final(self).read_by(u, t) == (old(self).read_by(u, t) || ids@.contains(u))),
            forall|u: VarnodeId| #![trigger final(self).vn(u)] final(self).valid_vn(u) && !ids@.contains(u) ==> final(self).vn(u) == old(self).vn(u),
    {
        let mut i: usize = 0;
        while i < ids.len()
            invariant
                i <= ids@.len(),
                self.rewire_frame(&pre, t),
                self.valid_op(t),
                self.vns().len() == old(self).vns().len(),
                vns_below(ids@, self.vns().len() as int),
                forall|u: VarnodeId|
                    #![trigger self.read_by(u, t)]
                    self.valid_vn(u) ==> (self.read_by(u, t) == (old(self).read_by(u, t) || ids@.take(i as int).contains(u))),
                forall|u: VarnodeId| #![trigger self.vn(u)] self.valid_vn(u) && !ids@.take(i as int).contains(u) ==> self.vn(u) == old(self).vn(u),
            decreases ids@.len() - i,
        {
            let ghost before = *self;
            self.link(ids[i], t, Ghost(pre));
            proof {
                assert forall|u: VarnodeId|
                    #![trigger self.read_by(u, t)]
                    self.valid_vn(u) implies (self.read_by(u, t) == (old(self).read_by(u, t) || ids@.take(i + 1).contains(u))) by {
                    assert(before.read_by(u, t) == (old(self).read_by(u, t) || ids@.take(i as int).contains(u)));
                    lemma_take_step_contains(ids@, i as int, u);
                }
                assert forall|u: VarnodeId| #![trigger self.vn(u)] self.valid_vn(u) && !ids@.take(i + 1).contains(u) implies self.vn(u) == old(self).vn(u) by {
                    lemma_take_step_contains(ids@, i as int, u);
                    assert(u != ids@[i as int]);
                    assert(before.vn(u) == old(self).vn(u));
                }
            }
            i += 1;
        }
        assert(ids@.take(ids@.len() as int) =~= ids@);
    }
}

} // verus!

verus! {

/// A copy of a list of varnode identifiers.
pub fn copy_vn_ids(ids: &Vec<VarnodeId>) -> (r: Vec<VarnodeId>)
    ensures
        r@ == ids@,
{
    let mut r: Vec<VarnodeId> = Vec::new();
    let mut i: usize = 0;
    while i < ids.len()
        invariant
            i <= ids@.len(),
            r@ == ids@.take(i as int),
        decreases ids@.len() - i,
    {
        r.push(ids[i]);
        assert(ids@.take(i + 1) =~= ids@.take(i as int).push(ids@[i as int]));
        i += 1;
    }
    assert(ids@.take(ids@.len() as int) =~= ids@);
    r
}

/// A copy of a list of operation identifiers.
pub fn copy_op_ids(ids: &Vec<OpId>) -> (r: Vec<OpId>)
    ensures
        r@ == ids@,
{
    let mut r: Vec<OpId> = Vec::new();
    let mut i: usize = 0;
    while i < ids.len()
        invariant
            i <= ids@.len(),
            r@ == ids@.take(i as int),
        decreases ids@.len() - i,
    {
        r.push(ids[i]);
        assert(ids@.take(i + 1) =~= ids@.take(i as int).push(ids@[i as int]));
        i += 1;
    }
    assert(ids@.take(ids@.len() as int) =~= ids@);
    r
}

/// A copy of a list of block identifiers.
pub fn copy_block_ids(ids: &Vec<GraphBlockId>) -> (r: Vec<GraphBlockId>)
    ensures
        r@ == ids@,
{
    let mut r: Vec<GraphBlockId> = Vec::new();
    let mut i: usize = 0;
    while i < ids.len()
        invariant
            i <= ids@.len(),
            r@ == ids@.take(i as int),
        decreases ids@.len() - i,
    {
        r.push(ids[i]);
        assert(ids@.take(i + 1) =~= ids@.take(i as int).push(ids@[i as int]));
        i += 1;
    }
    assert(ids@.take(ids@.len() as int) =~= ids@);
    r
}

/// Whether `ids` names `v`.
pub fn ids_contain_vn(ids: &Vec<VarnodeId>, v: VarnodeId) -> (r: bool)
    ensures
        r == ids@.contains(v),
{
    let mut i: usize = 0;
    while i < ids.len()
        invariant
            i <= ids@.len(),
            forall|k: int| 0 <= k < i ==> ids@[k] != v,
        decreases ids@.len() - i,
    {
        if ids[i] == v {
            return true;
        }
        i += 1;
    }
    false
}

impl Funcdata {
    /// Replaces every operand, releasing the readers of the old ones.
    pub fn op_set_inputs(&mut self, op: OpId, inputs: Vec<VarnodeId>)
        requires
            old(self).wf(),
            old(self).valid_op(op),
            vns_below(inputs@, old(self).vns().len() as int),
        ensures
            final(self).wf(),
            final(self).opn(op).inputs@ == inputs@,
            forall|v: VarnodeId|
                #![trigger final(self).vn(v)]
                final(self).valid_vn(v) && !old(self).opn(op).inputs@.contains(v) && !inputs@.contains(v) ==> final(self).vn(v)
                    == old(self).vn(v),
            final(self).opn(op).opcode == old(self).opn(op).opcode,
            final(self).opn(op).seq == old(self).opn(op).seq,
            final(self).opn(op).output == old(self).opn(op).output,
            final(self).opn(op).parent == old(self).opn(op).parent,
            final(self).opn(op).dead == old(self).opn(op).dead,
            final(self).opv().len() == old(self).opv().len(),
            forall|o: OpId| #![trigger final(self).opn(o)] final(self).valid_op(o) && o != op ==> final(self).opn(o) == old(self).opn(o),
            final(self).vns().len() == old(self).vns().len(),
            forall|v: VarnodeId| #![trigger final(self).vn(v)] final(self).valid_vn(v) ==> same_but_readers(final(self).vn(v), old(self).vn(v)),
            final(self).bls() == old(self).bls(),
            final(self).same_header(&*old(self)),
    {
        let ghost pre = *old(self);
        proof {
            pre.lemma_frame_start(op);
            assert(pre.op_wf(op));
        }
        let index = op.0 as usize;
        let existing = copy_vn_ids(&self.ops[index].inputs);
        self.unlink_all(&existing, op, Ghost(pre));
        let ghost mid = *self;
        self.link_all(&inputs, op, Ghost(pre));
        let ghost mid2 = *self;
        self.ops[index].inputs = inputs;
        proof {
            let post = *self;
            assert forall|o: OpId| #![trigger post.opn(o)] post.valid_op(o) && o != op implies post.opn(o) == pre.opn(o) by {
                assert(o.0 != op.0);
                assert(mid2.opn(o) == pre.opn(o));
            }
            assert forall|v: VarnodeId| #![trigger post.vn(v)] post.valid_vn(v) implies {
                &&& post.vn(v).def == pre.vn(v).def
                &&& post.vn(v).flags.written == pre.vn(v).flags.written
                &&& reader_list(post.vn(v).descendants@)
                &&& ops_below(post.vn(v).descendants@, post.opv().len() as int)
                &&& same_but_readers(post.vn(v), pre.vn(v))
            } by {
                assert(post.vn(v) == mid2.vn(v));
            }
            assert forall|v: VarnodeId, x: OpId|
                #![trigger post.read_by(v, x)]
                post.valid_vn(v) && post.valid_op(x) && x != op implies (post.read_by(v, x) == pre.read_by(v, x)) by {
                assert(post.vn(v) == mid2.vn(v));
                assert(mid2.read_by(v, x) == pre.read_by(v, x));
            }
            assert forall|v: VarnodeId| #![trigger post.read_by(v, op)] post.valid_vn(v) implies (post.read_by(v, op) == post.reads(op, v)) by {
                assert(post.vn(v) == mid2.vn(v));
                assert(pre.read_by(v, op) <==> pre.reads(op, v));
                assert(mid2.read_by(v, op) == (mid.read_by(v, op) || post.opn(op).inputs@.contains(v)));
                assert(mid.read_by(v, op) == (pre.read_by(v, op) && !existing@.contains(v)));
            }
            assert forall|v: VarnodeId| #![trigger post.vn(v)] post.valid_vn(v) && !pre.opn(op).inputs@.contains(v) && !post.opn(op).inputs@.contains(v) implies post.vn(v) == pre.vn(v) by {
                assert(post.vn(v) == mid2.vn(v));
                assert(mid.vn(v) == pre.vn(v));
            }
            lemma_wf_rewire(&pre, &post, op);
        }
    }

    /// Creates an unattached operation. It becomes live once inserted.
    pub fn new_op(&mut self, opcode: i32, seq: SeqNum, inputs: Vec<VarnodeId>) -> (id: OpId)
        requires
            old(self).wf(),
            old(self).opv().len() < u32::MAX,
            vns_below(inputs@, old(self).vns().len() as int),
        ensures
            final(self).wf(),
            id.0 == old(self).opv().len(),
            final(self).opv().len() == old(self).opv().len() + 1,
            final(self).opv().take(old(self).opv().len() as int) == old(self).opv(),
            final(self).opn(id).opcode == opcode,
            final(self).opn(id).seq == seq,
            final(self).opn(id).inputs@ == inputs@,
            (final(self).opn(id).output is None),
            (final(self).opn(id).parent is None),
            final(self).opn(id).dead,
            final(self).vns().len() == old(self).vns().len(),
            forall|v: VarnodeId| #![trigger final(self).vn(v)] final(self).valid_vn(v) ==> same_but_readers(final(self).vn(v), old(self).vn(v)),
            final(self).bls() == old(self).bls(),
            final(self).same_header(&*old(self)),
    {
        let id = OpId(self.ops.len() as u32);
        self.ops.push(GraphOp { opcode, seq, output: None, inputs: Vec::new(), parent: None, dead: true });
        proof {
            let pre = old(self);
            assert(self.vns() == pre.vns());
            assert(self.bls() == pre.bls());
            assert forall|v: VarnodeId| self.valid_vn(v) implies #[trigger] self.vn_wf(v) by {
                assert(pre.vn_wf(v));
                if let Some(o) = self.vn(v).def {
                    assert(self.opn(o) == pre.opn(o));
                }
            }
            assert forall|o: OpId| self.valid_op(o) implies #[trigger] self.op_wf(o) by {
                if o != id {
                    assert(pre.op_wf(o));
                    assert(self.opn(o) == pre.opn(o));
                }
            }
            assert forall|x: GraphBlockId| self.valid_block(x) implies #[trigger] self.block_wf(x) by {
                assert(pre.block_wf(x));
            }
            assert forall|v: VarnodeId, o: OpId|
                self.valid_vn(v) && self.valid_op(o) implies (self.read_by(v, o) <==> self.reads(o, v)) by {
                if o == id {
                    assert(pre.vn_wf(v));
                    if self.read_by(v, o) {
                        let k = choose|k: int| 0 <= k < self.vn(v).descendants@.len() && self.vn(v).descendants@[k] == o;
                        assert(self.vn(v).descendants@[k].0 < pre.opv().len());
                    }
                } else {
                    assert(pre.read_by(v, o) <==> pre.reads(o, v));
                    assert(self.opn(o) == pre.opn(o));
                }
            }
        }
        let ghost mid = *self;
        self.op_set_inputs(id, inputs);
        proof {
            assert(self.opv().take(old(self).opv().len() as int) =~= old(self).opv()) by {
                assert forall|k: int| 0 <= k < old(self).opv().len() implies self.opv()[k] == old(self).opv()[k] by {
                    let o = OpId(k as u32);
                    assert(self.opn(o) == mid.opn(o));
                    assert(mid.opv()[k] == old(self).opv()[k]);
                }
            }
        }
        id
    }

    /// Retypes an operation, keeping its operands and output.
    pub fn op_set_opcode(&mut self, op: OpId, opcode: i32)
        requires
            old(self).wf(),
            old(self).valid_op(op),
        ensures
            final(self).wf(),
            final(self).opv() == old(self).opv().update(op.0 as int, GraphOp { opcode, ..old(self).opn(op) }),
            final(self).vns() == old(self).vns(),
            final(self).bls() == old(self).bls(),
            final(self).same_header(&*old(self)),
    {
        self.ops[op.0 as usize].opcode = opcode;
        proof {
            let pre = old(self);
            assert(self.opv() =~= pre.opv().update(op.0 as int, GraphOp { opcode, ..pre.opn(op) }));
            assert forall|v: VarnodeId| self.valid_vn(v) implies #[trigger] self.vn_wf(v) by {
                assert(pre.vn_wf(v));
                if let Some(o) = self.vn(v).def {
                    assert(self.opn(o).output == pre.opn(o).output);
                }
            }
            assert forall|o: OpId| self.valid_op(o) implies #[trigger] self.op_wf(o) by {
                assert(pre.op_wf(o));
            }
            assert forall|x: GraphBlockId| self.valid_block(x) implies #[trigger] self.block_wf(x) by {
                assert(pre.block_wf(x));
            }
            assert forall|v: VarnodeId, o: OpId|
                self.valid_vn(v) && self.valid_op(o) implies (self.read_by(v, o) <==> self.reads(o, v)) by {
                assert(pre.read_by(v, o) <==> pre.reads(o, v));
                assert(self.opn(o).inputs == pre.opn(o).inputs);
            }
        }
    }
}

} // verus!

verus! {

/// The definition a value has after `op`'s output moves from `prev` to
/// `value`.
pub open spec fn def_after_output(
    v: VarnodeId,
    old_def: Option<OpId>,
    op: OpId,
    prev: Option<VarnodeId>,
    value: Option<VarnodeId>,
) -> Option<OpId> {
    if value == Some(v) {
        Some(op)
    } else if prev == Some(v) {
        None
    } else {
        old_def
    }
}

impl Funcdata {
    /// Assigns the operation's result, recording the definition on the value.
    #[verifier::rlimit(40)]
    pub fn op_set_output(&mut self, op: OpId, value: Option<VarnodeId>)
        requires
            old(self).wf(),
            old(self).valid_op(op),
            value matches Some(v) ==> old(self).valid_vn(v),
        ensures
            final(self).wf(),
            final(self).opv() == old(self).opv().update(op.0 as int, GraphOp { output: value, ..old(self).opn(op) }),
            final(self).vns().len() == old(self).vns().len(),
            forall|v: VarnodeId|
                #![trigger final(self).vn(v)]
                final(self).valid_vn(v) ==> {
                    &&& final(self).vn(v).space == old(self).vn(v).space
                    &&& final(self).vn(v).offset == old(self).vn(v).offset
                    &&& final(self).vn(v).size == old(self).vn(v).size
                    &&& final(self).vn(v).descendants == old(self).vn(v).descendants
                    &&& final(self).vn(v).def == def_after_output(v, old(self).vn(v).def, op, old(self).opn(op).output, value)
                    &&& final(self).vn(v).flags == VarnodeFlags {
                        written: final(self).vn(v).def.is_some(),
                        ..old(self).vn(v).flags
                    }
                },
            final(self).bls() == old(self).bls(),
            final(self).same_header(&*old(self)),
    {
        let ghost pre = *old(self);
        let index = op.0 as usize;
        let previous = self.ops[index].output;
        if let Some(p) = previous {
            proof {
                assert(pre.op_wf(op));
            }
            self.varnodes[p.0 as usize].def = None;
            self.varnodes[p.0 as usize].flags.written = false;
        }
        self.ops[index].output = value;
        if let Some(v) = value {
            self.varnodes[v.0 as usize].def = Some(op);
            self.varnodes[v.0 as usize].flags.written = true;
        }
        proof {
            let post = *self;
            assert(post.opv() =~= pre.opv().update(op.0 as int, GraphOp { output: value, ..pre.opn(op) }));
            assert forall|v: VarnodeId|
                #![trigger post.vn(v)]
                post.valid_vn(v) implies {
                    &&& post.vn(v).space == pre.vn(v).space
                    &&& post.vn(v).offset == pre.vn(v).offset
                    &&& post.vn(v).size == pre.vn(v).size
                    &&& post.vn(v).descendants == pre.vn(v).descendants
                    &&& post.vn(v).def == def_after_output(v, pre.vn(v).def, op, pre.opn(op).output, value)
                    &&& post.vn(v).flags == VarnodeFlags { written: post.vn(v).def.is_some(), ..pre.vn(v).flags }
                } by {
                assert(pre.vn_wf(v));
            }
            assert forall|v: VarnodeId| post.valid_vn(v) implies #[trigger] post.vn_wf(v) by {
                assert(pre.vn_wf(v));
                assert(post.vn(v).descendants == pre.vn(v).descendants);
                if let Some(o) = post.vn(v).def {
                    if o != op {
                        assert(post.opn(o) == pre.opn(o));
                        assert(pre.vn(v).def == Some(o));
                        assert(pre.opn(o).output == Some(v));
                    }
                }
            }
            assert forall|o: OpId| post.valid_op(o) implies #[trigger] post.op_wf(o) by {
                assert(pre.op_wf(o));
            }
            assert forall|x: GraphBlockId| post.valid_block(x) implies #[trigger] post.block_wf(x) by {
                assert(pre.block_wf(x));
            }
            assert forall|v: VarnodeId, o: OpId|
                post.valid_vn(v) && post.valid_op(o) implies (post.read_by(v, o) <==> post.reads(o, v)) by {
                assert(pre.read_by(v, o) <==> pre.reads(o, v));
                assert(post.vn(v).descendants == pre.vn(v).descendants);
                assert(post.opn(o).inputs == pre.opn(o).inputs);
            }
        }
    }

    /// Drops one operand, keeping the operand links of the rest current.
    pub fn op_remove_input(&mut self, op: OpId, slot: usize)
        requires
            old(self).wf(),
            old(self).valid_op(op),
        ensures
            final(self).wf(),
            final(self).opn(op).inputs@ == (if slot < old(self).opn(op).inputs@.len() {
                old(self).opn(op).inputs@.remove(slot as int)
            } else {
                old(self).opn(op).inputs@
            }),
            final(self).opn(op).opcode == old(self).opn(op).opcode,
            final(self).opn(op).seq == old(self).opn(op).seq,
            final(self).opn(op).output == old(self).opn(op).output,
            final(self).opn(op).parent == old(self).opn(op).parent,
            final(self).opn(op).dead == old(self).opn(op).dead,
            final(self).opv().len() == old(self).opv().len(),
            forall|o: OpId| #![trigger final(self).opn(o)] final(self).valid_op(o) && o != op ==> final(self).opn(o) == old(self).opn(o),
            final(self).vns().len() == old(self).vns().len(),
            forall|v: VarnodeId| #![trigger final(self).vn(v)] final(self).valid_vn(v) ==> same_but_readers(final(self).vn(v), old(self).vn(v)),
            final(self).bls() == old(self).bls(),
            final(self).same_header(&*old(self)),
    {
        let index = op.0 as usize;
        if slot >= self.ops[index].inputs.len() {
            proof {
                assert forall|v: VarnodeId| #![trigger self.vn(v)] self.valid_vn(v) implies same_but_readers(self.vn(v), old(self).vn(v)) by {}
            }
            return;
        }
        let mut inputs = copy_vn_ids(&self.ops[index].inputs);
        inputs.remove(slot);
        proof {
            assert(old(self).op_wf(op));
            assert(vns_below(inputs@, self.vns().len() as int)) by {
                let s = old(self).opn(op).inputs@;
                assert forall|k: int| 0 <= k < inputs@.len() implies (#[trigger] inputs@[k]).0 < self.vns().len() by {
                    if k < slot {
                        assert(inputs@[k] == s[k]);
                    } else {
                        assert(inputs@[k] == s[k + 1]);
                    }
                }
            }
        }
        self.op_set_inputs(op, inputs);
    }
}

} // verus!

verus! {

/// `s` with every occurrence of `x` removed, order kept.
pub open spec fn drop_all<T>(s: Seq<T>, x: T) -> Seq<T>
    decreases s.len(),
{
    if s.len() == 0 {
        s
    } else if s.last() == x {
        drop_all(s.drop_last(), x)
    } else {
        drop_all(s.drop_last(), x).push(s.last())
    }
}

/// Removing `x` keeps exactly the other elements.
pub proof fn lemma_drop_all_contains<T>(s: Seq<T>, x: T, y: T)
    ensures
        drop_all(s, x).contains(y) == (s.contains(y) && y != x),
        drop_all(s, x).len() <= s.len(),
    decreases s.len(),
{
    if s.len() > 0 {
        lemma_drop_all_contains(s.drop_last(), x, y);
        let r = drop_all(s.drop_last(), x);
        assert(s == s.drop_last().push(s.last()));
        if s.contains(y) {
            let k = choose|k: int| 0 <= k < s.len() && s[k] == y;
            if k < s.len() - 1 {
                assert(s.drop_last()[k] == y);
            }
        }
        if s.drop_last().contains(y) {
            let k = choose|k: int| 0 <= k < s.drop_last().len() && s.drop_last()[k] == y;
            assert(s[k] == y);
        }
        if s.last() != x {
            let t = r.push(s.last());
            if t.contains(y) {
                let k = choose|k: int| 0 <= k < t.len() && t[k] == y;
                if k < r.len() {
                    assert(r[k] == y);
                }
            }
            if r.contains(y) {
                let k = choose|k: int| 0 <= k < r.len() && r[k] == y;
                assert(t[k] == y);
            }
            if y == s.last() {
                assert(t[r.len() as int] == y);
            }
        }
    }
}

/// Every element of `drop_all(s, x)` is an element of `s`.
/// Dropping every copy of `x` from a list without repeats leaves one without
/// repeats.
pub proof fn lemma_drop_all_no_duplicates<T>(s: Seq<T>, x: T)
    requires
        s.no_duplicates(),
    ensures
        drop_all(s, x).no_duplicates(),
    decreases s.len(),
{
    if s.len() > 0 {
        let t = s.drop_last();
        assert(t.no_duplicates()) by {
            assert forall|a: int, b: int| 0 <= a < t.len() && 0 <= b < t.len() && a != b implies t[a] != t[b] by {
                assert(s[a] != s[b]);
            }
        }
        lemma_drop_all_no_duplicates(t, x);
        if s.last() != x {
            let r = drop_all(t, x);
            lemma_drop_all_contains(t, x, s.last());
            assert(!t.contains(s.last())) by {
                if t.contains(s.last()) {
                    let k = choose|k: int| 0 <= k < t.len() && t[k] == s.last();
                    assert(s[k] == s[s.len() - 1]);
                }
            }
            let q = r.push(s.last());
            assert forall|a: int, b: int| 0 <= a < q.len() && 0 <= b < q.len() && a != b implies q[a] != q[b] by {
                if a == r.len() {
                    assert(r.contains(q[b]));
                } else if b == r.len() {
                    assert(r.contains(q[a]));
                }
            }
        }
    }
}

pub proof fn lemma_drop_all_ops_below(s: Seq<OpId>, x: OpId, n: int)
    requires
        ops_below(s, n),
    ensures
        ops_below(drop_all(s, x), n),
{
    let r = drop_all(s, x);
    assert forall|k: int| 0 <= k < r.len() implies (#[trigger] r[k]).0 < n by {
        lemma_drop_all_contains(s, x, r[k]);
        assert(r.contains(r[k]));
        let j = choose|j: int| 0 <= j < s.len() && s[j] == r[k];
    }
}

/// Every element of `drop_all(s, x)` is an element of `s`.
pub proof fn lemma_drop_all_blocks_below(s: Seq<GraphBlockId>, x: GraphBlockId, n: int)
    requires
        blocks_below(s, n),
    ensures
        blocks_below(drop_all(s, x), n),
{
    let r = drop_all(s, x);
    assert forall|k: int| 0 <= k < r.len() implies (#[trigger] r[k]).0 < n by {
        lemma_drop_all_contains(s, x, r[k]);
        assert(r.contains(r[k]));
        let j = choose|j: int| 0 <= j < s.len() && s[j] == r[k];
    }
}

/// Removes every occurrence of `x` from `ids`.
pub fn remove_op_id(ids: &mut Vec<OpId>, x: OpId)
    ensures
        final(ids)@ == drop_all(old(ids)@, x),
{
    let mut kept: Vec<OpId> = Vec::new();
    let mut i: usize = 0;
    while i < ids.len()
        invariant
            i <= ids@.len(),
            ids@ == old(ids)@,
            kept@ == drop_all(ids@.take(i as int), x),
        decreases ids@.len() - i,
    {
        assert(ids@.take(i + 1).drop_last() =~= ids@.take(i as int));
        if ids[i] != x {
            kept.push(ids[i]);
        }
        i += 1;
    }
    assert(ids@.take(ids@.len() as int) =~= ids@);
    *ids = kept;
}

/// Removes every occurrence of `x` from `ids`.
pub fn remove_block_id(ids: &mut Vec<GraphBlockId>, x: GraphBlockId)
    ensures
        final(ids)@ == drop_all(old(ids)@, x),
{
    let mut kept: Vec<GraphBlockId> = Vec::new();
    let mut i: usize = 0;
    while i < ids.len()
        invariant
            i <= ids@.len(),
            ids@ == old(ids)@,
            kept@ == drop_all(ids@.take(i as int), x),
        decreases ids@.len() - i,
    {
        assert(ids@.take(i + 1).drop_last() =~= ids@.take(i as int));
        if ids[i] != x {
            kept.push(ids[i]);
        }
        i += 1;
    }
    assert(ids@.take(ids@.len() as int) =~= ids@);
    *ids = kept;
}

/// Moving operations between blocks, or editing edges, keeps the graph well
/// formed provided every block still names valid slots.
pub proof fn lemma_wf_blocks(a: &Funcdata, b: &Funcdata)
    requires
        a.wf(),
        b.vns() == a.vns(),
        b.opv().len() == a.opv().len(),
        b.bls().len() >= a.bls().len(),
        b.bls().len() <= u32::MAX,
        forall|o: OpId|
            #![trigger b.opn(o)]
            b.valid_op(o) ==> b.opn(o) == (GraphOp { parent: b.opn(o).parent, dead: b.opn(o).dead, ..a.opn(o) }),
        forall|o: OpId|
            #![trigger b.opn(o)]
            b.valid_op(o) ==> (b.opn(o).parent matches Some(x) ==> b.valid_block(x)),
        forall|x: GraphBlockId| b.valid_block(x) ==> #[trigger] b.block_wf(x),
    ensures
        b.wf(),
{
    assert forall|v: VarnodeId| b.valid_vn(v) implies #[trigger] b.vn_wf(v) by {
        assert(a.vn_wf(v));
        if let Some(o) = b.vn(v).def {
            assert(b.opn(o).output == a.opn(o).output);
        }
    }
    assert forall|o: OpId| b.valid_op(o) implies #[trigger] b.op_wf(o) by {
        assert(a.op_wf(o));
        assert(b.opn(o).inputs == a.opn(o).inputs);
    }
    assert forall|v: VarnodeId, o: OpId|
        b.valid_vn(v) && b.valid_op(o) implies (b.read_by(v, o) <==> b.reads(o, v)) by {
        assert(a.read_by(v, o) <==> a.reads(o, v));
        assert(b.opn(o).inputs == a.opn(o).inputs);
    }
}

impl Funcdata {
    /// Attaches `op` to `block` at position `at` of its operation list.
    fn place_op(&mut self, op: OpId, block: GraphBlockId, at: usize)
        requires
            old(self).wf(),
            old(self).valid_op(op),
            old(self).valid_block(block),
            at <= old(self).blk(block).ops@.len(),
        ensures
            final(self).wf(),
            final(self).opv() == old(self).opv().update(op.0 as int, GraphOp { parent: Some(block), dead: false, ..old(self).opn(op) }),
            final(self).bls() == old(self).bls().update(
                block.0 as int,
                GraphBlock { ops: final(self).blk(block).ops, ..old(self).blk(block) },
            ),
            final(self).blk(block).ops@ == old(self).blk(block).ops@.insert(at as int, op),
            final(self).vns() == old(self).vns(),
            final(self).same_header(&*old(self)),
    {
        self.ops[op.0 as usize].parent = Some(block);
        self.ops[op.0 as usize].dead = false;
        self.blocks[block.0 as usize].ops.insert(at, op);
        proof {
            let pre = *old(self);
            let post = *self;
            assert(post.opv() =~= pre.opv().update(op.0 as int, GraphOp { parent: Some(block), dead: false, ..pre.opn(op) }));
            assert(post.bls() =~= pre.bls().update(block.0 as int, GraphBlock { ops: post.blk(block).ops, ..pre.blk(block) }));
            assert forall|o: OpId| #![trigger post.opn(o)] post.valid_op(o) implies (post.opn(o).parent matches Some(x) ==> post.valid_block(x)) by {
                assert(pre.op_wf(o));
            }
            assert forall|x: GraphBlockId| post.valid_block(x) implies #[trigger] post.block_wf(x) by {
                assert(pre.block_wf(x));
                if x == block {
                    let s = post.blk(x).ops@;
                    assert forall|k: int| 0 <= k < s.len() implies (#[trigger] s[k]).0 < post.opv().len() by {
                        if k < at {
                            assert(s[k] == pre.blk(x).ops@[k]);
                        } else if k > at {
                            assert(s[k] == pre.blk(x).ops@[k - 1]);
                        }
                    }
                }
            }
            lemma_wf_blocks(&pre, &post);
        }
    }

    /// Places an operation immediately before another in its block.
    pub fn op_insert_before(&mut self, op: OpId, before: OpId)
        requires
            old(self).wf(),
            old(self).valid_op(op),
            old(self).valid_op(before),
        ensures
            final(self).wf(),
            final(self).vns() == old(self).vns(),
            final(self).same_header(&*old(self)),
            final(self).opv().len() == old(self).opv().len(),
            final(self).bls().len() == old(self).bls().len(),
            forall|o: OpId|
                #![trigger final(self).opn(o)]
                final(self).valid_op(o) && o != op ==> final(self).opn(o) == old(self).opn(o),
            final(self).opn(op).opcode == old(self).opn(op).opcode,
            final(self).opn(op).inputs == old(self).opn(op).inputs,
            final(self).opn(op).output == old(self).opn(op).output,
            old(self).opn(before).parent is None ==> final(self).opn(op).dead == old(self).opn(op).dead,
            match old(self).opn(before).parent {
                None => final(self).same_graph(&*old(self)),
                Some(b) => {
                    &&& !final(self).opn(op).dead
                    &&& final(self).bls() == old(self).bls().update(
                        b.0 as int,
                        GraphBlock { ops: final(self).blk(b).ops, ..old(self).blk(b) },
                    )
                    &&& final(self).opn(op).parent == Some(b)
                    &&& final(self).blk(b).ops@ == old(self).blk(b).ops@.insert(
                        first_index_or(old(self).blk(b).ops@, before, 0),
                        op,
                    )
                },
            },
    {
        let Some(parent) = self.ops[before.0 as usize].parent else {
            return;
        };
        proof {
            assert(old(self).op_wf(before));
        }
        let found = position_of_op(&self.blocks[parent.0 as usize].ops, before);
        let position = match found {
            Some(k) => k,
            None => 0,
        };
        proof {
            lemma_first_index(old(self).blk(parent).ops@, before, found);
        }
        self.place_op(op, parent, position);
    }

    /// Places an operation immediately after another in its block.
    pub fn op_insert_after(&mut self, op: OpId, after: OpId)
        requires
            old(self).wf(),
            old(self).valid_op(op),
            old(self).valid_op(after),
        ensures
            final(self).wf(),
            final(self).vns() == old(self).vns(),
            final(self).same_header(&*old(self)),
            match old(self).opn(after).parent {
                None => final(self).same_graph(&*old(self)),
                Some(b) => {
                    &&& final(self).opn(op).parent == Some(b)
                    &&& final(self).blk(b).ops@ == old(self).blk(b).ops@.insert(
                        if old(self).blk(b).ops@.contains(after) {
                            first_index_or(old(self).blk(b).ops@, after, 0) + 1
                        } else {
                            old(self).blk(b).ops@.len() as int
                        },
                        op,
                    )
                },
            },
    {
        let Some(parent) = self.ops[after.0 as usize].parent else {
            return;
        };
        proof {
            assert(old(self).op_wf(after));
        }
        let count = self.blocks[parent.0 as usize].ops.len();
        let found = position_of_op(&self.blocks[parent.0 as usize].ops, after);
        let position = match found {
            Some(k) => k + 1,
            None => count,
        };
        proof {
            lemma_first_index(old(self).blk(parent).ops@, after, found);
        }
        self.place_op(op, parent, position);
    }

    /// Places an operation at the head of a block, before every existing op.
    pub fn op_insert_front(&mut self, op: OpId, block: GraphBlockId)
        requires
            old(self).wf(),
            old(self).valid_op(op),
            old(self).valid_block(block),
        ensures
            final(self).wf(),
            final(self).opn(op).parent == Some(block),
            final(self).blk(block).ops@ == old(self).blk(block).ops@.insert(0, op),
            final(self).vns() == old(self).vns(),
            final(self).same_header(&*old(self)),
    {
        self.place_op(op, block, 0);
    }

    /// Places an operation at the head of a block.
    pub fn op_insert_begin(&mut self, op: OpId, block: GraphBlockId)
        requires
            old(self).wf(),
            old(self).valid_op(op),
            old(self).valid_block(block),
        ensures
            final(self).wf(),
            final(self).opv() == old(self).opv().update(op.0 as int, GraphOp { parent: Some(block), dead: false, ..old(self).opn(op) }),
            final(self).bls() == old(self).bls().update(
                block.0 as int,
                GraphBlock { ops: final(self).blk(block).ops, ..old(self).blk(block) },
            ),
            final(self).opn(op).parent == Some(block),
            final(self).blk(block).ops@ == old(self).blk(block).ops@.insert(0, op),
            final(self).vns() == old(self).vns(),
            final(self).same_header(&*old(self)),
    {
        self.place_op(op, block, 0);
    }

    /// Appends an operation to the end of a block.
    pub fn op_insert_end(&mut self, op: OpId, block: GraphBlockId)
        requires
            old(self).wf(),
            old(self).valid_op(op),
            old(self).valid_block(block),
        ensures
            final(self).wf(),
            final(self).opv() == old(self).opv().update(op.0 as int, GraphOp { parent: Some(block), dead: false, ..old(self).opn(op) }),
            final(self).bls() == old(self).bls().update(
                block.0 as int,
                GraphBlock { ops: final(self).blk(block).ops, ..old(self).blk(block) },
            ),
            final(self).blk(block).ops@ == old(self).blk(block).ops@.push(op),
            final(self).vns() == old(self).vns(),
            final(self).same_header(&*old(self)),
    {
        let at = self.blocks[block.0 as usize].ops.len();
        self.place_op(op, block, at);
        assert(old(self).blk(block).ops@.insert(at as int, op) =~= old(self).blk(block).ops@.push(op));
    }

    /// Detaches an operation from its block without destroying it.
    pub fn op_uninsert(&mut self, op: OpId)
        requires
            old(self).wf(),
            old(self).valid_op(op),
        ensures
            final(self).wf(),
            final(self).opv() == old(self).opv().update(op.0 as int, GraphOp { parent: None, ..old(self).opn(op) }),
            final(self).vns() == old(self).vns(),
            final(self).bls().len() == old(self).bls().len(),
            final(self).same_header(&*old(self)),
            match old(self).opn(op).parent {
                None => final(self).bls() == old(self).bls(),
                Some(b) => final(self).bls() == old(self).bls().update(
                    b.0 as int,
                    GraphBlock { ops: final(self).blk(b).ops, ..old(self).blk(b) },
                ) && final(self).blk(b).ops@ == drop_all(old(self).blk(b).ops@, op),
            },
    {
        let parent = self.ops[op.0 as usize].parent;
        self.ops[op.0 as usize].parent = None;
        if let Some(block) = parent {
            proof {
                assert(old(self).op_wf(op));
            }
            remove_op_id(&mut self.blocks[block.0 as usize].ops, op);
        }
        proof {
            let pre = *old(self);
            let post = *self;
            assert(post.opv() =~= pre.opv().update(op.0 as int, GraphOp { parent: None, ..pre.opn(op) }));
            if let Some(b) = parent {
                assert(post.bls() =~= pre.bls().update(b.0 as int, GraphBlock { ops: post.blk(b).ops, ..pre.blk(b) }));
            } else {
                assert(post.bls() =~= pre.bls());
            }
            assert forall|o: OpId| #![trigger post.opn(o)] post.valid_op(o) implies (post.opn(o).parent matches Some(x) ==> post.valid_block(x)) by {
                assert(pre.op_wf(o));
            }
            assert forall|x: GraphBlockId| post.valid_block(x) implies #[trigger] post.block_wf(x) by {
                assert(pre.block_wf(x));
                if Some(x) == parent {
                    lemma_drop_all_ops_below(pre.blk(x).ops@, op, pre.opv().len() as int);
                }
            }
            lemma_wf_blocks(&pre, &post);
        }
    }
}

/// The first index of `x` in `s`, or `otherwise` when it is absent.
pub open spec fn first_index_or<T>(s: Seq<T>, x: T, otherwise: int) -> int {
    if s.contains(x) {
        choose|k: int| 0 <= k < s.len() && s[k] == x && forall|j: int| 0 <= j < k ==> s[j] != x
    } else {
        otherwise
    }
}

/// `position_of_op` finds exactly `first_index_or`.
pub proof fn lemma_first_index(s: Seq<OpId>, x: OpId, found: Option<usize>)
    requires
        match found {
            Some(k) => k < s.len() && s[k as int] == x && forall|j: int| 0 <= j < k ==> s[j] != x,
            None => !s.contains(x),
        },
    ensures
        match found {
            Some(k) => first_index_or(s, x, 0) == k && s.contains(x),
            None => first_index_or(s, x, 0) == 0,
        },
{
    if let Some(k) = found {
        assert(s.contains(x));
        let c = first_index_or(s, x, 0);
        assert(0 <= c < s.len() && s[c] == x && forall|j: int| 0 <= j < c ==> s[j] != x);
        if c < k {
            assert(s[c] != x);
        }
        if c > k {
            assert(s[k as int] != x);
        }
    }
}

} // verus!

verus! {

impl Funcdata {
    /// Removes an operation from the graph, releasing its operand links.
    pub fn op_destroy(&mut self, op: OpId)
        requires
            old(self).wf(),
            old(self).valid_op(op),
        ensures
            final(self).wf(),
            final(self).opn(op).inputs@.len() == 0,
            (final(self).opn(op).output is None),
            (final(self).opn(op).parent is None),
            final(self).opn(op).dead,
            final(self).opn(op).opcode == old(self).opn(op).opcode,
            final(self).opn(op).seq == old(self).opn(op).seq,
            final(self).opv().len() == old(self).opv().len(),
            forall|o: OpId| #![trigger final(self).opn(o)] final(self).valid_op(o) && o != op ==> final(self).opn(o) == old(self).opn(o),
            final(self).vns().len() == old(self).vns().len(),
            forall|v: VarnodeId|
                #![trigger final(self).vn(v)]
                final(self).valid_vn(v) ==> {
                    &&& final(self).vn(v).space == old(self).vn(v).space
                    &&& final(self).vn(v).offset == old(self).vn(v).offset
                    &&& final(self).vn(v).size == old(self).vn(v).size
                    &&& final(self).vn(v).def == (if old(self).opn(op).output == Some(v) { None } else { old(self).vn(v).def })
                    &&& final(self).vn(v).flags == VarnodeFlags { written: final(self).vn(v).def.is_some(), ..old(self).vn(v).flags }
                },
            final(self).bls().len() == old(self).bls().len(),
            forall|b: GraphBlockId|
                #![trigger final(self).blk(b)]
                final(self).valid_block(b) ==> final(self).blk(b) == (if old(self).opn(op).parent == Some(b) {
                    GraphBlock { ops: final(self).blk(b).ops, ..old(self).blk(b) }
                } else {
                    old(self).blk(b)
                }),
            old(self).opn(op).parent matches Some(b) ==> final(self).blk(b).ops@ == drop_all(old(self).blk(b).ops@, op),
            final(self).same_header(&*old(self)),
    {
        let ghost pre = *old(self);
        self.op_set_inputs(op, Vec::new());
        let ghost s1 = *self;
        self.op_set_output(op, None);
        let ghost s2 = *self;
        self.op_uninsert(op);
        let ghost s3 = *self;
        self.ops[op.0 as usize].dead = true;
        proof {
            let post = *self;
            assert(post.vns() == s3.vns());
            assert(post.bls() == s3.bls());
            assert forall|v: VarnodeId| post.valid_vn(v) implies #[trigger] post.vn_wf(v) by {
                assert(s3.vn_wf(v));
                if let Some(o) = post.vn(v).def {
                    assert(post.opn(o).output == s3.opn(o).output);
                }
            }
            assert forall|o: OpId| post.valid_op(o) implies #[trigger] post.op_wf(o) by {
                assert(s3.op_wf(o));
                assert(post.opn(o).inputs == s3.opn(o).inputs);
            }
            assert forall|x: GraphBlockId| post.valid_block(x) implies #[trigger] post.block_wf(x) by {
                assert(s3.block_wf(x));
            }
            assert forall|v: VarnodeId, o: OpId|
                post.valid_vn(v) && post.valid_op(o) implies (post.read_by(v, o) <==> post.reads(o, v)) by {
                assert(s3.read_by(v, o) <==> s3.reads(o, v));
                assert(post.opn(o).inputs == s3.opn(o).inputs);
            }
            assert forall|o: OpId| #![trigger post.opn(o)] post.valid_op(o) && o != op implies post.opn(o) == pre.opn(o) by {
                assert(o.0 != op.0);
                assert(s1.opn(o) == pre.opn(o));
                assert(s2.opn(o) == s1.opn(o));
                assert(s3.opn(o) == s2.opn(o));
            }
            assert forall|v: VarnodeId|
                #![trigger post.vn(v)]
                post.valid_vn(v) implies {
                    &&& post.vn(v).space == pre.vn(v).space
                    &&& post.vn(v).offset == pre.vn(v).offset
                    &&& post.vn(v).size == pre.vn(v).size
                    &&& post.vn(v).def == (if pre.opn(op).output == Some(v) { None } else { pre.vn(v).def })
                    &&& post.vn(v).flags == VarnodeFlags { written: post.vn(v).def.is_some(), ..pre.vn(v).flags }
                } by {
                assert(same_but_readers(s1.vn(v), pre.vn(v)));
                assert(s1.opn(op).output == pre.opn(op).output);
                assert(s3.vns() == s2.vns());
                assert(s2.vn(v).def == def_after_output(v, s1.vn(v).def, op, s1.opn(op).output, None));
                assert(s2.vn(v).flags == VarnodeFlags { written: s2.vn(v).def.is_some(), ..s1.vn(v).flags });
                assert(s2.vn(v).space == s1.vn(v).space);
                assert(post.vn(v) == s2.vn(v));
            }
            assert forall|b: GraphBlockId|
                #![trigger post.blk(b)]
                post.valid_block(b) implies post.blk(b) == (if pre.opn(op).parent == Some(b) {
                    GraphBlock { ops: post.blk(b).ops, ..pre.blk(b) }
                } else {
                    pre.blk(b)
                }) by {
                assert(s1.opn(op).parent == pre.opn(op).parent);
                assert(s2.opv()[op.0 as int] == GraphOp { output: None, ..s1.opn(op) });
                assert(s2.opn(op).parent == pre.opn(op).parent);
                assert(s2.bls() == pre.bls());
                assert(s3.bls().len() == s2.bls().len());
                if pre.opn(op).parent == Some(b) {
                    assert(s3.bls()[b.0 as int] == GraphBlock { ops: s3.blk(b).ops, ..s2.blk(b) });
                } else {
                    match pre.opn(op).parent {
                        Some(b2) => {
                            assert(s2.op_wf(op));
                            assert(s2.valid_block(b2));
                            assert(b2.0 != b.0);
                            assert(s3.bls() == s2.bls().update(b2.0 as int, GraphBlock { ops: s3.blk(b2).ops, ..s2.blk(b2) }));
                        },
                        None => {
                            assert(s3.bls() == s2.bls());
                        },
                    }
                    assert(s3.bls()[b.0 as int] == s2.bls()[b.0 as int]);
                }
            }
        }
    }
}

} // verus!

verus! {

/// `s` with every `from` replaced by `to`.
pub open spec fn replace_in(s: Seq<VarnodeId>, from: VarnodeId, to: VarnodeId) -> Seq<VarnodeId> {
    s.map_values(|x: VarnodeId| if x == from { to } else { x })
}

impl Funcdata {
    /// Redirects every read of `old_value` to `new_value`.
    pub fn total_replace(&mut self, old_value: VarnodeId, new_value: VarnodeId)
        requires
            old(self).wf(),
            old(self).valid_vn(old_value),
            old(self).valid_vn(new_value),
        ensures
            final(self).wf(),
            final(self).opv().len() == old(self).opv().len(),
            forall|o: OpId|
                #![trigger final(self).opn(o)]
                final(self).valid_op(o) ==> {
                    &&& final(self).opn(o).inputs@ == replace_in(old(self).opn(o).inputs@, old_value, new_value)
                    &&& final(self).opn(o).opcode == old(self).opn(o).opcode
                    &&& final(self).opn(o).seq == old(self).opn(o).seq
                    &&& final(self).opn(o).output == old(self).opn(o).output
                    &&& final(self).opn(o).parent == old(self).opn(o).parent
                    &&& final(self).opn(o).dead == old(self).opn(o).dead
                },
            final(self).vns().len() == old(self).vns().len(),
            forall|v: VarnodeId| #![trigger final(self).vn(v)] final(self).valid_vn(v) ==> same_but_readers(final(self).vn(v), old(self).vn(v)),
            final(self).bls() == old(self).bls(),
            final(self).same_header(&*old(self)),
            old_value != new_value ==> final(self).vn(old_value).descendants@.len() == 0,
    {
        let ghost pre = *old(self);
        let readers = copy_op_ids(&self.varnodes[old_value.0 as usize].descendants);
        proof {
            assert(pre.vn_wf(old_value));
        }
        let mut i: usize = 0;
        while i < readers.len()
            invariant
                i <= readers@.len(),
                readers@ == pre.vn(old_value).descendants@,
                ops_below(readers@, pre.opv().len() as int),
                pre.wf(),
                pre.valid_vn(old_value),
                pre.valid_vn(new_value),
                self.wf(),
                self.opv().len() == pre.opv().len(),
                self.vns().len() == pre.vns().len(),
                self.bls() == pre.bls(),
                self.same_header(&pre),
                forall|v: VarnodeId| #![trigger self.vn(v)] self.valid_vn(v) ==> same_but_readers(self.vn(v), pre.vn(v)),
                forall|o: OpId|
                    #![trigger self.opn(o)]
                    self.valid_op(o) ==> {
                        &&& self.opn(o).inputs@ == (if readers@.take(i as int).contains(o) {
                            replace_in(pre.opn(o).inputs@, old_value, new_value)
                        } else {
                            pre.opn(o).inputs@
                        })
                        &&& self.opn(o).opcode == pre.opn(o).opcode
                        &&& self.opn(o).seq == pre.opn(o).seq
                        &&& self.opn(o).output == pre.opn(o).output
                        &&& self.opn(o).parent == pre.opn(o).parent
                        &&& self.opn(o).dead == pre.opn(o).dead
                    },
            decreases readers@.len() - i,
        {
            let reader = readers[i];
            let ghost start = *self;
            proof {
                assert(readers@[i as int].0 < pre.opv().len());
                lemma_take_step_contains(readers@, i as int, reader);
                assert(pre.vn_wf(old_value));
                assert(readers@.no_duplicates());
                assert(!readers@.take(i as int).contains(reader)) by {
                    if readers@.take(i as int).contains(reader) {
                        let k = choose|k: int| 0 <= k < i && readers@.take(i as int)[k] == reader;
                        assert(readers@[k] == readers@[i as int]);
                    }
                }
            }
            let n = self.ops[reader.0 as usize].inputs.len();
            let mut slot: usize = 0;
            while slot < n
                invariant
                    slot <= n,
                    n == pre.opn(reader).inputs@.len(),
                    self.valid_op(reader),
                    self.valid_vn(new_value),
                    pre.valid_op(reader),
                    self.wf(),
                    self.opv().len() == pre.opv().len(),
                    self.vns().len() == pre.vns().len(),
                    self.bls() == pre.bls(),
                    self.same_header(&pre),
                    forall|v: VarnodeId| #![trigger self.vn(v)] self.valid_vn(v) ==> same_but_readers(self.vn(v), pre.vn(v)),
                    forall|o: OpId| #![trigger self.opn(o)] self.valid_op(o) && o != reader ==> self.opn(o) == start.opn(o),
                    start.opn(reader).inputs@ == pre.opn(reader).inputs@,
                    self.opn(reader).inputs@ == replace_in(pre.opn(reader).inputs@, old_value, new_value).take(slot as int)
                        + pre.opn(reader).inputs@.skip(slot as int),
                    self.opn(reader).opcode == pre.opn(reader).opcode,
                    self.opn(reader).seq == pre.opn(reader).seq,
                    self.opn(reader).output == pre.opn(reader).output,
                    self.opn(reader).parent == pre.opn(reader).parent,
                    self.opn(reader).dead == pre.opn(reader).dead,
                decreases n - slot,
            {
                let ghost before = *self;
                let ghost target = replace_in(pre.opn(reader).inputs@, old_value, new_value);
                let ghost orig = pre.opn(reader).inputs@;
                proof {
                    assert(self.opn(reader).inputs@[slot as int] == orig[slot as int]);
                }
                if self.ops[reader.0 as usize].inputs[slot] == old_value {
                    self.op_set_input(reader, new_value, slot);
                    proof {
                        assert(self.opn(reader).inputs@ =~= target.take(slot + 1) + orig.skip(slot + 1));
                        assert forall|o: OpId| #![trigger self.opn(o)] self.valid_op(o) && o != reader implies self.opn(o) == start.opn(o) by {
                            assert(before.opn(o) == start.opn(o));
                        }
                    }
                } else {
                    assert(self.opn(reader).inputs@ =~= target.take(slot + 1) + orig.skip(slot + 1));
                }
                slot += 1;
            }
            proof {
                let target = replace_in(pre.opn(reader).inputs@, old_value, new_value);
                assert(self.opn(reader).inputs@ =~= target);
                assert forall|o: OpId|
                    #![trigger self.opn(o)]
                    self.valid_op(o) implies {
                        &&& self.opn(o).inputs@ == (if readers@.take(i + 1).contains(o) {
                            replace_in(pre.opn(o).inputs@, old_value, new_value)
                        } else {
                            pre.opn(o).inputs@
                        })
                        &&& self.opn(o).opcode == pre.opn(o).opcode
                        &&& self.opn(o).seq == pre.opn(o).seq
                        &&& self.opn(o).output == pre.opn(o).output
                        &&& self.opn(o).parent == pre.opn(o).parent
                        &&& self.opn(o).dead == pre.opn(o).dead
                    } by {
                    lemma_take_step_contains(readers@, i as int, o);
                    if o != reader {
                        assert(self.opn(o) == start.opn(o));
                    }
                }
            }
            i += 1;
        }
        proof {
            assert(readers@.take(readers@.len() as int) =~= readers@);
            assert forall|o: OpId|
                #![trigger self.opn(o)]
                self.valid_op(o) implies self.opn(o).inputs@ == replace_in(pre.opn(o).inputs@, old_value, new_value) by {
                if !readers@.contains(o) {
                    assert(pre.read_by(old_value, o) <==> pre.reads(o, old_value));
                    assert(pre.opn(o).inputs@ =~= replace_in(pre.opn(o).inputs@, old_value, new_value)) by {
                        assert forall|k: int| 0 <= k < pre.opn(o).inputs@.len() implies pre.opn(o).inputs@[k] != old_value by {
                            if pre.opn(o).inputs@[k] == old_value {
                                assert(pre.opn(o).inputs@.contains(old_value));
                            }
                        }
                    }
                }
            }
            if old_value != new_value {
                if self.vn(old_value).descendants@.len() > 0 {
                    let o = self.vn(old_value).descendants@[0];
                    assert(self.vn_wf(old_value));
                    assert(self.valid_op(o));
                    assert(self.read_by(old_value, o));
                    assert(self.reads(o, old_value));
                    let k = choose|k: int| 0 <= k < self.opn(o).inputs@.len() && self.opn(o).inputs@[k] == old_value;
                    assert(replace_in(pre.opn(o).inputs@, old_value, new_value)[k] != old_value);
                }
            }
        }
    }
}

} // verus!

verus! {

/// Identifiers, oldest first, of the first `n` varnodes at one location.
pub open spec fn ids_at(vns: Seq<GraphVarnode>, n: int, space: u32, offset: u64, size: u32) -> Seq<VarnodeId>
    decreases n,
{
    if n <= 0 {
        Seq::empty()
    } else if vns[n - 1].space == space && vns[n - 1].offset == offset && vns[n - 1].size == size {
        ids_at(vns, n - 1, space, offset, size).push(VarnodeId((n - 1) as u32))
    } else {
        ids_at(vns, n - 1, space, offset, size)
    }
}

/// A live block that begins at p-code operation `order` of the instruction
/// at `address`.
pub open spec fn block_begins(b: GraphBlock, address: u64, order: u32) -> bool {
    !b.dead && b.start == address && b.start_order == order
}

/// `r` is the first block, in arena order, beginning at `address`/`order`.
pub open spec fn first_block_at(bls: Seq<GraphBlock>, address: u64, order: u32, r: Option<GraphBlockId>) -> bool {
    match r {
        Some(b) => {
            &&& (b.0 as int) < bls.len()
            &&& block_begins(bls[b.0 as int], address, order)
            &&& forall|k: int| 0 <= k < b.0 ==> !block_begins(#[trigger] bls[k], address, order)
        },
        None => forall|k: int| 0 <= k < bls.len() ==> !block_begins(#[trigger] bls[k], address, order),
    }
}

/// The value of a 64-bit pattern read as a two's-complement integer.
pub open spec fn as_signed(x: u64) -> int {
    if x < 0x8000_0000_0000_0000 {
        x as int
    } else {
        x as int - 0x1_0000_0000_0000_0000
    }
}

/// The 64-bit pattern cast to `i64` has the value `as_signed` names.
pub proof fn lemma_as_signed(raw: u64, relative: i64)
    requires
        relative == raw as i64,
    ensures
        relative as int == as_signed(raw),
{
    if raw < 0x8000_0000_0000_0000 {
        assert(relative as int == raw as int) by (bit_vector)
            requires relative == raw as i64, raw < 0x8000_0000_0000_0000u64;
    } else {
        assert(relative as int == raw as int - 0x1_0000_0000_0000_0000) by (bit_vector)
            requires relative == raw as i64, raw >= 0x8000_0000_0000_0000u64;
    }
}

impl Funcdata {
    /// Every varnode recorded at one exact location, oldest first.
    pub fn at_location(&self, space: u32, offset: u64, size: u32) -> (r: Vec<VarnodeId>)
        requires
            self.vns().len() <= u32::MAX,
        ensures
            r@ == ids_at(self.vns(), self.vns().len() as int, space, offset, size),
    {
        let mut result: Vec<VarnodeId> = Vec::new();
        let mut index: usize = 0;
        while index < self.varnodes.len()
            invariant
                index <= self.varnodes@.len() <= u32::MAX,
                result@ == ids_at(self.varnodes@, index as int, space, offset, size),
            decreases self.varnodes@.len() - index,
        {
            let value = &self.varnodes[index];
            if value.space == space && value.offset == offset && value.size == size {
                result.push(VarnodeId(index as u32));
            }
            index += 1;
        }
        result
    }

    /// The single operation reading a value, when there is exactly one.
    pub fn lone_descend(&self, id: VarnodeId) -> (r: Option<OpId>)
        requires
            self.valid_vn(id),
        ensures
            r == (if self.vn(id).descendants@.len() == 1 {
                Some(self.vn(id).descendants@[0])
            } else {
                None
            }),
    {
        let descendants = &self.varnodes[id.0 as usize].descendants;
        if descendants.len() == 1 {
            Some(descendants[0])
        } else {
            None
        }
    }

    /// The opcode of a live operation, or `None` once it has been destroyed.
    pub fn opcode_of(&self, op: OpId) -> (r: Option<i32>)
        requires
            self.valid_op(op),
        ensures
            r == (if self.opn(op).dead { None } else { Some(self.opn(op).opcode) }),
    {
        let candidate = &self.ops[op.0 as usize];
        if candidate.dead {
            None
        } else {
            Some(candidate.opcode)
        }
    }

    /// Whether any live operation begins at the given address.
    pub fn has_op_at(&self, address: u64) -> (r: bool)
        ensures
            r == exists|k: int| 0 <= k < self.opv().len() && !(#[trigger] self.opv()[k]).dead && self.opv()[k].seq.address == address,
    {
        let mut index: usize = 0;
        while index < self.ops.len()
            invariant
                index <= self.ops@.len(),
                forall|k: int| 0 <= k < index ==> !(!(#[trigger] self.ops@[k]).dead && self.ops@[k].seq.address == address),
            decreases self.ops@.len() - index,
        {
            if !self.ops[index].dead && self.ops[index].seq.address == address {
                assert(!self.opv()[index as int].dead);
                return true;
            }
            index += 1;
        }
        false
    }

    /// The first live block beginning at one position of an instruction.
    fn first_block_at_exec(&self, address: u64, order: u32) -> (r: Option<GraphBlockId>)
        requires
            self.bls().len() <= u32::MAX,
        ensures
            first_block_at(self.bls(), address, order, r),
    {
        let mut index: usize = 0;
        while index < self.blocks.len()
            invariant
                index <= self.blocks@.len() <= u32::MAX,
                forall|k: int| 0 <= k < index ==> !block_begins(#[trigger] self.blocks@[k], address, order),
            decreases self.blocks@.len() - index,
        {
            let block = &self.blocks[index];
            if !block.dead && block.start == address && block.start_order == order {
                return Some(GraphBlockId(index as u32));
            }
            index += 1;
        }
        None
    }

    /// The block beginning at an instruction boundary.
    pub fn block_starting_at(&self, address: u64) -> (r: Option<GraphBlockId>)
        requires
            self.bls().len() <= u32::MAX,
        ensures
            first_block_at(self.bls(), address, 0, r),
    {
        self.first_block_at_exec(address, 0)
    }

    /// The block a branch transfers to when taken.
    ///
    /// A destination in the constant space is a relative p-code branch within
    /// the branching instruction, so it names an operation rather than an
    /// address.
    pub fn branch_target(&self, branch: OpId) -> (r: Option<GraphBlockId>)
        requires
            self.wf(),
            self.valid_op(branch),
        ensures
            resolves_to(self, branch, r),
    {
        let operation = &self.ops[branch.0 as usize];
        if operation.inputs.len() == 0 {
            return None;
        }
        proof {
            assert(self.op_wf(branch));
        }
        let target = operation.inputs[0];
        let varnode = &self.varnodes[target.0 as usize];
        if varnode.space == CONST_SPACE {
            let seq = operation.seq;
            let raw = varnode.offset;
            let relative = raw as i64;
            proof {
                lemma_as_signed(raw, relative);
            }
            let Some(sum) = (seq.order as i64).checked_add(relative) else {
                return None;
            };
            if sum < 0 || sum > 0xFFFF_FFFF {
                return None;
            }
            return self.first_block_at_exec(seq.address, sum as u32);
        }
        self.block_starting_at(varnode.offset)
    }
}

/// Branch `branch` resolves to block `r`: a destination in the constant
/// space counts operations within the branching instruction, any other
/// names the address a block starts at; a branch without operands goes
/// nowhere.
pub open spec fn resolves_to(d: &Funcdata, branch: OpId, r: Option<GraphBlockId>) -> bool {
    &&& d.opn(branch).inputs@.len() == 0 ==> r is None
    &&& d.opn(branch).inputs@.len() > 0 ==> ({
        let target = d.vn(d.opn(branch).inputs@[0]);
        let seq = d.opn(branch).seq;
        let order = seq.order + as_signed(target.offset);
        if target.space == CONST_SPACE {
            if 0 <= order <= u32::MAX {
                first_block_at(d.bls(), seq.address, order as u32, r)
            } else {
                r is None
            }
        } else {
            first_block_at(d.bls(), target.offset, 0, r)
        }
    })
}

/// A branch resolves to one block at most.
pub proof fn lemma_resolves_unique(d: &Funcdata, branch: OpId, r1: Option<GraphBlockId>, r2: Option<GraphBlockId>)
    requires
        resolves_to(d, branch, r1),
        resolves_to(d, branch, r2),
    ensures
        r1 == r2,
{
    if let (Some(a), Some(b)) = (r1, r2) {
        if a.0 < b.0 {
            assert(d.bls()[a.0 as int] == d.bls()[a.0 as int]);
        }
        if b.0 < a.0 {
            assert(d.bls()[b.0 as int] == d.bls()[b.0 as int]);
        }
        assert(a.0 == b.0);
    } else if let Some(a) = r1 {
        assert(d.bls()[a.0 as int] == d.bls()[a.0 as int]);
    } else if let Some(b) = r2 {
        assert(d.bls()[b.0 as int] == d.bls()[b.0 as int]);
    }
}

} // verus!

verus! {

/// `s` with `x` appended unless already present.
pub open spec fn add_unique<T>(s: Seq<T>, x: T) -> Seq<T> {
    if s.contains(x) {
        s
    } else {
        s.push(x)
    }
}

/// Two blocks agree on everything but their edge lists.
pub open spec fn same_but_edges(a: GraphBlock, b: GraphBlock) -> bool {
    &&& a.start == b.start
    &&& a.start_order == b.start_order
    &&& a.ops == b.ops
    &&& a.dead == b.dead
}

/// Appends `x` to `ids` unless it is already there.
fn push_unique_block(ids: &mut Vec<GraphBlockId>, x: GraphBlockId)
    ensures
        final(ids)@ == add_unique(old(ids)@, x),
{
    let mut i: usize = 0;
    while i < ids.len()
        invariant
            i <= ids@.len(),
            ids@ == old(ids)@,
            forall|k: int| 0 <= k < i ==> ids@[k] != x,
        decreases ids@.len() - i,
    {
        if ids[i] == x {
            assert(ids@.contains(x));
            return;
        }
        i += 1;
    }
    ids.push(x);
}

/// The first slot of `ids` holding `x`.
pub fn position_of_block(ids: &Vec<GraphBlockId>, x: GraphBlockId) -> (r: Option<usize>)
    ensures
        match r {
            Some(k) => k < ids@.len() && ids@[k as int] == x && forall|j: int| 0 <= j < k ==> ids@[j] != x,
            None => !ids@.contains(x),
        },
{
    let mut i: usize = 0;
    while i < ids.len()
        invariant
            i <= ids@.len(),
            forall|k: int| 0 <= k < i ==> ids@[k] != x,
        decreases ids@.len() - i,
    {
        if ids[i] == x {
            return Some(i);
        }
        i += 1;
    }
    None
}

/// `add_unique` keeps every identifier below a bound that `x` is below.
pub proof fn lemma_add_unique_below(s: Seq<GraphBlockId>, x: GraphBlockId, n: int)
    requires
        blocks_below(s, n),
        x.0 < n,
    ensures
        blocks_below(add_unique(s, x), n),
{
    if !s.contains(x) {
        let t = s.push(x);
        assert forall|k: int| 0 <= k < t.len() implies (#[trigger] t[k]).0 < n by {
            if k < s.len() {
                assert(t[k] == s[k]);
            }
        }
    }
}

/// Editing only the edge lists keeps the graph well formed when every edge
/// still names a block.
pub proof fn lemma_wf_edges(a: &Funcdata, b: &Funcdata)
    requires
        a.wf(),
        b.vns() == a.vns(),
        b.opv() == a.opv(),
        b.bls().len() == a.bls().len(),
        forall|x: GraphBlockId| #![trigger b.blk(x)] b.valid_block(x) ==> same_but_edges(b.blk(x), a.blk(x)),
        forall|x: GraphBlockId|
            #![trigger b.blk(x)]
            b.valid_block(x) ==> blocks_below(b.blk(x).predecessors@, b.bls().len() as int)
                && blocks_below(b.blk(x).successors@, b.bls().len() as int),
    ensures
        b.wf(),
{
    assert forall|x: GraphBlockId| b.valid_block(x) implies #[trigger] b.block_wf(x) by {
        assert(a.block_wf(x));
        assert(same_but_edges(b.blk(x), a.blk(x)));
    }
    assert forall|o: OpId| #![trigger b.opn(o)] b.valid_op(o) implies (b.opn(o).parent matches Some(x) ==> b.valid_block(x)) by {
        assert(a.op_wf(o));
    }
    lemma_wf_blocks(a, b);
}

impl Funcdata {
    pub fn new_block(&mut self, start: u64) -> (id: GraphBlockId)
        requires
            old(self).wf(),
            old(self).bls().len() < u32::MAX,
        ensures
            final(self).wf(),
            id.0 == old(self).bls().len(),
            final(self).bls().len() == old(self).bls().len() + 1,
            final(self).bls().take(old(self).bls().len() as int) == old(self).bls(),
            final(self).blk(id).start == start,
            final(self).blk(id).start_order == 0,
            final(self).blk(id).ops@.len() == 0,
            final(self).blk(id).predecessors@.len() == 0,
            final(self).blk(id).successors@.len() == 0,
            !final(self).blk(id).dead,
            final(self).vns() == old(self).vns(),
            final(self).opv() == old(self).opv(),
            final(self).same_header(&*old(self)),
    {
        self.new_block_at(start, 0)
    }

    /// A block beginning at one p-code operation of an instruction.
    pub fn new_block_at(&mut self, start: u64, start_order: u32) -> (id: GraphBlockId)
        requires
            old(self).wf(),
            old(self).bls().len() < u32::MAX,
        ensures
            final(self).wf(),
            id.0 == old(self).bls().len(),
            final(self).bls().len() == old(self).bls().len() + 1,
            final(self).bls().take(old(self).bls().len() as int) == old(self).bls(),
            final(self).blk(id).start == start,
            final(self).blk(id).start_order == start_order,
            final(self).blk(id).ops@.len() == 0,
            final(self).blk(id).predecessors@.len() == 0,
            final(self).blk(id).successors@.len() == 0,
            !final(self).blk(id).dead,
            final(self).vns() == old(self).vns(),
            final(self).opv() == old(self).opv(),
            final(self).same_header(&*old(self)),
    {
        let id = GraphBlockId(self.blocks.len() as u32);
        self.blocks.push(GraphBlock {
            start,
            start_order,
            ops: Vec::new(),
            predecessors: Vec::new(),
            successors: Vec::new(),
            dead: false,
        });
        proof {
            let pre = *old(self);
            let post = *self;
            assert(post.bls().take(pre.bls().len() as int) =~= pre.bls());
            assert forall|o: OpId| #![trigger post.opn(o)] post.valid_op(o) implies post.opn(o) == (GraphOp { parent: post.opn(o).parent, ..pre.opn(o) })
                && (post.opn(o).parent matches Some(x) ==> post.valid_block(x)) by {
                assert(pre.op_wf(o));
            }
            assert forall|x: GraphBlockId| post.valid_block(x) implies #[trigger] post.block_wf(x) by {
                if x != id {
                    assert(pre.block_wf(x));
                    assert(post.blk(x) == pre.blk(x));
                    let p = post.blk(x).predecessors@;
                    let q = post.blk(x).successors@;
                    assert forall|k: int| 0 <= k < p.len() implies (#[trigger] p[k]).0 < post.bls().len() by {}
                    assert forall|k: int| 0 <= k < q.len() implies (#[trigger] q[k]).0 < post.bls().len() by {}
                }
            }
            lemma_wf_blocks(&pre, &post);
        }
        id
    }

    /// Adds the edge `from -> to` unless it is already present.
    pub fn add_edge(&mut self, from: GraphBlockId, to: GraphBlockId)
        requires
            old(self).wf(),
            old(self).valid_block(from),
            old(self).valid_block(to),
        ensures
            final(self).wf(),
            final(self).vns() == old(self).vns(),
            final(self).opv() == old(self).opv(),
            final(self).bls().len() == old(self).bls().len(),
            final(self).same_header(&*old(self)),
            forall|x: GraphBlockId|
                #![trigger final(self).blk(x)]
                final(self).valid_block(x) ==> same_but_edges(final(self).blk(x), old(self).blk(x)),
            forall|x: GraphBlockId|
                #![trigger final(self).blk(x)]
                final(self).valid_block(x) && x != from ==> final(self).blk(x).successors == old(self).blk(x).successors,
            forall|x: GraphBlockId|
                #![trigger final(self).blk(x)]
                final(self).valid_block(x) && x != to ==> final(self).blk(x).predecessors == old(self).blk(x).predecessors,
            final(self).blk(from).successors@ == add_unique(old(self).blk(from).successors@, to),
            final(self).blk(to).predecessors@ == add_unique(old(self).blk(to).predecessors@, from),
    {
        push_unique_block(&mut self.blocks[from.0 as usize].successors, to);
        let ghost mid = *self;
        push_unique_block(&mut self.blocks[to.0 as usize].predecessors, from);
        proof {
            let pre = *old(self);
            let post = *self;
            assert(pre.block_wf(from));
            assert(pre.block_wf(to));
            lemma_add_unique_below(pre.blk(from).successors@, to, pre.bls().len() as int);
            lemma_add_unique_below(pre.blk(to).predecessors@, from, pre.bls().len() as int);
            assert forall|x: GraphBlockId|
                #![trigger post.blk(x)]
                post.valid_block(x) implies blocks_below(post.blk(x).predecessors@, post.bls().len() as int)
                    && blocks_below(post.blk(x).successors@, post.bls().len() as int)
                    && same_but_edges(post.blk(x), pre.blk(x))
                    && (x != from ==> post.blk(x).successors == pre.blk(x).successors)
                    && (x != to ==> post.blk(x).predecessors == pre.blk(x).predecessors) by {
                assert(pre.block_wf(x));
                if x.0 != to.0 {
                    assert(post.blk(x) == mid.blk(x));
                }
                if x.0 != from.0 {
                    assert(mid.blk(x) == pre.blk(x));
                }
            }
            lemma_wf_edges(&pre, &post);
        }
    }
}

} // verus!

verus! {

/// The index just past the run of `MULTIEQUAL`s that starts at `i`.
pub open spec fn phi_run(opv: Seq<GraphOp>, ops: Seq<OpId>, i: int) -> int
    decreases ops.len() - i,
{
    if 0 <= i < ops.len() && (ops[i].0 as int) < opv.len() && opv[ops[i].0 as int].opcode == crate::pcode::MULTIEQUAL {
        phi_run(opv, ops, i + 1)
    } else {
        i
    }
}

/// The merges at the head of a block's operation list.
pub open spec fn leading_phis(opv: Seq<GraphOp>, ops: Seq<OpId>) -> Seq<OpId> {
    ops.take(phi_run(opv, ops, 0))
}

/// An operand list after each merge in `phis`, in turn, drops `slot`.
pub open spec fn stripped(inputs: Seq<VarnodeId>, phis: Seq<OpId>, o: OpId, slot: int) -> Seq<VarnodeId>
    decreases phis.len(),
{
    if phis.len() == 0 {
        inputs
    } else {
        let prev = stripped(inputs, phis.drop_last(), o, slot);
        if phis.last() == o && 0 <= slot < prev.len() {
            prev.remove(slot)
        } else {
            prev
        }
    }
}

/// Stripping slot `slot` from the merges `phis`, each listed once, takes the
/// operand in that slot from a merge among them when it has one, and leaves
/// every other operation's operands alone.
pub proof fn lemma_stripped_once(inputs: Seq<VarnodeId>, phis: Seq<OpId>, o: OpId, slot: int)
    requires
        phis.no_duplicates(),
    ensures
        stripped(inputs, phis, o, slot) == (if phis.contains(o) && 0 <= slot < inputs.len() {
            inputs.remove(slot)
        } else {
            inputs
        }),
    decreases phis.len(),
{
    if phis.len() > 0 {
        let rest = phis.drop_last();
        assert(rest.no_duplicates()) by {
            assert forall|a: int, b: int| 0 <= a < rest.len() && 0 <= b < rest.len() && a != b implies rest[a] != rest[b] by {
                assert(phis[a] != phis[b]);
            }
        }
        lemma_stripped_once(inputs, rest, o, slot);
        if phis.last() == o {
            assert(!rest.contains(o)) by {
                if rest.contains(o) {
                    let k = choose|k: int| 0 <= k < rest.len() && rest[k] == o;
                    assert(phis[k] == phis[phis.len() - 1]);
                }
            }
            assert(phis.contains(o)) by {
                assert(phis[phis.len() - 1] == o);
            }
        } else {
            assert(phis.contains(o) == rest.contains(o)) by {
                if phis.contains(o) {
                    let k = choose|k: int| 0 <= k < phis.len() && phis[k] == o;
                    assert(rest[k] == o);
                }
                if rest.contains(o) {
                    let k = choose|k: int| 0 <= k < rest.len() && rest[k] == o;
                    assert(phis[k] == o);
                }
            }
        }
    }
}

/// When every position before `i` holds a merge, the run from the start
/// reaches as far as the run from `i`.
pub proof fn lemma_phi_run_prefix(opv: Seq<GraphOp>, ops: Seq<OpId>, i: int)
    requires
        0 <= i <= ops.len(),
        forall|k: int| 0 <= k < i ==> (ops[k].0 as int) < opv.len() && opv[ops[k].0 as int].opcode == crate::pcode::MULTIEQUAL,
    ensures
        phi_run(opv, ops, 0) == phi_run(opv, ops, i),
    decreases i,
{
    if i > 0 {
        lemma_phi_run_prefix(opv, ops, i - 1);
    }
}

/// A phi run starting at `i` ends at `i` when position `i` is no merge.
pub proof fn lemma_phi_run_stop(opv: Seq<GraphOp>, ops: Seq<OpId>, i: int)
    requires
        0 <= i <= ops.len(),
        i == ops.len() || !((ops[i].0 as int) < opv.len() && opv[ops[i].0 as int].opcode == crate::pcode::MULTIEQUAL),
    ensures
        phi_run(opv, ops, i) == i,
{
}

impl Funcdata {
    /// The merges at the head of `block`.
    fn leading_phis_exec(&self, block: GraphBlockId) -> (r: Vec<OpId>)
        requires
            self.wf(),
            self.valid_block(block),
        ensures
            r@ == leading_phis(self.opv(), self.blk(block).ops@),
            ops_below(r@, self.opv().len() as int),
    {
        let ops = &self.blocks[block.0 as usize].ops;
        proof {
            assert(self.block_wf(block));
        }
        let mut result: Vec<OpId> = Vec::new();
        let mut i: usize = 0;
        while i < ops.len() && self.ops[ops[i].0 as usize].opcode == crate::pcode::MULTIEQUAL
            invariant
                i <= ops@.len(),
                ops@ == self.blk(block).ops@,
                ops_below(ops@, self.opv().len() as int),
                result@ == ops@.take(i as int),
                forall|k: int| 0 <= k < i ==> (ops@[k].0 as int) < self.opv().len() && self.opv()[ops@[k].0 as int].opcode == crate::pcode::MULTIEQUAL,
            decreases ops@.len() - i,
        {
            result.push(ops[i]);
            assert(ops@.take(i + 1) =~= ops@.take(i as int).push(ops@[i as int]));
            i += 1;
        }
        proof {
            lemma_phi_run_prefix(self.opv(), ops@, i as int);
            lemma_phi_run_stop(self.opv(), ops@, i as int);
            assert forall|k: int| 0 <= k < result@.len() implies (#[trigger] result@[k]).0 < self.opv().len() by {
                assert(result@[k] == ops@[k]);
            }
        }
        result
    }

    /// Drops one incoming edge, along with the merge operand it fed.
    fn detach_predecessor(&mut self, block: GraphBlockId, predecessor: GraphBlockId)
        requires
            old(self).wf(),
            old(self).valid_block(block),
        ensures
            final(self).wf(),
            final(self).vns().len() == old(self).vns().len(),
            forall|v: VarnodeId| #![trigger final(self).vn(v)] final(self).valid_vn(v) ==> same_but_readers(final(self).vn(v), old(self).vn(v)),
            final(self).opv().len() == old(self).opv().len(),
            final(self).bls().len() == old(self).bls().len(),
            final(self).same_header(&*old(self)),
            forall|x: GraphBlockId|
                #![trigger final(self).blk(x)]
                final(self).valid_block(x) ==> same_but_edges(final(self).blk(x), old(self).blk(x))
                    && final(self).blk(x).successors == old(self).blk(x).successors,
            forall|x: GraphBlockId|
                #![trigger final(self).blk(x)]
                final(self).valid_block(x) && x != block ==> final(self).blk(x).predecessors == old(self).blk(x).predecessors,
            !old(self).blk(block).predecessors@.contains(predecessor) ==> final(self).same_graph(&*old(self)),
            old(self).blk(block).predecessors@.contains(predecessor) ==> {
                let slot = first_index_or(old(self).blk(block).predecessors@, predecessor, 0);
                let phis = leading_phis(old(self).opv(), old(self).blk(block).ops@);
                &&& final(self).blk(block).predecessors@ == old(self).blk(block).predecessors@.remove(slot)
                &&& forall|o: OpId|
                    #![trigger final(self).opn(o)]
                    final(self).valid_op(o) ==> {
                        &&& final(self).opn(o).inputs@ == stripped(old(self).opn(o).inputs@, phis, o, slot)
                        &&& final(self).opn(o).opcode == old(self).opn(o).opcode
                        &&& final(self).opn(o).seq == old(self).opn(o).seq
                        &&& final(self).opn(o).output == old(self).opn(o).output
                        &&& final(self).opn(o).parent == old(self).opn(o).parent
                        &&& final(self).opn(o).dead == old(self).opn(o).dead
                    }
            },
    {
        let ghost pre = *old(self);
        let found = position_of_block(&self.blocks[block.0 as usize].predecessors, predecessor);
        let Some(slot) = found else {
            proof {
                assert forall|v: VarnodeId| #![trigger self.vn(v)] self.valid_vn(v) implies same_but_readers(self.vn(v), pre.vn(v)) by {}
            }
            return;
        };
        proof {
            lemma_first_index_block(pre.blk(block).predecessors@, predecessor, found);
        }
        self.blocks[block.0 as usize].predecessors.remove(slot);
        proof {
            let post = *self;
            assert(pre.block_wf(block));
            assert forall|x: GraphBlockId|
                #![trigger post.blk(x)]
                post.valid_block(x) implies blocks_below(post.blk(x).predecessors@, post.bls().len() as int)
                    && blocks_below(post.blk(x).successors@, post.bls().len() as int)
                    && same_but_edges(post.blk(x), pre.blk(x)) by {
                assert(pre.block_wf(x));
                if x == block {
                    let p = pre.blk(x).predecessors@;
                    let q = post.blk(x).predecessors@;
                    assert forall|k: int| 0 <= k < q.len() implies (#[trigger] q[k]).0 < post.bls().len() by {
                        if k < slot {
                            assert(q[k] == p[k]);
                        } else {
                            assert(q[k] == p[k + 1]);
                        }
                    }
                }
            }
            lemma_wf_edges(&pre, &post);
        }
        let ghost mid = *self;
        let phis = self.leading_phis_exec(block);
        proof {
            assert(mid.blk(block).ops == pre.blk(block).ops);
            assert(mid.opv() == pre.opv());
        }
        let mut j: usize = 0;
        while j < phis.len()
            invariant
                j <= phis@.len(),
                phis@ == leading_phis(pre.opv(), pre.blk(block).ops@),
                ops_below(phis@, pre.opv().len() as int),
                self.wf(),
                self.vns().len() == pre.vns().len(),
                forall|v: VarnodeId| #![trigger self.vn(v)] self.valid_vn(v) ==> same_but_readers(self.vn(v), pre.vn(v)),
                self.opv().len() == pre.opv().len(),
                self.bls() == mid.bls(),
                self.same_header(&pre),
                forall|o: OpId|
                    #![trigger self.opn(o)]
                    self.valid_op(o) ==> {
                        &&& self.opn(o).inputs@ == stripped(pre.opn(o).inputs@, phis@.take(j as int), o, slot as int)
                        &&& self.opn(o).opcode == pre.opn(o).opcode
                        &&& self.opn(o).seq == pre.opn(o).seq
                        &&& self.opn(o).output == pre.opn(o).output
                        &&& self.opn(o).parent == pre.opn(o).parent
                        &&& self.opn(o).dead == pre.opn(o).dead
                    },
            decreases phis@.len() - j,
        {
            let phi = phis[j];
            let ghost before = *self;
            proof {
                assert(phis@[j as int].0 < pre.opv().len());
                assert(self.op_wf(phi));
            }
            let mut inputs = copy_vn_ids(&self.ops[phi.0 as usize].inputs);
            let changed = slot < inputs.len();
            if changed {
                inputs.remove(slot);
                proof {
                    let s = self.opn(phi).inputs@;
                    assert forall|k: int| 0 <= k < inputs@.len() implies (#[trigger] inputs@[k]).0 < self.vns().len() by {
                        if k < slot {
                            assert(inputs@[k] == s[k]);
                        } else {
                            assert(inputs@[k] == s[k + 1]);
                        }
                    }
                }
                self.op_set_inputs(phi, inputs);
            }
            proof {
                assert(phis@.take(j + 1).drop_last() =~= phis@.take(j as int));
                assert(phis@.take(j + 1).last() == phi);
                assert forall|o: OpId|
                    #![trigger self.opn(o)]
                    self.valid_op(o) implies {
                        &&& self.opn(o).inputs@ == stripped(pre.opn(o).inputs@, phis@.take(j + 1), o, slot as int)
                        &&& self.opn(o).opcode == pre.opn(o).opcode
                        &&& self.opn(o).seq == pre.opn(o).seq
                        &&& self.opn(o).output == pre.opn(o).output
                        &&& self.opn(o).parent == pre.opn(o).parent
                        &&& self.opn(o).dead == pre.opn(o).dead
                    } by {
                    assert(before.opn(o).inputs@ == stripped(pre.opn(o).inputs@, phis@.take(j as int), o, slot as int));
                    if o != phi {
                        assert(self.opn(o) == before.opn(o));
                    }
                }
            }
            j += 1;
        }
        proof {
            assert(phis@.take(phis@.len() as int) =~= phis@);
            assert forall|x: GraphBlockId|
                #![trigger self.blk(x)]
                self.valid_block(x) implies same_but_edges(self.blk(x), pre.blk(x))
                    && self.blk(x).successors == pre.blk(x).successors
                    && (x != block ==> self.blk(x).predecessors == pre.blk(x).predecessors) by {
                assert(same_but_edges(mid.blk(x), pre.blk(x)));
                if x.0 != block.0 {
                    assert(mid.blk(x) == pre.blk(x));
                }
            }
        }
    }
}

/// `position_of_block` finds exactly `first_index_or`.
pub proof fn lemma_first_index_block(s: Seq<GraphBlockId>, x: GraphBlockId, found: Option<usize>)
    requires
        match found {
            Some(k) => k < s.len() && s[k as int] == x && forall|j: int| 0 <= j < k ==> s[j] != x,
            None => !s.contains(x),
        },
    ensures
        match found {
            Some(k) => first_index_or(s, x, 0) == k && s.contains(x),
            None => first_index_or(s, x, 0) == 0,
        },
{
    if let Some(k) = found {
        assert(s.contains(x));
        let c = first_index_or(s, x, 0);
        assert(0 <= c < s.len() && s[c] == x && forall|j: int| 0 <= j < c ==> s[j] != x);
        if c < k {
            assert(s[c] != x);
        }
        if c > k {
            assert(s[k as int] != x);
        }
    }
}

} // verus!

verus! {

impl Funcdata {
    /// Gives the edge `from -> to` the source `new_from`, keeping its position
    /// among `to`'s predecessors; merge operands are untouched.
    pub fn move_out_edge(&mut self, from: GraphBlockId, to: GraphBlockId, new_from: GraphBlockId)
        requires
            old(self).wf(),
            old(self).valid_block(from),
            old(self).valid_block(to),
            old(self).valid_block(new_from),
        ensures
            final(self).wf(),
            final(self).vns() == old(self).vns(),
            final(self).opv() == old(self).opv(),
            final(self).bls().len() == old(self).bls().len(),
            final(self).same_header(&*old(self)),
            !old(self).blk(to).predecessors@.contains(from) ==> final(self).bls() == old(self).bls(),
            old(self).blk(to).predecessors@.contains(from) ==> forall|x: GraphBlockId|
                #![trigger final(self).blk(x)]
                final(self).valid_block(x) ==> {
                    &&& same_but_edges(final(self).blk(x), old(self).blk(x))
                    &&& final(self).blk(x).predecessors@ == (if x == to {
                        old(self).blk(x).predecessors@.update(first_index_or(old(self).blk(to).predecessors@, from, 0), new_from)
                    } else {
                        old(self).blk(x).predecessors@
                    })
                    &&& final(self).blk(x).successors@ == ({
                        let dropped = if x == from {
                            drop_all(old(self).blk(x).successors@, to)
                        } else {
                            old(self).blk(x).successors@
                        };
                        if x == new_from { add_unique(dropped, to) } else { dropped }
                    })
                },
            old(self).blk(to).predecessors@.contains(from) && old(self).blk(new_from).successors@.no_duplicates()
                ==> final(self).blk(new_from).successors@.contains(to) && final(self).blk(new_from).successors@.no_duplicates(),
    {
        let ghost pre = *old(self);
        let found = position_of_block(&self.blocks[to.0 as usize].predecessors, from);
        let Some(slot) = found else {
            return;
        };
        proof {
            lemma_first_index_block(pre.blk(to).predecessors@, from, found);
        }
        self.blocks[to.0 as usize].predecessors.set(slot, new_from);
        let ghost s1 = *self;
        remove_block_id(&mut self.blocks[from.0 as usize].successors, to);
        let ghost s2 = *self;
        push_unique_block(&mut self.blocks[new_from.0 as usize].successors, to);
        proof {
            let post = *self;
            assert forall|x: GraphBlockId|
                #![trigger post.blk(x)]
                post.valid_block(x) implies {
                    &&& same_but_edges(post.blk(x), pre.blk(x))
                    &&& post.blk(x).predecessors@ == (if x == to {
                        pre.blk(x).predecessors@.update(slot as int, new_from)
                    } else {
                        pre.blk(x).predecessors@
                    })
                    &&& post.blk(x).successors@ == ({
                        let dropped = if x == from { drop_all(pre.blk(x).successors@, to) } else { pre.blk(x).successors@ };
                        if x == new_from { add_unique(dropped, to) } else { dropped }
                    })
                    &&& blocks_below(post.blk(x).predecessors@, post.bls().len() as int)
                    &&& blocks_below(post.blk(x).successors@, post.bls().len() as int)
                } by {
                assert(pre.block_wf(x));
                if x.0 != new_from.0 {
                    assert(post.blk(x) == s2.blk(x));
                }
                if x.0 != from.0 {
                    assert(s2.blk(x) == s1.blk(x));
                }
                if x.0 != to.0 {
                    assert(s1.blk(x) == pre.blk(x));
                }
                let p = post.blk(x).predecessors@;
                if x == to {
                    assert forall|k: int| 0 <= k < p.len() implies (#[trigger] p[k]).0 < post.bls().len() by {
                        if k != slot {
                            assert(p[k] == pre.blk(x).predecessors@[k]);
                        }
                    }
                }
                let dropped = if x == from { drop_all(pre.blk(x).successors@, to) } else { pre.blk(x).successors@ };
                if x == from {
                    lemma_drop_all_blocks_below(pre.blk(x).successors@, to, pre.bls().len() as int);
                }
                if x == new_from {
                    lemma_add_unique_below(dropped, to, pre.bls().len() as int);
                }
            }
            lemma_wf_edges(&pre, &post);
            if pre.blk(new_from).successors@.no_duplicates() {
                let dropped = if new_from == from {
                    drop_all(pre.blk(new_from).successors@, to)
                } else {
                    pre.blk(new_from).successors@
                };
                if new_from == from {
                    lemma_drop_all_no_duplicates(pre.blk(new_from).successors@, to);
                }
                assert(post.blk(new_from).successors@ == add_unique(dropped, to));
                if !dropped.contains(to) {
                    let q = dropped.push(to);
                    assert(q[dropped.len() as int] == to);
                    assert forall|a: int, b: int| 0 <= a < q.len() && 0 <= b < q.len() && a != b implies q[a] != q[b] by {
                        if a == dropped.len() {
                            assert(dropped[b] == q[b]);
                        } else if b == dropped.len() {
                            assert(dropped[a] == q[a]);
                        }
                    }
                }
            }
        }
    }

    /// Removes one edge and leaves the merge operands alone.
    pub fn remove_edge_keeping_merges(&mut self, from: GraphBlockId, to: GraphBlockId) -> (r: bool)
        requires
            old(self).wf(),
            old(self).valid_block(from),
            old(self).valid_block(to),
        ensures
            final(self).wf(),
            r == old(self).blk(from).successors@.contains(to),
            final(self).vns() == old(self).vns(),
            final(self).opv() == old(self).opv(),
            final(self).bls().len() == old(self).bls().len(),
            final(self).same_header(&*old(self)),
            !r ==> final(self).bls() == old(self).bls(),
            r ==> forall|x: GraphBlockId|
                #![trigger final(self).blk(x)]
                final(self).valid_block(x) ==> {
                    &&& same_but_edges(final(self).blk(x), old(self).blk(x))
                    &&& final(self).blk(x).successors@ == (if x == from {
                        drop_all(old(self).blk(x).successors@, to)
                    } else {
                        old(self).blk(x).successors@
                    })
                    &&& final(self).blk(x).predecessors@ == (if x == to && old(self).blk(to).predecessors@.contains(from) {
                        old(self).blk(x).predecessors@.remove(first_index_or(old(self).blk(to).predecessors@, from, 0))
                    } else {
                        old(self).blk(x).predecessors@
                    })
                },
    {
        let ghost pre = *old(self);
        if position_of_block(&self.blocks[from.0 as usize].successors, to).is_none() {
            return false;
        }
        remove_block_id(&mut self.blocks[from.0 as usize].successors, to);
        let ghost s1 = *self;
        let found = position_of_block(&self.blocks[to.0 as usize].predecessors, from);
        proof {
            assert(s1.blk(to).predecessors@ == pre.blk(to).predecessors@);
            lemma_first_index_block(pre.blk(to).predecessors@, from, found);
        }
        if let Some(slot) = found {
            self.blocks[to.0 as usize].predecessors.remove(slot);
        }
        proof {
            let post = *self;
            assert forall|x: GraphBlockId|
                #![trigger post.blk(x)]
                post.valid_block(x) implies {
                    &&& same_but_edges(post.blk(x), pre.blk(x))
                    &&& post.blk(x).successors@ == (if x == from { drop_all(pre.blk(x).successors@, to) } else { pre.blk(x).successors@ })
                    &&& post.blk(x).predecessors@ == (if x == to && pre.blk(to).predecessors@.contains(from) {
                        pre.blk(x).predecessors@.remove(first_index_or(pre.blk(to).predecessors@, from, 0))
                    } else {
                        pre.blk(x).predecessors@
                    })
                    &&& blocks_below(post.blk(x).predecessors@, post.bls().len() as int)
                    &&& blocks_below(post.blk(x).successors@, post.bls().len() as int)
                } by {
                assert(pre.block_wf(x));
                if x.0 != to.0 {
                    assert(post.blk(x) == s1.blk(x));
                }
                if x.0 != from.0 {
                    assert(s1.blk(x) == pre.blk(x));
                }
                if x == from {
                    lemma_drop_all_blocks_below(pre.blk(x).successors@, to, pre.bls().len() as int);
                }
                if x == to {
                    if let Some(slot) = found {
                        let p = pre.blk(x).predecessors@;
                        let q = post.blk(x).predecessors@;
                        assert forall|k: int| 0 <= k < q.len() implies (#[trigger] q[k]).0 < post.bls().len() by {
                            if k < slot {
                                assert(q[k] == p[k]);
                            } else {
                                assert(q[k] == p[k + 1]);
                            }
                        }
                    }
                }
            }
            lemma_wf_edges(&pre, &post);
        }
        true
    }

    /// Removes one control-flow edge, together with the merge operand the
    /// predecessor contributed at the target.
    pub fn remove_edge(&mut self, from: GraphBlockId, to: GraphBlockId) -> (r: bool)
        requires
            old(self).wf(),
            old(self).valid_block(from),
            old(self).valid_block(to),
        ensures
            final(self).wf(),
            r == old(self).blk(from).successors@.contains(to),
            !r ==> final(self).same_graph(&*old(self)),
            final(self).vns().len() == old(self).vns().len(),
            forall|v: VarnodeId| #![trigger final(self).vn(v)] final(self).valid_vn(v) ==> same_but_readers(final(self).vn(v), old(self).vn(v)),
            final(self).opv().len() == old(self).opv().len(),
            final(self).bls().len() == old(self).bls().len(),
            final(self).same_header(&*old(self)),
            r ==> forall|x: GraphBlockId|
                #![trigger final(self).blk(x)]
                final(self).valid_block(x) ==> {
                    &&& same_but_edges(final(self).blk(x), old(self).blk(x))
                    &&& final(self).blk(x).successors@ == (if x == from {
                        drop_all(old(self).blk(x).successors@, to)
                    } else {
                        old(self).blk(x).successors@
                    })
                    &&& final(self).blk(x).predecessors@ == (if x == to && old(self).blk(to).predecessors@.contains(from) {
                        old(self).blk(x).predecessors@.remove(first_index_or(old(self).blk(to).predecessors@, from, 0))
                    } else {
                        old(self).blk(x).predecessors@
                    })
                },
            r ==> forall|o: OpId|
                #![trigger final(self).opn(o)]
                final(self).valid_op(o) ==> {
                    &&& final(self).opn(o).inputs@ == (if old(self).blk(to).predecessors@.contains(from) {
                        stripped(
                            old(self).opn(o).inputs@,
                            leading_phis(old(self).opv(), old(self).blk(to).ops@),
                            o,
                            first_index_or(old(self).blk(to).predecessors@, from, 0),
                        )
                    } else {
                        old(self).opn(o).inputs@
                    })
                    &&& final(self).opn(o).opcode == old(self).opn(o).opcode
                    &&& final(self).opn(o).seq == old(self).opn(o).seq
                    &&& final(self).opn(o).output == old(self).opn(o).output
                    &&& final(self).opn(o).parent == old(self).opn(o).parent
                    &&& final(self).opn(o).dead == old(self).opn(o).dead
                },
    {
        let ghost pre = *old(self);
        if position_of_block(&self.blocks[from.0 as usize].successors, to).is_none() {
            return false;
        }
        remove_block_id(&mut self.blocks[from.0 as usize].successors, to);
        let ghost s1 = *self;
        proof {
            assert forall|x: GraphBlockId|
                #![trigger s1.blk(x)]
                s1.valid_block(x) implies same_but_edges(s1.blk(x), pre.blk(x))
                    && blocks_below(s1.blk(x).predecessors@, s1.bls().len() as int)
                    && blocks_below(s1.blk(x).successors@, s1.bls().len() as int) by {
                assert(pre.block_wf(x));
                if x.0 != from.0 {
                    assert(s1.blk(x) == pre.blk(x));
                } else {
                    lemma_drop_all_blocks_below(pre.blk(x).successors@, to, pre.bls().len() as int);
                }
            }
            lemma_wf_edges(&pre, &s1);
        }
        self.detach_predecessor(to, from);
        proof {
            let post = *self;
            assert(s1.blk(to) == pre.blk(to) || from == to);
            assert(s1.blk(to).predecessors == pre.blk(to).predecessors);
            assert(s1.blk(to).ops == pre.blk(to).ops);
            assert(s1.opv() == pre.opv());
            assert forall|x: GraphBlockId|
                #![trigger post.blk(x)]
                post.valid_block(x) implies {
                    &&& same_but_edges(post.blk(x), pre.blk(x))
                    &&& post.blk(x).successors@ == (if x == from { drop_all(pre.blk(x).successors@, to) } else { pre.blk(x).successors@ })
                    &&& post.blk(x).predecessors@ == (if x == to && pre.blk(to).predecessors@.contains(from) {
                        pre.blk(x).predecessors@.remove(first_index_or(pre.blk(to).predecessors@, from, 0))
                    } else {
                        pre.blk(x).predecessors@
                    })
                } by {
                assert(same_but_edges(post.blk(x), s1.blk(x)));
                assert(same_but_edges(s1.blk(x), pre.blk(x)));
                if x.0 != from.0 {
                    assert(s1.blk(x) == pre.blk(x));
                }
            }
            assert forall|v: VarnodeId| #![trigger post.vn(v)] post.valid_vn(v) implies same_but_readers(post.vn(v), pre.vn(v)) by {
                assert(same_but_readers(post.vn(v), s1.vn(v)));
            }
            if !pre.blk(to).predecessors@.contains(from) {
                assert forall|o: OpId| #![trigger post.opn(o)] post.valid_op(o) implies post.opn(o) == pre.opn(o) by {}
            }
        }
        true
    }
}

} // verus!

verus! {

/// One step along a merge chain: a live `MULTIEQUAL` reading `v` writes `w`.
pub open spec fn phi_step(d: &Funcdata, v: VarnodeId, w: VarnodeId) -> bool {
    exists|k: int|
        0 <= k < d.vn(v).descendants@.len() && {
            let o = #[trigger] d.vn(v).descendants@[k];
            &&& !d.opn(o).dead
            &&& d.opn(o).opcode == crate::pcode::MULTIEQUAL
            &&& d.opn(o).output == Some(w)
        }
}

/// `v` has a live reader that is neither an `INDIRECT` nor a merge with a
/// result to follow.
pub open spec fn bad_reader(d: &Funcdata, v: VarnodeId) -> bool {
    exists|k: int|
        0 <= k < d.vn(v).descendants@.len() && {
            let o = #[trigger] d.vn(v).descendants@[k];
            &&& !d.opn(o).dead
            &&& d.opn(o).opcode != crate::pcode::INDIRECT
            &&& !(d.opn(o).opcode == crate::pcode::MULTIEQUAL && d.opn(o).output is Some)
        }
}

/// Step `i` of `p` is a merge step.
pub open spec fn path_step(d: &Funcdata, p: Seq<VarnodeId>, i: int) -> bool {
    phi_step(d, p[i], p[i + 1])
}

/// `p` is a chain of merge steps starting at `root`.
pub open spec fn merge_path(d: &Funcdata, root: VarnodeId, p: Seq<VarnodeId>) -> bool {
    &&& p.len() > 0
    &&& p[0] == root
    &&& forall|i: int| 0 <= i < p.len() - 1 ==> #[trigger] path_step(d, p, i)
}

/// `v` is reached from `root` by some number of merge steps.
pub open spec fn reachable_from(d: &Funcdata, root: VarnodeId, v: VarnodeId) -> bool {
    exists|p: Seq<VarnodeId>| #[trigger] merge_path(d, root, p) && p.last() == v
}

/// Every use chain of `root`, followed through merges, ends at an
/// `INDIRECT`.
pub open spec fn only_indirect_uses(d: &Funcdata, root: VarnodeId) -> bool {
    forall|p: Seq<VarnodeId>| #[trigger] merge_path(d, root, p) ==> !bad_reader(d, p.last())
}

/// A merge chain extended by one more merge step is still a merge chain.
pub proof fn lemma_path_push(d: &Funcdata, root: VarnodeId, p: Seq<VarnodeId>, w: VarnodeId)
    requires
        merge_path(d, root, p),
        phi_step(d, p.last(), w),
    ensures
        merge_path(d, root, p.push(w)),
        p.push(w).last() == w,
{
    let q = p.push(w);
    assert forall|i: int| 0 <= i < q.len() - 1 implies #[trigger] path_step(d, q, i) by {
        if i < p.len() - 1 {
            assert(path_step(d, p, i));
            assert(q[i] == p[i] && q[i + 1] == p[i + 1]);
        } else {
            assert(q[i] == p.last() && q[i + 1] == w);
        }
    }
}

/// A merge chain without its last step is still a merge chain.
pub proof fn lemma_path_drop_last(d: &Funcdata, root: VarnodeId, p: Seq<VarnodeId>)
    requires
        merge_path(d, root, p),
        p.len() > 1,
    ensures
        merge_path(d, root, p.drop_last()),
        phi_step(d, p.drop_last().last(), p.last()),
{
    let q = p.drop_last();
    assert forall|i: int| 0 <= i < q.len() - 1 implies #[trigger] path_step(d, q, i) by {
        assert(path_step(d, p, i));
        assert(q[i] == p[i] && q[i + 1] == p[i + 1]);
    }
    assert(path_step(d, p, p.len() - 2));
}

/// The number of `false` entries among the first `n`.
pub open spec fn count_false(s: Seq<bool>, n: int) -> nat
    decreases n,
{
    if n <= 0 {
        0
    } else {
        count_false(s, n - 1) + if s[n - 1] { 0nat } else { 1nat }
    }
}

pub proof fn lemma_count_false_set(s: Seq<bool>, i: int, n: int)
    requires
        0 <= i < n <= s.len(),
        !s[i],
    ensures
        count_false(s.update(i, true), n) + 1 == count_false(s, n),
    decreases n,
{
    if n - 1 > i {
        lemma_count_false_set(s, i, n - 1);
    } else {
        lemma_count_false_same(s, s.update(i, true), i);
    }
}

pub proof fn lemma_count_false_same(s: Seq<bool>, t: Seq<bool>, n: int)
    requires
        0 <= n <= s.len(),
        n <= t.len(),
        forall|k: int| 0 <= k < n ==> s[k] == t[k],
    ensures
        count_false(s, n) == count_false(t, n),
    decreases n,
{
    if n > 0 {
        lemma_count_false_same(s, t, n - 1);
    }
}

/// What the merge-chain search has established so far.
pub open spec fn search_state(d: &Funcdata, root: VarnodeId, seen: Seq<bool>, pending: Seq<VarnodeId>) -> bool {
    &&& seen.len() == d.vns().len()
    &&& vns_below(pending, d.vns().len() as int)
    &&& forall|k: int| 0 <= k < pending.len() ==> reachable_from(d, root, #[trigger] pending[k])
    &&& forall|v: VarnodeId| d.valid_vn(v) && #[trigger] seen[v.0 as int] ==> reachable_from(d, root, v)
    &&& forall|v: VarnodeId| d.valid_vn(v) && #[trigger] seen[v.0 as int] ==> !bad_reader(d, v)
    &&& forall|v: VarnodeId, w: VarnodeId|
        d.valid_vn(v) && #[trigger] seen[v.0 as int] && #[trigger] phi_step(d, v, w) ==> (seen[w.0 as int] || pending.contains(w))
    &&& (seen[root.0 as int] || pending.contains(root))
}

/// The result of a merge step is a value of the graph.
pub proof fn lemma_phi_step_valid(d: &Funcdata, v: VarnodeId, w: VarnodeId)
    requires
        d.wf(),
        d.valid_vn(v),
        phi_step(d, v, w),
    ensures
        d.valid_vn(w),
{
    assert(d.vn_wf(v));
    let k = choose|k: int|
        0 <= k < d.vn(v).descendants@.len() && {
            let o = #[trigger] d.vn(v).descendants@[k];
            &&& !d.opn(o).dead
            &&& d.opn(o).opcode == crate::pcode::MULTIEQUAL
            &&& d.opn(o).output == Some(w)
        };
    let o = d.vn(v).descendants@[k];
    assert(d.vn(v).descendants@[k].0 < d.opv().len());
    assert(d.op_wf(o));
}

/// A closed set of visited values that holds the root holds everything the
/// root reaches.
pub proof fn lemma_closed_covers(d: &Funcdata, root: VarnodeId, seen: Seq<bool>, p: Seq<VarnodeId>)
    requires
        d.wf(),
        d.valid_vn(root),
        seen.len() == d.vns().len(),
        seen[root.0 as int],
        forall|x: VarnodeId, w: VarnodeId|
            d.valid_vn(x) && #[trigger] seen[x.0 as int] && #[trigger] phi_step(d, x, w) ==> seen[w.0 as int],
        merge_path(d, root, p),
    ensures
        d.valid_vn(p.last()),
        seen[p.last().0 as int],
    decreases p.len(),
{
    if p.len() > 1 {
        let q = p.drop_last();
        lemma_path_drop_last(d, root, p);
        lemma_closed_covers(d, root, seen, q);
        let u = q.last();
        let v = p.last();
        assert(d.vn_wf(u));
        let k = choose|k: int|
            0 <= k < d.vn(u).descendants@.len() && {
                let o = #[trigger] d.vn(u).descendants@[k];
                &&& !d.opn(o).dead
                &&& d.opn(o).opcode == crate::pcode::MULTIEQUAL
                &&& d.opn(o).output == Some(v)
            };
        let o = d.vn(u).descendants@[k];
        assert(d.vn(u).descendants@[k].0 < d.opv().len());
        assert(d.op_wf(o));
    }
}

impl Funcdata {
    /// Whether every use chain of `root`, through merges, ends at an
    /// `INDIRECT`.
    fn uses_only_indirect(&self, root: VarnodeId) -> (r: bool)
        requires
            self.wf(),
            self.valid_vn(root),
        ensures
            r == only_indirect_uses(self, root),
    {
        let mut seen: Vec<bool> = Vec::new();
        let mut fill: usize = 0;
        while fill < self.varnodes.len()
            invariant
                fill <= self.vns().len(),
                seen@.len() == fill,
                forall|k: int| 0 <= k < fill ==> !seen@[k],
            decreases self.vns().len() - fill,
        {
            seen.push(false);
            fill += 1;
        }
        let mut pending: Vec<VarnodeId> = Vec::new();
        pending.push(root);
        proof {
            assert(merge_path(self, root, seq![root]));
            assert(seq![root].last() == root);
            assert(reachable_from(self, root, root));
            assert(pending@[0] == root);
            assert(pending@.contains(root));
        }
        loop
            invariant
                self.wf(),
                self.valid_vn(root),
                search_state(self, root, seen@, pending@),
            decreases count_false(seen@, seen@.len() as int), pending@.len(),
        {
            let ghost before_pending = pending@;
            let Some(value) = pending.pop() else {
                proof {
                    assert(pending@.len() == 0);
                    assert forall|p: Seq<VarnodeId>| #[trigger] merge_path(self, root, p) implies !bad_reader(self, p.last()) by {
                        lemma_closed_covers(self, root, seen@, p);
                    }
                }
                return true;
            };
            proof {
                assert(before_pending == pending@.push(value));
                assert(before_pending[before_pending.len() - 1] == value);
                assert(reachable_from(self, root, before_pending[before_pending.len() - 1]));
                assert forall|w: VarnodeId| #[trigger] before_pending.contains(w) && w != value implies pending@.contains(w) by {
                    let k = choose|k: int| 0 <= k < before_pending.len() && before_pending[k] == w;
                    assert(pending@[k] == w);
                }
                assert forall|k: int| 0 <= k < pending@.len() implies reachable_from(self, root, #[trigger] pending@[k]) by {
                    assert(pending@[k] == before_pending[k]);
                }
                assert(vns_below(pending@, self.vns().len() as int)) by {
                    assert forall|k: int| 0 <= k < pending@.len() implies (#[trigger] pending@[k]).0 < self.vns().len() by {
                        assert(pending@[k] == before_pending[k]);
                    }
                }
            }
            let index = value.0 as usize;
            if seen[index] {
                proof {
                    assert forall|v: VarnodeId, w: VarnodeId|
                        self.valid_vn(v) && #[trigger] seen@[v.0 as int] && #[trigger] phi_step(self, v, w) implies (seen@[w.0 as int]
                        || pending@.contains(w)) by {
                        if !seen@[w.0 as int] {
                            assert(before_pending.contains(w));
                            assert(w != value);
                            assert(pending@.contains(w));
                        }
                    }
                    if !seen@[root.0 as int] {
                        assert(before_pending.contains(root));
                        assert(root != value);
                        assert(pending@.contains(root));
                    }
                }
                continue;
            }
            let ghost seen_before = seen@;
            seen.set(index, true);
            proof {
                lemma_count_false_set(seen_before, index as int, seen_before.len() as int);
            }
            let descendants = &self.varnodes[index].descendants;
            proof {
                assert(self.vn_wf(value));
            }
            let mut j: usize = 0;
            while j < descendants.len()
                invariant
                    j <= descendants@.len(),
                    *descendants == self.vn(value).descendants,
                    self.wf(),
                    self.valid_vn(root),
                    self.valid_vn(value),
                    ops_below(descendants@, self.opv().len() as int),
                    reachable_from(self, root, value),
                    seen@ == seen_before.update(index as int, true),
                    search_state(self, root, seen_before, before_pending),
                    before_pending.len() > 0,
                    before_pending[before_pending.len() - 1] == value,
                    index == value.0,
                    seen@.len() == self.vns().len(),
                    vns_below(pending@, self.vns().len() as int),
                    forall|k: int| 0 <= k < pending@.len() ==> reachable_from(self, root, #[trigger] pending@[k]),
                    forall|w: VarnodeId| #[trigger] before_pending.contains(w) && w != value ==> pending@.contains(w),
                    forall|k: int| 0 <= k < j ==> {
                        let o = #[trigger] descendants@[k];
                        &&& !(!self.opn(o).dead && self.opn(o).opcode != crate::pcode::INDIRECT && !(self.opn(o).opcode
                            == crate::pcode::MULTIEQUAL && self.opn(o).output is Some))
                        &&& (!self.opn(o).dead && self.opn(o).opcode == crate::pcode::MULTIEQUAL && self.opn(o).output is Some)
                            ==> pending@.contains(self.opn(o).output.unwrap())
                    },
                    count_false(seen@, seen@.len() as int) < count_false(seen_before, seen_before.len() as int),
                decreases descendants@.len() - j,
            {
                let op_id = descendants[j];
                proof {
                    assert(descendants@[j as int].0 < self.opv().len());
                }
                let operation = &self.ops[op_id.0 as usize];
                if !operation.dead {
                    if operation.opcode == crate::pcode::INDIRECT {
                    } else if operation.opcode == crate::pcode::MULTIEQUAL {
                        let Some(output) = operation.output else {
                            proof {
                                assert(descendants@[j as int] == op_id);
                                assert(bad_reader(self, value));
                                let p = choose|p: Seq<VarnodeId>| #[trigger] merge_path(self, root, p) && p.last() == value;
                                assert(merge_path(self, root, p));
                                assert(!only_indirect_uses(self, root));
                            }
                            return false;
                        };
                        let ghost pushed_before = pending@;
                        pending.push(output);
                        proof {
                            assert(self.op_wf(op_id));
                            assert(descendants@[j as int] == op_id);
                            assert(phi_step(self, value, output));
                            let p = choose|p: Seq<VarnodeId>| #[trigger] merge_path(self, root, p) && p.last() == value;
                            lemma_path_push(self, root, p, output);
                            assert(reachable_from(self, root, output));
                            assert forall|k: int| 0 <= k < pending@.len() implies reachable_from(self, root, #[trigger] pending@[k]) by {
                                if k < pushed_before.len() {
                                    assert(pending@[k] == pushed_before[k]);
                                }
                            }
                            assert forall|w: VarnodeId| pushed_before.contains(w) implies pending@.contains(w) by {
                                let k = choose|k: int| 0 <= k < pushed_before.len() && pushed_before[k] == w;
                                assert(pending@[k] == w);
                            }
                            assert(pending@[pending@.len() - 1] == output);
                            assert(vns_below(pending@, self.vns().len() as int)) by {
                                assert forall|k: int| 0 <= k < pending@.len() implies (#[trigger] pending@[k]).0 < self.vns().len() by {
                                    if k < pushed_before.len() {
                                        assert(pending@[k] == pushed_before[k]);
                                    }
                                }
                            }
                        }
                    } else {
                        proof {
                            assert(descendants@[j as int] == op_id);
                            assert(bad_reader(self, value));
                            let p = choose|p: Seq<VarnodeId>| #[trigger] merge_path(self, root, p) && p.last() == value;
                            assert(merge_path(self, root, p));
                            assert(!only_indirect_uses(self, root));
                        }
                        return false;
                    }
                }
                j += 1;
            }
            proof {
                assert(!bad_reader(self, value));
                assert forall|v: VarnodeId| self.valid_vn(v) && #[trigger] seen@[v.0 as int] implies reachable_from(self, root, v) by {
                    if v != value {
                        assert(seen_before[v.0 as int]);
                    }
                }
                assert forall|v: VarnodeId| self.valid_vn(v) && #[trigger] seen@[v.0 as int] implies !bad_reader(self, v) by {
                    if v != value {
                        assert(seen_before[v.0 as int]);
                    }
                }
                assert forall|v: VarnodeId, w: VarnodeId|
                    self.valid_vn(v) && #[trigger] seen@[v.0 as int] && #[trigger] phi_step(self, v, w) implies (seen@[w.0 as int]
                    || pending@.contains(w)) by {
                    if v == value {
                        let k = choose|k: int|
                            0 <= k < self.vn(v).descendants@.len() && {
                                let o = #[trigger] self.vn(v).descendants@[k];
                                &&& !self.opn(o).dead
                                &&& self.opn(o).opcode == crate::pcode::MULTIEQUAL
                                &&& self.opn(o).output == Some(w)
                            };
                        assert(descendants@[k] == self.vn(v).descendants@[k]);
                    } else {
                        assert(seen_before[v.0 as int]);
                        lemma_phi_step_valid(self, v, w);
                        if !seen@[w.0 as int] {
                            assert(w != value);
                            assert(!seen_before[w.0 as int]);
                            assert(before_pending.contains(w));
                        }
                    }
                }
                if !seen@[root.0 as int] {
                    assert(root != value);
                    assert(before_pending.contains(root));
                }
            }
        }
    }
}

} // verus!

verus! {

/// An abnormal input whose every use reaches an `INDIRECT`.
pub open spec fn indirect_only_candidate(d: &Funcdata, v: VarnodeId) -> bool {
    &&& d.vn(v).flags.input
    &&& !d.vn(v).flags.direct_write
    &&& only_indirect_uses(d, v)
}

/// Candidates among the first `n` varnodes that do not carry the mark yet.
pub open spec fn newly_indirect_only(d: &Funcdata, n: int) -> nat
    decreases n,
{
    if n <= 0 {
        0
    } else {
        let v = VarnodeId((n - 1) as u32);
        newly_indirect_only(d, n - 1) + if indirect_only_candidate(d, v) && !d.vn(v).flags.indirect_only {
            1nat
        } else {
            0nat
        }
    }
}

impl Funcdata {
    /// Marks abnormal inputs whose complete use chain reaches `INDIRECT`,
    /// returning how many were newly marked.
    pub fn mark_indirect_only(&mut self) -> (marked: usize)
        requires
            old(self).wf(),
        ensures
            final(self).wf(),
            marked == newly_indirect_only(&*old(self), old(self).vns().len() as int),
            final(self).vns().len() == old(self).vns().len(),
            forall|v: VarnodeId|
                #![trigger final(self).vn(v)]
                final(self).valid_vn(v) ==> final(self).vn(v) == (GraphVarnode {
                    flags: VarnodeFlags {
                        indirect_only: old(self).vn(v).flags.indirect_only || indirect_only_candidate(&*old(self), v),
                        ..old(self).vn(v).flags
                    },
                    ..old(self).vn(v)
                }),
            final(self).opv() == old(self).opv(),
            final(self).bls() == old(self).bls(),
            final(self).same_header(&*old(self)),
    {
        let ghost pre = *self;
        let count = self.varnodes.len();
        let mut targets: Vec<bool> = Vec::new();
        let mut scan: usize = 0;
        while scan < count
            invariant
                scan <= count,
                count == self.vns().len(),
                self.wf(),
                targets@.len() == scan,
                forall|k: int| 0 <= k < scan ==> targets@[k] == indirect_only_candidate(self, VarnodeId(k as u32)),
            decreases count - scan,
        {
            let flags = self.varnodes[scan].flags;
            let candidate = flags.input && !flags.direct_write && self.uses_only_indirect(VarnodeId(scan as u32));
            targets.push(candidate);
            scan += 1;
        }
        let mut marked: usize = 0;
        let mut index: usize = 0;
        while index < count
            invariant
                index <= count,
                count == pre.vns().len(),
                targets@.len() == count,
                forall|k: int| 0 <= k < count ==> targets@[k] == indirect_only_candidate(&pre, VarnodeId(k as u32)),
                pre.wf(),
                self.wf(),
                marked == newly_indirect_only(&pre, index as int),
                marked <= index,
                self.vns().len() == pre.vns().len(),
                self.opv() == pre.opv(),
                self.bls() == pre.bls(),
                self.same_header(&pre),
                forall|v: VarnodeId|
                    #![trigger self.vn(v)]
                    self.valid_vn(v) ==> self.vn(v) == (if (v.0 as int) < index {
                        GraphVarnode {
                            flags: VarnodeFlags {
                                indirect_only: pre.vn(v).flags.indirect_only || indirect_only_candidate(&pre, v),
                                ..pre.vn(v).flags
                            },
                            ..pre.vn(v)
                        }
                    } else {
                        pre.vn(v)
                    }),
            decreases count - index,
        {
            let id = VarnodeId(index as u32);
            let flags = self.varnodes[index].flags;
            proof {
                assert(self.vn(id) == pre.vn(id));
            }
            let candidate = targets[index];
            let ghost before = *self;
            if candidate && !flags.indirect_only {
                self.varnodes[index].flags.indirect_only = true;
                marked += 1;
                proof {
                    lemma_wf_relabel(&before, self);
                }
            }
            proof {
                assert forall|v: VarnodeId|
                    #![trigger self.vn(v)]
                    self.valid_vn(v) implies self.vn(v) == (if (v.0 as int) < index + 1 {
                        GraphVarnode {
                            flags: VarnodeFlags {
                                indirect_only: pre.vn(v).flags.indirect_only || indirect_only_candidate(&pre, v),
                                ..pre.vn(v).flags
                            },
                            ..pre.vn(v)
                        }
                    } else {
                        pre.vn(v)
                    }) by {
                    assert(before.vn(v) == (if (v.0 as int) < index {
                        GraphVarnode {
                            flags: VarnodeFlags {
                                indirect_only: pre.vn(v).flags.indirect_only || indirect_only_candidate(&pre, v),
                                ..pre.vn(v).flags
                            },
                            ..pre.vn(v)
                        }
                    } else {
                        pre.vn(v)
                    }));
                    if v.0 != index {
                        assert(self.vn(v) == before.vn(v));
                    } else {
                        assert(v == id);
                    }
                }
            }
            index += 1;
        }
        marked
    }
}

} // verus!

verus! {

/// Step `i` of `p` follows a control-flow edge.
pub open spec fn edge_step(d: &Funcdata, p: Seq<GraphBlockId>, i: int) -> bool {
    d.blk(p[i]).successors@.contains(p[i + 1])
}

/// `p` is a control-flow path starting at `from`.
pub open spec fn block_path(d: &Funcdata, from: GraphBlockId, p: Seq<GraphBlockId>) -> bool {
    &&& p.len() > 0
    &&& p[0] == from
    &&& forall|i: int| 0 <= i < p.len() - 1 ==> #[trigger] edge_step(d, p, i)
}

/// `to` is reached from `from` along control-flow edges.
pub open spec fn block_reachable(d: &Funcdata, from: GraphBlockId, to: GraphBlockId) -> bool {
    exists|p: Seq<GraphBlockId>| #[trigger] block_path(d, from, p) && p.last() == to
}

/// A path extended by one more edge is still a path.
pub proof fn lemma_block_path_push(d: &Funcdata, from: GraphBlockId, p: Seq<GraphBlockId>, w: GraphBlockId)
    requires
        block_path(d, from, p),
        d.blk(p.last()).successors@.contains(w),
    ensures
        block_path(d, from, p.push(w)),
        p.push(w).last() == w,
{
    let q = p.push(w);
    assert forall|i: int| 0 <= i < q.len() - 1 implies #[trigger] edge_step(d, q, i) by {
        if i < p.len() - 1 {
            assert(edge_step(d, p, i));
            assert(q[i] == p[i] && q[i + 1] == p[i + 1]);
        } else {
            assert(q[i] == p.last() && q[i + 1] == w);
        }
    }
}

/// A path without its last edge is still a path.
pub proof fn lemma_block_path_drop_last(d: &Funcdata, from: GraphBlockId, p: Seq<GraphBlockId>)
    requires
        block_path(d, from, p),
        p.len() > 1,
    ensures
        block_path(d, from, p.drop_last()),
        d.blk(p.drop_last().last()).successors@.contains(p.last()),
{
    let q = p.drop_last();
    assert forall|i: int| 0 <= i < q.len() - 1 implies #[trigger] edge_step(d, q, i) by {
        assert(edge_step(d, p, i));
        assert(q[i] == p[i] && q[i + 1] == p[i + 1]);
    }
    assert(edge_step(d, p, p.len() - 2));
}

/// A block that a path reaches is a block of the graph.
pub proof fn lemma_block_path_valid(d: &Funcdata, from: GraphBlockId, p: Seq<GraphBlockId>)
    requires
        d.wf(),
        d.valid_block(from),
        block_path(d, from, p),
    ensures
        forall|k: int| 0 <= k < p.len() ==> d.valid_block(#[trigger] p[k]),
    decreases p.len(),
{
    if p.len() > 1 {
        let q = p.drop_last();
        lemma_block_path_drop_last(d, from, p);
        lemma_block_path_valid(d, from, q);
        assert(d.valid_block(q[q.len() - 1]));
        assert(d.block_wf(q.last()));
        let s = d.blk(q.last()).successors@;
        let j = choose|j: int| 0 <= j < s.len() && s[j] == p.last();
        assert(s[j].0 < d.bls().len());
        assert forall|k: int| 0 <= k < p.len() implies d.valid_block(#[trigger] p[k]) by {
            if k < p.len() - 1 {
                assert(p[k] == q[k]);
            }
        }
    }
}

/// A live block that the function starts at: its first instruction is the
/// entry address.
pub open spec fn entry_candidate(d: &Funcdata, i: int) -> bool {
    &&& !d.bls()[i].dead
    &&& d.bls()[i].start == d.spec_entry()
    &&& d.bls()[i].start_order == 0
}

/// The first entry candidate among the first `n` slots.
pub open spec fn first_entry(d: &Funcdata, n: int) -> Option<GraphBlockId>
    decreases n,
{
    if n <= 0 {
        None
    } else {
        match first_entry(d, n - 1) {
            Some(b) => Some(b),
            None => if entry_candidate(d, n - 1) {
                Some(GraphBlockId((n - 1) as u32))
            } else {
                None
            },
        }
    }
}

/// The first live block among the first `n` slots.
pub open spec fn first_live(d: &Funcdata, n: int) -> Option<GraphBlockId>
    decreases n,
{
    if n <= 0 {
        None
    } else {
        match first_live(d, n - 1) {
            Some(b) => Some(b),
            None => if !d.bls()[n - 1].dead {
                Some(GraphBlockId((n - 1) as u32))
            } else {
                None
            },
        }
    }
}

/// The block control flow starts in: the first live block at the entry
/// address, else the first live block; none in a graph with no live block.
pub open spec fn entry_block(d: &Funcdata) -> Option<GraphBlockId> {
    match first_entry(d, d.bls().len() as int) {
        Some(b) => Some(b),
        None => first_live(d, d.bls().len() as int),
    }
}

/// `x` is reached from the entry block.
pub open spec fn reached(d: &Funcdata, x: GraphBlockId) -> bool {
    entry_block(d) matches Some(e) && block_reachable(d, e, x)
}

/// The live blocks among the first `n` slots that the entry does not reach.
pub open spec fn unreached_blocks(d: &Funcdata, n: int) -> Seq<GraphBlockId>
    decreases n,
{
    if n <= 0 {
        Seq::empty()
    } else {
        let id = GraphBlockId((n - 1) as u32);
        if !d.bls()[n - 1].dead && !reached(d, id) {
            unreached_blocks(d, n - 1).push(id)
        } else {
            unreached_blocks(d, n - 1)
        }
    }
}

pub proof fn lemma_first_entry(d: &Funcdata, n: int)
    requires
        0 <= n <= d.bls().len(),
        d.bls().len() <= u32::MAX,
    ensures
        first_entry(d, n) matches Some(b) ==> 0 <= b.0 < n && entry_candidate(d, b.0 as int) && forall|k: int|
            0 <= k < b.0 ==> !#[trigger] entry_candidate(d, k),
        first_entry(d, n) is None ==> forall|k: int| 0 <= k < n ==> !#[trigger] entry_candidate(d, k),
    decreases n,
{
    if n > 0 {
        lemma_first_entry(d, n - 1);
    }
}

pub proof fn lemma_first_live(d: &Funcdata, n: int)
    requires
        0 <= n <= d.bls().len(),
        d.bls().len() <= u32::MAX,
    ensures
        first_live(d, n) matches Some(b) ==> 0 <= b.0 < n && !d.bls()[b.0 as int].dead && forall|k: int|
            0 <= k < b.0 ==> #[trigger] d.bls()[k].dead,
        first_live(d, n) is None ==> forall|k: int| 0 <= k < n ==> #[trigger] d.bls()[k].dead,
    decreases n,
{
    if n > 0 {
        lemma_first_live(d, n - 1);
    }
}

impl Funcdata {
    /// The block control flow starts in.
    fn entry_block_exec(&self) -> (r: Option<GraphBlockId>)
        requires
            self.wf(),
        ensures
            r == entry_block(self),
            r matches Some(b) ==> self.valid_block(b) && !self.blk(b).dead,
    {
        let mut i: usize = 0;
        while i < self.blocks.len()
            invariant
                i <= self.bls().len(),
                self.wf(),
                first_entry(self, i as int) is None,
            decreases self.bls().len() - i,
        {
            let b = &self.blocks[i];
            if !b.dead && b.start == self.entry && b.start_order == 0 {
                proof {
                    lemma_first_entry(self, self.bls().len() as int);
                    lemma_first_entry(self, i as int + 1);
                    assert(first_entry(self, i as int + 1) == Some(GraphBlockId(i as u32)));
                    lemma_first_entry_stable(self, i as int + 1, self.bls().len() as int);
                }
                return Some(GraphBlockId(i as u32));
            }
            i += 1;
        }
        let mut j: usize = 0;
        while j < self.blocks.len()
            invariant
                j <= self.bls().len(),
                self.wf(),
                first_entry(self, self.bls().len() as int) is None,
                first_live(self, j as int) is None,
            decreases self.bls().len() - j,
        {
            if !self.blocks[j].dead {
                proof {
                    assert(first_live(self, j as int + 1) == Some(GraphBlockId(j as u32)));
                    lemma_first_live_stable(self, j as int + 1, self.bls().len() as int);
                }
                return Some(GraphBlockId(j as u32));
            }
            j += 1;
        }
        None
    }
}

pub proof fn lemma_first_entry_stable(d: &Funcdata, n: int, m: int)
    requires
        0 <= n <= m,
        first_entry(d, n) is Some,
    ensures
        first_entry(d, m) == first_entry(d, n),
    decreases m - n,
{
    if m > n {
        lemma_first_entry_stable(d, n, m - 1);
    }
}

pub proof fn lemma_first_live_stable(d: &Funcdata, n: int, m: int)
    requires
        0 <= n <= m,
        first_live(d, n) is Some,
    ensures
        first_live(d, m) == first_live(d, n),
    decreases m - n,
{
    if m > n {
        lemma_first_live_stable(d, n, m - 1);
    }
}

/// A closed set of blocks holding `from` holds everything `from` reaches.
pub proof fn lemma_closed_blocks(d: &Funcdata, from: GraphBlockId, seen: Seq<bool>, p: Seq<GraphBlockId>)
    requires
        d.wf(),
        d.valid_block(from),
        seen.len() == d.bls().len(),
        seen[from.0 as int],
        forall|x: GraphBlockId, w: GraphBlockId|
            d.valid_block(x) && #[trigger] seen[x.0 as int] && #[trigger] d.blk(x).successors@.contains(w) ==> seen[w.0 as int],
        block_path(d, from, p),
    ensures
        seen[p.last().0 as int],
{
    lemma_block_path_valid(d, from, p);
    lemma_closed_blocks_rec(d, from, seen, p);
}

proof fn lemma_closed_blocks_rec(d: &Funcdata, from: GraphBlockId, seen: Seq<bool>, p: Seq<GraphBlockId>)
    requires
        d.wf(),
        d.valid_block(from),
        seen.len() == d.bls().len(),
        seen[from.0 as int],
        forall|x: GraphBlockId, w: GraphBlockId|
            d.valid_block(x) && #[trigger] seen[x.0 as int] && #[trigger] d.blk(x).successors@.contains(w) ==> seen[w.0 as int],
        block_path(d, from, p),
        forall|k: int| 0 <= k < p.len() ==> d.valid_block(#[trigger] p[k]),
    ensures
        seen[p.last().0 as int],
    decreases p.len(),
{
    if p.len() > 1 {
        let q = p.drop_last();
        lemma_block_path_drop_last(d, from, p);
        assert forall|k: int| 0 <= k < q.len() implies d.valid_block(#[trigger] q[k]) by {
            assert(q[k] == p[k]);
        }
        lemma_closed_blocks_rec(d, from, seen, q);
        assert(d.valid_block(q.last()));
    }
}

/// What the reachability search has established so far.
pub open spec fn reach_state(d: &Funcdata, from: GraphBlockId, seen: Seq<bool>, pending: Seq<GraphBlockId>) -> bool {
    &&& seen.len() == d.bls().len()
    &&& blocks_below(pending, d.bls().len() as int)
    &&& forall|k: int| 0 <= k < pending.len() ==> #[trigger] seen[pending[k].0 as int]
    &&& forall|x: GraphBlockId| d.valid_block(x) && #[trigger] seen[x.0 as int] ==> block_reachable(d, from, x)
    &&& forall|x: GraphBlockId, w: GraphBlockId|
        d.valid_block(x) && #[trigger] seen[x.0 as int] && #[trigger] d.blk(x).successors@.contains(w) ==> (seen[w.0 as int]
            || pending.contains(x))
    &&& seen[from.0 as int]
}

impl Funcdata {
    /// Which blocks `from` reaches along control-flow edges.
    fn reachable_from_block(&self, from: GraphBlockId) -> (r: Vec<bool>)
        requires
            self.wf(),
            self.valid_block(from),
        ensures
            r@.len() == self.bls().len(),
            forall|x: GraphBlockId| self.valid_block(x) ==> (#[trigger] r@[x.0 as int] <==> block_reachable(self, from, x)),
    {
        let mut seen: Vec<bool> = Vec::new();
        let mut fill: usize = 0;
        while fill < self.blocks.len()
            invariant
                fill <= self.bls().len(),
                seen@.len() == fill,
                forall|k: int| 0 <= k < fill ==> !seen@[k],
            decreases self.bls().len() - fill,
        {
            seen.push(false);
            fill += 1;
        }
        seen.set(from.0 as usize, true);
        let mut pending: Vec<GraphBlockId> = Vec::new();
        pending.push(from);
        proof {
            assert(block_path(self, from, seq![from]));
            assert(seq![from].last() == from);
            assert forall|x: GraphBlockId| self.valid_block(x) && #[trigger] seen@[x.0 as int] implies block_reachable(self, from, x) by {
                assert(x == from);
                assert(block_path(self, from, seq![from]));
            }
            assert(pending@[0] == from);
            assert forall|x: GraphBlockId, w: GraphBlockId|
                self.valid_block(x) && #[trigger] seen@[x.0 as int] && #[trigger] self.blk(x).successors@.contains(w) implies (seen@[w.0 as int]
                || pending@.contains(x)) by {
                assert(x == from);
                assert(pending@.contains(from));
            }
        }
        while pending.len() > 0
            invariant
                self.wf(),
                self.valid_block(from),
                reach_state(self, from, seen@, pending@),
            decreases count_false(seen@, seen@.len() as int), pending@.len(),
        {
            let ghost before_pending = pending@;
            let ghost before_seen = seen@;
            let id = pending.pop().unwrap();
            proof {
                assert(before_pending == pending@.push(id));
                assert(self.block_wf(id));
            }
            let successors = &self.blocks[id.0 as usize].successors;
            let mut j: usize = 0;
            while j < successors.len()
                invariant
                    j <= successors@.len(),
                    *successors == self.blk(id).successors,
                    self.wf(),
                    self.valid_block(from),
                    self.valid_block(id),
                    before_seen[id.0 as int],
                    blocks_below(successors@, self.bls().len() as int),
                    reach_state(self, from, before_seen, before_pending),
                    before_pending == before_pending.take(before_pending.len() - 1).push(id),
                    seen@.len() == before_seen.len(),
                    forall|k: int| 0 <= k < seen@.len() ==> before_seen[k] ==> #[trigger] seen@[k],
                    blocks_below(pending@, self.bls().len() as int),
                    forall|k: int| 0 <= k < pending@.len() ==> #[trigger] seen@[pending@[k].0 as int],
                    forall|x: GraphBlockId| self.valid_block(x) && #[trigger] seen@[x.0 as int] ==> block_reachable(self, from, x),
                    forall|x: GraphBlockId| #[trigger] before_pending.contains(x) && x != id ==> pending@.contains(x),
                    forall|x: GraphBlockId| self.valid_block(x) && #[trigger] seen@[x.0 as int] && !before_seen[x.0 as int] ==> pending@.contains(x),
                    forall|k: int| 0 <= k < j ==> #[trigger] seen@[successors@[k].0 as int],
                    count_false(seen@, seen@.len() as int) <= count_false(before_seen, before_seen.len() as int),
                    (count_false(seen@, seen@.len() as int) == count_false(before_seen, before_seen.len() as int)) ==> pending@.len()
                        == before_pending.len() - 1,
                decreases successors@.len() - j,
            {
                let next = successors[j];
                proof {
                    assert(successors@[j as int].0 < self.bls().len());
                }
                if !seen[next.0 as usize] {
                    let ghost s0 = seen@;
                    let ghost p0 = pending@;
                    seen.set(next.0 as usize, true);
                    pending.push(next);
                    proof {
                        lemma_count_false_set(s0, next.0 as int, s0.len() as int);
                        let p = choose|p: Seq<GraphBlockId>| #[trigger] block_path(self, from, p) && p.last() == id;
                        lemma_block_path_push(self, from, p, next);
                        assert(successors@[j as int] == next);
                        assert forall|k: int| 0 <= k < pending@.len() implies #[trigger] seen@[pending@[k].0 as int] by {
                            if k < p0.len() {
                                assert(pending@[k] == p0[k]);
                            }
                        }
                        assert forall|x: GraphBlockId| #[trigger] before_pending.contains(x) && x != id implies pending@.contains(x) by {
                            assert(p0.contains(x));
                            let k = choose|k: int| 0 <= k < p0.len() && p0[k] == x;
                            assert(pending@[k] == x);
                        }
                        assert forall|x: GraphBlockId| self.valid_block(x) && #[trigger] seen@[x.0 as int] && !before_seen[x.0 as int] implies pending@.contains(x) by {
                            if x != next {
                                assert(s0[x.0 as int]);
                                assert(p0.contains(x));
                                let k = choose|k: int| 0 <= k < p0.len() && p0[k] == x;
                                assert(pending@[k] == x);
                            } else {
                                assert(pending@[pending@.len() - 1] == next);
                            }
                        }
                        assert(blocks_below(pending@, self.bls().len() as int)) by {
                            assert forall|k: int| 0 <= k < pending@.len() implies (#[trigger] pending@[k]).0 < self.bls().len() by {
                                if k < p0.len() {
                                    assert(pending@[k] == p0[k]);
                                }
                            }
                        }
                    }
                }
                j += 1;
            }
            proof {
                assert forall|x: GraphBlockId, w: GraphBlockId|
                    self.valid_block(x) && #[trigger] seen@[x.0 as int] && #[trigger] self.blk(x).successors@.contains(w) implies (seen@[w.0 as int]
                    || pending@.contains(x)) by {
                    if x == id {
                        let k = choose|k: int| 0 <= k < successors@.len() && successors@[k] == w;
                        assert(seen@[successors@[k].0 as int]);
                    } else if before_seen[x.0 as int] {
                        if !seen@[w.0 as int] {
                            assert(self.block_wf(x));
                            assert(!before_seen[w.0 as int]) by {
                                let k = choose|k: int| 0 <= k < self.blk(x).successors@.len() && self.blk(x).successors@[k] == w;
                                assert(self.blk(x).successors@[k].0 < self.bls().len());
                            }
                            assert(before_pending.contains(x));
                        }
                    } else {
                        assert(pending@.contains(x));
                    }
                }
                assert(seen@[from.0 as int]);
            }
        }
        proof {
            assert forall|x: GraphBlockId| self.valid_block(x) implies (#[trigger] seen@[x.0 as int] <==> block_reachable(self, from, x)) by {
                if block_reachable(self, from, x) {
                    let p = choose|p: Seq<GraphBlockId>| #[trigger] block_path(self, from, p) && p.last() == x;
                    assert forall|y: GraphBlockId, w: GraphBlockId|
                        self.valid_block(y) && #[trigger] seen@[y.0 as int] && #[trigger] self.blk(y).successors@.contains(w) implies seen@[w.0 as int] by {
                        assert(!pending@.contains(y));
                    }
                    lemma_closed_blocks(self, from, seen@, p);
                }
            }
        }
        seen
    }
}

} // verus!

verus! {

/// A first index exists for any element a sequence holds.
pub proof fn lemma_first_index_exists<T>(s: Seq<T>, x: T)
    requires
        s.contains(x),
    ensures
        0 <= first_index_or(s, x, 0) < s.len(),
        s[first_index_or(s, x, 0)] == x,
{
    let k = choose|k: int| 0 <= k < s.len() && s[k] == x;
    lemma_min_index(s, x, k);
}

proof fn lemma_min_index<T>(s: Seq<T>, x: T, k: int)
    requires
        0 <= k < s.len(),
        s[k] == x,
    ensures
        exists|m: int| 0 <= m < s.len() && s[m] == x && forall|j: int| 0 <= j < m ==> s[j] != x,
    decreases k,
{
    if exists|j: int| 0 <= j < k && s[j] == x {
        let j = choose|j: int| 0 <= j < k && s[j] == x;
        lemma_min_index(s, x, j);
    } else {
        assert(forall|j: int| 0 <= j < k ==> s[j] != x);
    }
}

/// Removing one position keeps every element held elsewhere and adds none.
pub proof fn lemma_remove_contains<T>(s: Seq<T>, i: int, y: T)
    requires
        0 <= i < s.len(),
    ensures
        s.remove(i).contains(y) ==> s.contains(y),
        s.contains(y) && s[i] != y ==> s.remove(i).contains(y),
{
    let r = s.remove(i);
    if r.contains(y) {
        let j = choose|j: int| 0 <= j < r.len() && r[j] == y;
        if j < i {
            assert(s[j] == y);
        } else {
            assert(s[j + 1] == y);
        }
    }
    if s.contains(y) && s[i] != y {
        let j = choose|j: int| 0 <= j < s.len() && s[j] == y;
        if j < i {
            assert(r[j] == y);
        } else {
            assert(j > i);
            assert(r[j - 1] == y);
        }
    }
}

/// Dropping an element that is not there changes nothing.
pub proof fn lemma_drop_all_absent<T>(s: Seq<T>, x: T)
    requires
        !s.contains(x),
    ensures
        drop_all(s, x) == s,
    decreases s.len(),
{
    if s.len() > 0 {
        assert(!s.drop_last().contains(x)) by {
            if s.drop_last().contains(x) {
                let k = choose|k: int| 0 <= k < s.drop_last().len() && s.drop_last()[k] == x;
                assert(s[k] == x);
            }
        }
        lemma_drop_all_absent(s.drop_last(), x);
        assert(s.last() != x) by {
            assert(s[s.len() - 1] == s.last());
        }
        assert(s.drop_last().push(s.last()) =~= s);
    }
}

/// A block removed from the graph: dead, with no operations and no edges.
pub open spec fn cleared(b: GraphBlock) -> bool {
    &&& b.dead
    &&& b.ops@.len() == 0
    &&& b.predecessors@.len() == 0
    &&& b.successors@.len() == 0
}

/// Edge lists agree and repeat nothing: `y` follows `x` exactly when `x`
/// precedes `y`.
pub open spec fn edges_consistent(d: &Funcdata) -> bool {
    &&& forall|x: GraphBlockId, y: GraphBlockId|
        #![trigger d.blk(x).successors@.contains(y), d.blk(y).predecessors@.contains(x)]
        d.valid_block(x) && d.valid_block(y) ==> (d.blk(x).successors@.contains(y) <==> d.blk(y).predecessors@.contains(x))
    &&& forall|x: GraphBlockId|
        #![trigger d.blk(x)]
        d.valid_block(x) ==> d.blk(x).successors@.no_duplicates() && d.blk(x).predecessors@.no_duplicates()
}

/// `s` without any of the first `n` entries of `list`, in its own order.
pub open spec fn drop_each(s: Seq<GraphBlockId>, list: Seq<GraphBlockId>, n: int) -> Seq<GraphBlockId>
    decreases n,
{
    if n <= 0 {
        s
    } else {
        drop_all(drop_each(s, list, n - 1), list[n - 1])
    }
}

proof fn lemma_drop_each_contains(s: Seq<GraphBlockId>, list: Seq<GraphBlockId>, n: int, y: GraphBlockId)
    requires
        0 <= n <= list.len(),
    ensures
        drop_each(s, list, n).contains(y) == (s.contains(y) && !list.take(n).contains(y)),
    decreases n,
{
    if n > 0 {
        lemma_drop_each_contains(s, list, n - 1, y);
        lemma_drop_all_contains(drop_each(s, list, n - 1), list[n - 1], y);
        lemma_take_step_contains(list, n - 1, y);
    } else {
        assert(list.take(0).len() == 0);
    }
}

proof fn lemma_drop_each_no_duplicates(s: Seq<GraphBlockId>, list: Seq<GraphBlockId>, n: int)
    requires
        s.no_duplicates(),
    ensures
        drop_each(s, list, n).no_duplicates(),
    decreases n,
{
    if n > 0 {
        lemma_drop_each_no_duplicates(s, list, n - 1);
        lemma_drop_all_no_duplicates(drop_each(s, list, n - 1), list[n - 1]);
    }
}

proof fn lemma_occurrences_once<T>(s: Seq<T>, x: T)
    requires
        s.no_duplicates(),
    ensures
        occurrences(s, x) == (if s.contains(x) { 1nat } else { 0nat }),
    decreases s.len(),
{
    if s.len() > 0 {
        let t = s.drop_last();
        assert(t.no_duplicates()) by {
            assert forall|a: int, b: int| 0 <= a < t.len() && 0 <= b < t.len() && a != b implies t[a] != t[b] by {
                assert(s[a] != s[b]);
            }
        }
        lemma_occurrences_once(t, x);
        if s.last() == x {
            assert(!t.contains(x)) by {
                if t.contains(x) {
                    let k = choose|k: int| 0 <= k < t.len() && t[k] == x;
                    assert(s[k] == s[s.len() - 1]);
                }
            }
            assert(s.contains(x)) by {
                assert(s[s.len() - 1] == x);
            }
        } else {
            assert(s.contains(x) == t.contains(x)) by {
                if s.contains(x) {
                    let k = choose|k: int| 0 <= k < s.len() && s[k] == x;
                    assert(t[k] == x);
                }
                if t.contains(x) {
                    let k = choose|k: int| 0 <= k < t.len() && t[k] == x;
                    assert(s[k] == x);
                }
            }
        }
    }
}

proof fn lemma_remove_is_drop_all(s: Seq<GraphBlockId>, x: GraphBlockId, i: int)
    requires
        s.no_duplicates(),
        0 <= i < s.len(),
        s[i] == x,
    ensures
        s.remove(i) == drop_all(s, x),
    decreases s.len(),
{
    let t = s.drop_last();
    assert(t.no_duplicates()) by {
        assert forall|a: int, b: int| 0 <= a < t.len() && 0 <= b < t.len() && a != b implies t[a] != t[b] by {
            assert(s[a] != s[b]);
        }
    }
    if i == s.len() - 1 {
        assert(!t.contains(x)) by {
            if t.contains(x) {
                let k = choose|k: int| 0 <= k < t.len() && t[k] == x;
                assert(s[k] == s[i]);
            }
        }
        lemma_drop_all_absent(t, x);
        assert(s.remove(i) =~= t);
    } else {
        assert(s.last() != x) by {
            assert(s[s.len() - 1] != s[i]);
        }
        lemma_remove_is_drop_all(t, x, i);
        assert(s.remove(i) =~= t.remove(i).push(s.last()));
    }
}

proof fn lemma_unreached_increasing(d: &Funcdata, n: int)
    requires
        0 <= n <= d.bls().len() <= u32::MAX,
    ensures
        forall|a: int, b: int| 0 <= a < b < unreached_blocks(d, n).len() ==> (#[trigger] unreached_blocks(d, n)[a]).0 < (
        #[trigger] unreached_blocks(d, n)[b]).0,
        forall|a: int| 0 <= a < unreached_blocks(d, n).len() ==> (#[trigger] unreached_blocks(d, n)[a]).0 < n,
        unreached_blocks(d, n).no_duplicates(),
    decreases n,
{
    if n > 0 {
        lemma_unreached_increasing(d, n - 1);
        let prev = unreached_blocks(d, n - 1);
        let cur = unreached_blocks(d, n);
        assert forall|a: int| 0 <= a < cur.len() implies (#[trigger] cur[a]).0 < n by {
            if a < prev.len() {
                assert(cur[a] == prev[a]);
            }
        }
        assert forall|a: int, b: int| 0 <= a < b < cur.len() implies (#[trigger] cur[a]).0 < (#[trigger] cur[b]).0 by {
            if b < prev.len() {
                assert(cur[a] == prev[a] && cur[b] == prev[b]);
            } else {
                assert(cur[a] == prev[a]);
            }
        }
        assert forall|a: int, b: int| 0 <= a < cur.len() && 0 <= b < cur.len() && a != b implies cur[a] != cur[b] by {
            if a < b {
                assert(cur[a].0 < cur[b].0);
            } else {
                assert(cur[b].0 < cur[a].0);
            }
        }
    }
}

/// What removing unreached blocks keeps, between the graph `pre` before and
/// the graph `cur` at any point of the removal.
pub open spec fn removal_frame(pre: &Funcdata, cur: &Funcdata) -> bool {
    &&& cur.wf()
    &&& cur.vns().len() == pre.vns().len()
    &&& cur.opv().len() == pre.opv().len()
    &&& cur.bls().len() == pre.bls().len()
    &&& cur.same_header(pre)
    &&& forall|o: OpId| #![trigger cur.opn(o)] cur.valid_op(o) && pre.opn(o).dead ==> cur.opn(o).dead
    &&& forall|x: GraphBlockId|
        #![trigger cur.blk(x)]
        cur.valid_block(x) ==> {
            &&& cur.blk(x).start == pre.blk(x).start
            &&& cur.blk(x).start_order == pre.blk(x).start_order
            &&& (pre.blk(x).dead ==> cur.blk(x).dead)
            &&& (forall|o: OpId| #[trigger] cur.blk(x).ops@.contains(o) ==> pre.blk(x).ops@.contains(o))
            &&& (forall|o: OpId|
                #[trigger] pre.blk(x).ops@.contains(o) ==> cur.blk(x).ops@.contains(o) || cur.opn(o).dead)
            &&& (reached(pre, x) ==> {
                &&& cur.blk(x).dead == pre.blk(x).dead
                &&& cur.blk(x).successors@ == pre.blk(x).successors@
                &&& forall|y: GraphBlockId| #[trigger] cur.blk(x).predecessors@.contains(y) ==> pre.blk(x).predecessors@.contains(y)
                &&& forall|y: GraphBlockId|
                    #[trigger] pre.blk(x).predecessors@.contains(y) && reached(pre, y) ==> cur.blk(x).predecessors@.contains(y)
            })
        }
}

/// A cleared block stays cleared, and operations that died stay dead.
pub open spec fn keeps_cleared(before: &Funcdata, after: &Funcdata) -> bool {
    &&& after.bls().len() == before.bls().len()
    &&& after.opv().len() == before.opv().len()
    &&& forall|x: GraphBlockId| #![trigger after.blk(x)] after.valid_block(x) && cleared(before.blk(x)) ==> cleared(after.blk(x))
    &&& forall|o: OpId| #![trigger after.opn(o)] after.valid_op(o) && before.opn(o).dead ==> after.opn(o).dead
}

/// How many times `x` occurs in `s`.
pub open spec fn occurrences<T>(s: Seq<T>, x: T) -> nat
    decreases s.len(),
{
    if s.len() == 0 {
        0
    } else {
        occurrences(s.drop_last(), x) + (if s.last() == x {
            1nat
        } else {
            0nat
        })
    }
}

/// `s` with its first occurrence of `x` removed, `k` times over, while any
/// remain.
pub open spec fn drop_first_n<T>(s: Seq<T>, x: T, k: nat) -> Seq<T>
    decreases k,
{
    if k == 0 {
        s
    } else {
        let t = drop_first_n(s, x, (k - 1) as nat);
        if t.contains(x) {
            t.remove(first_index_or(t, x, 0))
        } else {
            t
        }
    }
}

/// Dropping a value twice drops it once.
pub proof fn lemma_drop_all_twice<T>(s: Seq<T>, x: T)
    ensures
        drop_all(drop_all(s, x), x) == drop_all(s, x),
    decreases s.len(),
{
    if s.len() > 0 {
        lemma_drop_all_twice(s.drop_last(), x);
        if s.last() != x {
            let r = drop_all(s.drop_last(), x);
            assert(r.push(s.last()).drop_last() =~= r);
        }
    }
}

/// A successor of a reached block is reached.
pub proof fn lemma_reached_successor(d: &Funcdata, x: GraphBlockId, w: GraphBlockId)
    requires
        reached(d, x),
        d.blk(x).successors@.contains(w),
    ensures
        reached(d, w),
{
    let e = entry_block(d).unwrap();
    let p = choose|p: Seq<GraphBlockId>| #[trigger] block_path(d, e, p) && p.last() == x;
    lemma_block_path_push(d, e, p, w);
}

impl Funcdata {
    /// Drops the edges from `id` into its successors, with the merge
    /// operands they fed.
    fn detach_from_successors(&mut self, id: GraphBlockId, Ghost(pre): Ghost<Funcdata>)
        requires
            pre.wf(),
            removal_frame(&pre, old(self)),
            old(self).valid_block(id),
            !reached(&pre, id),
        ensures
            removal_frame(&pre, final(self)),
            keeps_cleared(old(self), final(self)),
            final(self).blk(id).ops == old(self).blk(id).ops,
            final(self).blk(id).dead == old(self).blk(id).dead,
            forall|x: GraphBlockId|
                #![trigger final(self).blk(x)]
                final(self).valid_block(x) ==> final(self).blk(x).successors == old(self).blk(x).successors,
            forall|x: GraphBlockId|
                #![trigger final(self).blk(x)]
                final(self).valid_block(x) ==> final(self).blk(x).predecessors@ == drop_first_n(
                    old(self).blk(x).predecessors@,
                    id,
                    occurrences(old(self).blk(id).successors@, x),
                ),
    {
        let successors = self.blocks[id.0 as usize].successors.clone();
        proof {
            assert(self.block_wf(id));
        }
        let ghost start = *self;
        let mut j: usize = 0;
        while j < successors.len()
            invariant
                j <= successors@.len(),
                blocks_below(successors@, self.bls().len() as int),
                pre.wf(),
                removal_frame(&pre, self),
                keeps_cleared(&start, self),
                self.valid_block(id),
                !reached(&pre, id),
                self.blk(id).ops == start.blk(id).ops,
                self.blk(id).dead == start.blk(id).dead,
                self.bls().len() == start.bls().len(),
                successors@ == start.blk(id).successors@,
                forall|x: GraphBlockId|
                    #![trigger self.blk(x)]
                    self.valid_block(x) ==> self.blk(x).successors == start.blk(x).successors,
                forall|x: GraphBlockId|
                    #![trigger self.blk(x)]
                    self.valid_block(x) ==> self.blk(x).predecessors@ == drop_first_n(
                        start.blk(x).predecessors@,
                        id,
                        occurrences(successors@.take(j as int), x),
                    ),
            decreases successors@.len() - j,
        {
            let next = successors[j];
            proof {
                assert(successors@[j as int].0 < self.bls().len());
            }
            let ghost before = *self;
            self.detach_predecessor(next, id);
            proof {
                if before.blk(next).predecessors@.contains(id) {
                    let slot = first_index_or(before.blk(next).predecessors@, id, 0);
                    lemma_first_index_exists(before.blk(next).predecessors@, id);
                    assert forall|x: GraphBlockId| #![trigger self.blk(x)] self.valid_block(x) implies {
                        &&& self.blk(x).start == pre.blk(x).start
                        &&& self.blk(x).start_order == pre.blk(x).start_order
                        &&& (pre.blk(x).dead ==> self.blk(x).dead)
                        &&& (forall|o: OpId| #[trigger] self.blk(x).ops@.contains(o) ==> pre.blk(x).ops@.contains(o))
                        &&& (forall|o: OpId|
                            #[trigger] pre.blk(x).ops@.contains(o) ==> self.blk(x).ops@.contains(o) || self.opn(o).dead)
                        &&& (reached(&pre, x) ==> {
                            &&& self.blk(x).dead == pre.blk(x).dead
                            &&& self.blk(x).successors@ == pre.blk(x).successors@
                            &&& forall|y: GraphBlockId| #[trigger] self.blk(x).predecessors@.contains(y) ==> pre.blk(x).predecessors@.contains(y)
                            &&& forall|y: GraphBlockId|
                                #[trigger] pre.blk(x).predecessors@.contains(y) && reached(&pre, y) ==> self.blk(x).predecessors@.contains(y)
                        })
                    } by {
                        assert(same_but_edges(self.blk(x), before.blk(x)));
                        assert(before.valid_block(x));
                        if x == next {
                            assert forall|y: GraphBlockId| #[trigger] self.blk(x).predecessors@.contains(y) implies before.blk(x).predecessors@.contains(y) by {
                                lemma_remove_contains(before.blk(x).predecessors@, slot, y);
                            }
                            assert forall|y: GraphBlockId|
                                before.blk(x).predecessors@.contains(y) && y != id implies #[trigger] self.blk(x).predecessors@.contains(y) by {
                                lemma_remove_contains(before.blk(x).predecessors@, slot, y);
                            }
                        }
                        assert forall|o: OpId| #[trigger] pre.blk(x).ops@.contains(o) implies self.blk(x).ops@.contains(o) || self.opn(o).dead by {
                            assert(pre.block_wf(x));
                            let k = choose|k: int| 0 <= k < pre.blk(x).ops@.len() && pre.blk(x).ops@[k] == o;
                            assert(pre.blk(x).ops@[k].0 < pre.opv().len());
                            assert(self.opn(o) == before.opn(o) || self.opn(o).dead == before.opn(o).dead);
                        }
                    }
                }
                assert forall|x: GraphBlockId| #![trigger self.blk(x)] self.valid_block(x) && cleared(start.blk(x)) implies cleared(self.blk(x)) by {
                    assert(cleared(before.blk(x)));
                    assert(same_but_edges(self.blk(x), before.blk(x)));
                    if x == next && before.blk(next).predecessors@.contains(id) {
                        assert(false);
                    }
                }
                assert forall|o: OpId| #![trigger self.opn(o)] self.valid_op(o) implies self.opn(o).dead == before.opn(o).dead by {
                    if before.blk(next).predecessors@.contains(id) {
                    } else {
                        assert(self.opv() == before.opv());
                    }
                }
                assert(self.wf());
                assert(self.vns().len() == pre.vns().len());
                assert(self.opv().len() == pre.opv().len());
                assert(self.bls().len() == pre.bls().len());
                assert(self.same_header(&pre));
                assert(keeps_cleared(&start, self));
            }
            proof {
                let t = successors@.take(j + 1);
                assert(t =~= successors@.take(j as int).push(next));
                assert(t.drop_last() =~= successors@.take(j as int));
                assert forall|x: GraphBlockId| #![trigger self.blk(x)] self.valid_block(x) implies self.blk(x).predecessors@
                    == drop_first_n(start.blk(x).predecessors@, id, occurrences(t, x)) by {
                    assert(before.valid_block(x));
                    if x != next {
                        assert(occurrences(t, x) == occurrences(successors@.take(j as int), x));
                    } else {
                        assert(occurrences(t, x) == occurrences(successors@.take(j as int), x) + 1);
                        let k = occurrences(successors@.take(j as int), x);
                        assert(drop_first_n(start.blk(x).predecessors@, id, (k + 1) as nat) == {
                            let u = drop_first_n(start.blk(x).predecessors@, id, k);
                            if u.contains(id) {
                                u.remove(first_index_or(u, id, 0))
                            } else {
                                u
                            }
                        });
                    }
                }
            }
            j += 1;
        }
        proof {
            assert(successors@.take(successors@.len() as int) =~= successors@);
        }
    }
}

impl Funcdata {
    /// Drops `id` from the successor lists of its predecessors.
    fn unlink_from_predecessors(&mut self, id: GraphBlockId, Ghost(pre): Ghost<Funcdata>)
        requires
            pre.wf(),
            removal_frame(&pre, old(self)),
            old(self).valid_block(id),
            !reached(&pre, id),
        ensures
            removal_frame(&pre, final(self)),
            keeps_cleared(old(self), final(self)),
            final(self).blk(id).ops == old(self).blk(id).ops,
            final(self).blk(id).dead == old(self).blk(id).dead,
            forall|x: GraphBlockId|
                #![trigger final(self).blk(x)]
                final(self).valid_block(x) ==> final(self).blk(x).predecessors == old(self).blk(x).predecessors,
            forall|x: GraphBlockId|
                #![trigger final(self).blk(x)]
                final(self).valid_block(x) ==> final(self).blk(x).successors@ == (if old(self).blk(id).predecessors@.contains(x) {
                    drop_all(old(self).blk(x).successors@, id)
                } else {
                    old(self).blk(x).successors@
                }),
    {
        let predecessors = self.blocks[id.0 as usize].predecessors.clone();
        proof {
            assert(self.block_wf(id));
        }
        let ghost start = *self;
        let mut j: usize = 0;
        while j < predecessors.len()
            invariant
                j <= predecessors@.len(),
                blocks_below(predecessors@, self.bls().len() as int),
                pre.wf(),
                removal_frame(&pre, self),
                keeps_cleared(&start, self),
                self.valid_block(id),
                !reached(&pre, id),
                self.blk(id).ops == start.blk(id).ops,
                self.blk(id).dead == start.blk(id).dead,
                self.bls().len() == start.bls().len(),
                predecessors@ == start.blk(id).predecessors@,
                forall|x: GraphBlockId|
                    #![trigger self.blk(x)]
                    self.valid_block(x) ==> self.blk(x).predecessors == start.blk(x).predecessors,
                forall|x: GraphBlockId|
                    #![trigger self.blk(x)]
                    self.valid_block(x) ==> self.blk(x).successors@ == (if predecessors@.take(j as int).contains(x) {
                        drop_all(start.blk(x).successors@, id)
                    } else {
                        start.blk(x).successors@
                    }),
            decreases predecessors@.len() - j,
        {
            let p = predecessors[j];
            proof {
                assert(predecessors@[j as int].0 < self.bls().len());
                assert(self.block_wf(p));
            }
            let ghost before = *self;
            let mut kept = self.blocks[p.0 as usize].successors.clone();
            remove_block_id(&mut kept, id);
            proof {
                lemma_drop_all_blocks_below(before.blk(p).successors@, id, before.bls().len() as int);
            }
            self.blocks[p.0 as usize].successors = kept;
            proof {
                assert forall|x: GraphBlockId| #![trigger self.blk(x)] self.valid_block(x) implies same_but_edges(self.blk(x), before.blk(x)) by {}
                assert forall|x: GraphBlockId|
                    #![trigger self.blk(x)]
                    self.valid_block(x) implies blocks_below(self.blk(x).predecessors@, self.bls().len() as int)
                        && blocks_below(self.blk(x).successors@, self.bls().len() as int) by {
                    assert(before.block_wf(x));
                }
                lemma_wf_edges(&before, self);
                if reached(&pre, p) {
                    assert(before.blk(p).successors@ == pre.blk(p).successors@);
                    if before.blk(p).successors@.contains(id) {
                        lemma_reached_successor(&pre, p, id);
                    }
                    lemma_drop_all_absent(before.blk(p).successors@, id);
                    assert(self.blk(p).successors@ == before.blk(p).successors@);
                }
                assert forall|x: GraphBlockId| #![trigger self.blk(x)] self.valid_block(x) && cleared(start.blk(x)) implies cleared(self.blk(x)) by {
                    assert(cleared(before.blk(x)));
                    if x == p {
                        assert(drop_all(before.blk(p).successors@, id) =~= before.blk(p).successors@);
                    }
                }
                assert(self.opv() == before.opv());
                assert(self.bls().len() == before.bls().len());
                assert(self.vns() == before.vns());
                assert(self.same_header(&before));
                assert forall|o: OpId| #![trigger self.opn(o)] self.valid_op(o) && start.opn(o).dead implies self.opn(o).dead by {
                    assert(before.opn(o).dead);
                }
                assert forall|x: GraphBlockId| #![trigger self.blk(x)] self.valid_block(x) && reached(&pre, x) implies self.blk(x).successors@
                    == pre.blk(x).successors@ by {
                    if x == p {
                        assert(self.blk(p).successors@ == before.blk(p).successors@);
                    }
                }
                assert(keeps_cleared(&start, self));
                assert forall|x: GraphBlockId| #![trigger self.blk(x)] self.valid_block(x) implies {
                    &&& self.blk(x).start == pre.blk(x).start
                    &&& self.blk(x).start_order == pre.blk(x).start_order
                    &&& (pre.blk(x).dead ==> self.blk(x).dead)
                    &&& (forall|q: OpId| #[trigger] self.blk(x).ops@.contains(q) ==> pre.blk(x).ops@.contains(q))
                    &&& (forall|q: OpId|
                        #[trigger] pre.blk(x).ops@.contains(q) ==> self.blk(x).ops@.contains(q) || self.opn(q).dead)
                    &&& (reached(&pre, x) ==> {
                        &&& self.blk(x).dead == pre.blk(x).dead
                        &&& self.blk(x).successors@ == pre.blk(x).successors@
                        &&& forall|y: GraphBlockId| #[trigger] self.blk(x).predecessors@.contains(y) ==> pre.blk(x).predecessors@.contains(y)
                        &&& forall|y: GraphBlockId|
                            #[trigger] pre.blk(x).predecessors@.contains(y) && reached(&pre, y) ==> self.blk(x).predecessors@.contains(y)
                    })
                } by {
                    assert(before.valid_block(x));
                    assert(same_but_edges(self.blk(x), before.blk(x)));
                    assert(self.blk(x).predecessors == before.blk(x).predecessors);
                    assert forall|q: OpId| #[trigger] pre.blk(x).ops@.contains(q) implies self.blk(x).ops@.contains(q) || self.opn(q).dead by {
                        assert(pre.block_wf(x));
                        let k = choose|k: int| 0 <= k < pre.blk(x).ops@.len() && pre.blk(x).ops@[k] == q;
                        assert(pre.blk(x).ops@[k].0 < pre.opv().len());
                        assert(before.blk(x).ops@.contains(q) || before.opn(q).dead);
                    }
                }
                assert forall|o: OpId| #![trigger self.opn(o)] self.valid_op(o) && pre.opn(o).dead implies self.opn(o).dead by {
                    assert(before.opn(o).dead);
                }
            }
            proof {
                let t = predecessors@.take(j + 1);
                assert(t =~= predecessors@.take(j as int).push(p));
                assert forall|x: GraphBlockId| #![trigger self.blk(x)] self.valid_block(x) implies self.blk(x).successors@ == (
                if t.contains(x) {
                    drop_all(start.blk(x).successors@, id)
                } else {
                    start.blk(x).successors@
                }) by {
                    assert(before.valid_block(x));
                    if x == p {
                        lemma_drop_all_twice(start.blk(p).successors@, id);
                        assert(t[j as int] == p);
                    } else {
                        assert(self.blk(x) == before.blk(x));
                        if t.contains(x) {
                            let k = choose|k: int| 0 <= k < t.len() && t[k] == x;
                            assert(predecessors@.take(j as int)[k] == x);
                        }
                        if predecessors@.take(j as int).contains(x) {
                            let k = choose|k: int| 0 <= k < j && predecessors@.take(j as int)[k] == x;
                            assert(t[k] == x);
                        }
                    }
                }
                assert forall|x: GraphBlockId| #![trigger self.blk(x)] self.valid_block(x) implies self.blk(x).predecessors
                    == start.blk(x).predecessors by {
                    assert(before.valid_block(x));
                }
            }
            j += 1;
        }
        proof {
            assert(predecessors@.take(predecessors@.len() as int) =~= predecessors@);
        }
    }

    /// Destroys the operations listed in block `id`.
    fn destroy_block_ops(&mut self, id: GraphBlockId, Ghost(pre): Ghost<Funcdata>)
        requires
            pre.wf(),
            removal_frame(&pre, old(self)),
            old(self).valid_block(id),
            !reached(&pre, id),
        ensures
            removal_frame(&pre, final(self)),
            keeps_cleared(old(self), final(self)),
            forall|o: OpId| #[trigger] pre.blk(id).ops@.contains(o) ==> final(self).opn(o).dead,
            final(self).blk(id).dead == old(self).blk(id).dead,
            forall|x: GraphBlockId|
                #![trigger final(self).blk(x)]
                final(self).valid_block(x) ==> final(self).blk(x).predecessors == old(self).blk(x).predecessors
                    && final(self).blk(x).successors == old(self).blk(x).successors,
    {
        let ops = self.blocks[id.0 as usize].ops.clone();
        proof {
            assert(self.block_wf(id));
        }
        let ghost start = *self;
        let mut j: usize = 0;
        while j < ops.len()
            invariant
                j <= ops@.len(),
                ops@ == start.blk(id).ops@,
                ops_below(ops@, self.opv().len() as int),
                pre.wf(),
                removal_frame(&pre, self),
                keeps_cleared(&start, self),
                removal_frame(&pre, &start),
                self.valid_block(id),
                !reached(&pre, id),
                self.blk(id).dead == start.blk(id).dead,
                forall|k: int| 0 <= k < j ==> #[trigger] self.opn(ops@[k]).dead,
                forall|x: GraphBlockId|
                    #![trigger self.blk(x)]
                    self.valid_block(x) ==> self.blk(x).predecessors == start.blk(x).predecessors
                        && self.blk(x).successors == start.blk(x).successors,
            decreases ops@.len() - j,
        {
            let o = ops[j];
            proof {
                assert(ops@[j as int].0 < self.opv().len());
            }
            let ghost before = *self;
            self.op_destroy(o);
            proof {
                assert forall|x: GraphBlockId| #![trigger self.blk(x)] self.valid_block(x) implies {
                    &&& self.blk(x).start == pre.blk(x).start
                    &&& self.blk(x).start_order == pre.blk(x).start_order
                    &&& (pre.blk(x).dead ==> self.blk(x).dead)
                    &&& (forall|q: OpId| #[trigger] self.blk(x).ops@.contains(q) ==> pre.blk(x).ops@.contains(q))
                    &&& (forall|q: OpId|
                        #[trigger] pre.blk(x).ops@.contains(q) ==> self.blk(x).ops@.contains(q) || self.opn(q).dead)
                    &&& (reached(&pre, x) ==> {
                        &&& self.blk(x).dead == pre.blk(x).dead
                        &&& self.blk(x).successors@ == pre.blk(x).successors@
                        &&& forall|y: GraphBlockId| #[trigger] self.blk(x).predecessors@.contains(y) ==> pre.blk(x).predecessors@.contains(y)
                        &&& forall|y: GraphBlockId|
                            #[trigger] pre.blk(x).predecessors@.contains(y) && reached(&pre, y) ==> self.blk(x).predecessors@.contains(y)
                    })
                } by {
                    if before.opn(o).parent == Some(x) {
                        assert forall|q: OpId| #[trigger] self.blk(x).ops@.contains(q) implies pre.blk(x).ops@.contains(q) by {
                            lemma_drop_all_contains(before.blk(x).ops@, o, q);
                        }
                        assert forall|q: OpId| #[trigger] pre.blk(x).ops@.contains(q) implies self.blk(x).ops@.contains(q) || self.opn(q).dead by {
                            lemma_drop_all_contains(before.blk(x).ops@, o, q);
                            assert(pre.block_wf(x));
                            let k = choose|k: int| 0 <= k < pre.blk(x).ops@.len() && pre.blk(x).ops@[k] == q;
                            assert(pre.blk(x).ops@[k].0 < pre.opv().len());
                        }
                    } else {
                        assert forall|q: OpId| #[trigger] pre.blk(x).ops@.contains(q) implies self.blk(x).ops@.contains(q) || self.opn(q).dead by {
                            assert(pre.block_wf(x));
                            let k = choose|k: int| 0 <= k < pre.blk(x).ops@.len() && pre.blk(x).ops@[k] == q;
                            assert(pre.blk(x).ops@[k].0 < pre.opv().len());
                        }
                    }
                }
                assert forall|x: GraphBlockId| #![trigger self.blk(x)] self.valid_block(x) && cleared(start.blk(x)) implies cleared(self.blk(x)) by {
                    assert(cleared(before.blk(x)));
                    if before.opn(o).parent == Some(x) {
                        assert(drop_all(before.blk(x).ops@, o) =~= before.blk(x).ops@);
                    }
                }
                assert forall|k: int| 0 <= k < j + 1 implies #[trigger] self.opn(ops@[k]).dead by {
                    assert(ops@[k].0 < self.opv().len());
                    if ops@[k] != o {
                        assert(before.opn(ops@[k]).dead);
                    }
                }
                assert(keeps_cleared(&start, self));
            }
            j += 1;
        }
        proof {
            assert forall|o: OpId| #[trigger] pre.blk(id).ops@.contains(o) implies self.opn(o).dead by {
                assert(start.blk(id).ops@.contains(o) || start.opn(o).dead);
                assert(pre.block_wf(id));
                let k = choose|k: int| 0 <= k < pre.blk(id).ops@.len() && pre.blk(id).ops@[k] == o;
                assert(pre.blk(id).ops@[k].0 < pre.opv().len());
                if start.blk(id).ops@.contains(o) {
                    let m = choose|m: int| 0 <= m < ops@.len() && ops@[m] == o;
                    assert(self.opn(ops@[m]).dead);
                }
            }
        }
    }
}

/// Exactly the live, unreached blocks among the first `n` slots make up
/// `unreached_blocks`.
pub proof fn lemma_unreached_members(d: &Funcdata, n: int)
    requires
        0 <= n <= d.bls().len(),
        d.bls().len() <= u32::MAX,
    ensures
        forall|x: GraphBlockId|
            #[trigger] unreached_blocks(d, n).contains(x) <==> (x.0 < n && !d.bls()[x.0 as int].dead && !reached(d, x)),
        forall|k: int| 0 <= k < unreached_blocks(d, n).len() ==> (#[trigger] unreached_blocks(d, n)[k]).0 < n,
    decreases n,
{
    if n > 0 {
        lemma_unreached_members(d, n - 1);
        let id = GraphBlockId((n - 1) as u32);
        let prev = unreached_blocks(d, n - 1);
        if !d.bls()[n - 1].dead && !reached(d, id) {
            assert forall|x: GraphBlockId| #[trigger] unreached_blocks(d, n).contains(x) <==> (x.0 < n && !d.bls()[x.0 as int].dead
                && !reached(d, x)) by {
                if x == id {
                    assert(unreached_blocks(d, n)[prev.len() as int] == id);
                } else if prev.contains(x) {
                    let k = choose|k: int| 0 <= k < prev.len() && prev[k] == x;
                    assert(unreached_blocks(d, n)[k] == x);
                } else if unreached_blocks(d, n).contains(x) {
                    let k = choose|k: int| 0 <= k < unreached_blocks(d, n).len() && unreached_blocks(d, n)[k] == x;
                    if k < prev.len() {
                        assert(prev[k] == x);
                    }
                }
            }
            assert forall|k: int| 0 <= k < unreached_blocks(d, n).len() implies (#[trigger] unreached_blocks(d, n)[k]).0 < n by {
                if k < prev.len() {
                    assert(unreached_blocks(d, n)[k] == prev[k]);
                }
            }
        } else {
            assert forall|x: GraphBlockId| #[trigger] unreached_blocks(d, n).contains(x) <==> (x.0 < n && !d.bls()[x.0 as int].dead
                && !reached(d, x)) by {
                if x.0 == n - 1 {
                    assert(x == id);
                }
            }
        }
    }
}

/// Before anything is removed, the frame holds trivially.
pub proof fn lemma_removal_frame_refl(pre: &Funcdata)
    requires
        pre.wf(),
    ensures
        removal_frame(pre, pre),
{
    assert forall|x: GraphBlockId| #![trigger pre.blk(x)] pre.valid_block(x) implies {
        &&& (forall|q: OpId| #[trigger] pre.blk(x).ops@.contains(q) ==> pre.blk(x).ops@.contains(q) || pre.opn(q).dead)
        &&& (reached(pre, x) ==> {
            &&& forall|y: GraphBlockId| #[trigger] pre.blk(x).predecessors@.contains(y) ==> pre.blk(x).predecessors@.contains(y)
            &&& forall|y: GraphBlockId|
                #[trigger] pre.blk(x).predecessors@.contains(y) && reached(pre, y) ==> pre.blk(x).predecessors@.contains(y)
        })
    } by {}
}

/// What removing the unreached blocks did to `pre`, giving `post`.
pub open spec fn removed_unreached(pre: &Funcdata, post: &Funcdata) -> bool {
    &&& removal_frame(pre, post)
    &&& forall|x: GraphBlockId|
        #![trigger post.blk(x)]
        post.valid_block(x) && !pre.blk(x).dead && !reached(pre, x) ==> {
            &&& cleared(post.blk(x))
            &&& forall|o: OpId| #[trigger] pre.blk(x).ops@.contains(o) ==> post.opn(o).dead
        }
}

impl Funcdata {
    /// Marks block `id` dead and empties its lists, once its operations are
    /// dead and its edges dropped.
    fn clear_block(&mut self, id: GraphBlockId, Ghost(pre): Ghost<Funcdata>)
        requires
            pre.wf(),
            removal_frame(&pre, old(self)),
            old(self).valid_block(id),
            !reached(&pre, id),
            forall|o: OpId| #[trigger] pre.blk(id).ops@.contains(o) ==> old(self).opn(o).dead,
        ensures
            removal_frame(&pre, final(self)),
            keeps_cleared(old(self), final(self)),
            cleared(final(self).blk(id)),
            forall|x: GraphBlockId| #![trigger final(self).blk(x)] final(self).valid_block(x) && x != id ==> final(self).blk(x) == old(self).blk(x),
    {
        let ghost before = *self;
        self.blocks[id.0 as usize].ops = Vec::new();
        self.blocks[id.0 as usize].predecessors = Vec::new();
        self.blocks[id.0 as usize].successors = Vec::new();
        self.blocks[id.0 as usize].dead = true;
        proof {
            assert(self.opv() == before.opv());
            assert(self.vns() == before.vns());
            assert forall|o: OpId| #![trigger self.opn(o)] self.valid_op(o) implies (self.opn(o).parent matches Some(x) ==> self.valid_block(x)) by {
                assert(before.op_wf(o));
            }
            assert forall|x: GraphBlockId| self.valid_block(x) implies #[trigger] self.block_wf(x) by {
                assert(before.block_wf(x));
            }
            lemma_wf_blocks(&before, self);
            assert forall|x: GraphBlockId| #![trigger self.blk(x)] self.valid_block(x) implies {
                &&& self.blk(x).start == pre.blk(x).start
                &&& self.blk(x).start_order == pre.blk(x).start_order
                &&& (pre.blk(x).dead ==> self.blk(x).dead)
                &&& (forall|q: OpId| #[trigger] self.blk(x).ops@.contains(q) ==> pre.blk(x).ops@.contains(q))
                &&& (forall|q: OpId|
                    #[trigger] pre.blk(x).ops@.contains(q) ==> self.blk(x).ops@.contains(q) || self.opn(q).dead)
                &&& (reached(&pre, x) ==> {
                    &&& self.blk(x).dead == pre.blk(x).dead
                    &&& self.blk(x).successors@ == pre.blk(x).successors@
                    &&& forall|y: GraphBlockId| #[trigger] self.blk(x).predecessors@.contains(y) ==> pre.blk(x).predecessors@.contains(y)
                    &&& forall|y: GraphBlockId|
                        #[trigger] pre.blk(x).predecessors@.contains(y) && reached(&pre, y) ==> self.blk(x).predecessors@.contains(y)
                })
            } by {
                assert(before.valid_block(x));
                if x == id {
                    assert forall|q: OpId| #[trigger] pre.blk(x).ops@.contains(q) implies self.opn(q).dead by {
                        assert(before.opn(q).dead);
                    }
                    assert(before.blk(x).start == pre.blk(x).start);
                    assert(before.blk(x).start_order == pre.blk(x).start_order);
                    assert(self.blk(x).start == before.blk(x).start);
                    assert(self.blk(x).start_order == before.blk(x).start_order);
                    assert(self.blk(x).ops@.len() == 0);
                    assert(forall|q: OpId| #[trigger] self.blk(x).ops@.contains(q) ==> pre.blk(x).ops@.contains(q));
                    assert(!reached(&pre, x));
                } else {
                    assert(self.blk(x) == before.blk(x));
                    assert forall|q: OpId| #[trigger] pre.blk(x).ops@.contains(q) implies self.blk(x).ops@.contains(q) || self.opn(q).dead by {
                        assert(pre.block_wf(x));
                        let k = choose|k: int| 0 <= k < pre.blk(x).ops@.len() && pre.blk(x).ops@[k] == q;
                        assert(pre.blk(x).ops@[k].0 < pre.opv().len());
                        assert(before.blk(x).ops@.contains(q) || before.opn(q).dead);
                    }
                }
            }
            assert forall|o: OpId| #![trigger self.opn(o)] self.valid_op(o) && pre.opn(o).dead implies self.opn(o).dead by {
                assert(before.opn(o).dead);
            }
            assert forall|o: OpId| #![trigger self.opn(o)] self.valid_op(o) && before.opn(o).dead implies self.opn(o).dead by {}
        }
    }

    /// Removes every live block that control flow from the entry cannot
    /// reach: its edges are dropped, together with the merge operands they
    /// fed, its operations destroyed, and its slot marked dead. Returns how
    /// many blocks were removed.
    pub fn remove_unreachable_blocks(&mut self) -> (removed: usize)
        requires
            old(self).wf(),
        ensures
            removed_unreached(&*old(self), &*final(self)),
            removed == unreached_blocks(&*old(self), old(self).bls().len() as int).len(),
            edges_consistent(&*old(self)) ==> forall|x: GraphBlockId|
                #![trigger final(self).blk(x)]
                final(self).valid_block(x) && reached(&*old(self), x) ==> final(self).blk(x).predecessors@ == drop_each(
                    old(self).blk(x).predecessors@,
                    unreached_blocks(&*old(self), old(self).bls().len() as int),
                    unreached_blocks(&*old(self), old(self).bls().len() as int).len() as int,
                ),
    {
        let ghost pre = *self;
        proof {
            lemma_unreached_members(&pre, pre.bls().len() as int);
        }
        let Some(entry) = self.entry_block_exec() else {
            proof {
                lemma_first_live(&pre, pre.bls().len() as int);
                assert(unreached_blocks(&pre, pre.bls().len() as int).len() == 0) by {
                    if unreached_blocks(&pre, pre.bls().len() as int).len() > 0 {
                        let x = unreached_blocks(&pre, pre.bls().len() as int)[0];
                        assert(unreached_blocks(&pre, pre.bls().len() as int).contains(x));
                    }
                }
                assert forall|o: OpId| #![trigger self.opn(o)] self.valid_op(o) && pre.opn(o).dead implies self.opn(o).dead by {}
                assert forall|x: GraphBlockId| #![trigger self.blk(x)] self.valid_block(x) implies {
                    &&& (forall|q: OpId|
                        #[trigger] pre.blk(x).ops@.contains(q) ==> self.blk(x).ops@.contains(q) || self.opn(q).dead)
                } by {}
            }
            return 0;
        };
        let reachable = self.reachable_from_block(entry);
        let mut unreachable: Vec<GraphBlockId> = Vec::new();
        let mut i: usize = 0;
        while i < self.blocks.len()
            invariant
                i <= self.bls().len(),
                *self == pre,
                pre.wf(),
                entry_block(&pre) == Some(entry),
                reachable@.len() == pre.bls().len(),
                forall|x: GraphBlockId| pre.valid_block(x) ==> (#[trigger] reachable@[x.0 as int] <==> block_reachable(&pre, entry, x)),
                unreachable@ == unreached_blocks(&pre, i as int),
            decreases self.bls().len() - i,
        {
            proof {
                assert(reachable@[GraphBlockId(i as u32).0 as int] <==> block_reachable(&pre, entry, GraphBlockId(i as u32)));
            }
            if !self.blocks[i].dead && !reachable[i] {
                unreachable.push(GraphBlockId(i as u32));
            }
            i += 1;
        }
        proof {
            lemma_removal_frame_refl(&pre);
            lemma_unreached_increasing(&pre, pre.bls().len() as int);
        }
        let mut k: usize = 0;
        while k < unreachable.len()
            invariant
                k <= unreachable@.len(),
                pre.wf(),
                unreachable@.no_duplicates(),
                edges_consistent(&pre) ==> forall|x: GraphBlockId|
                    #![trigger self.blk(x)]
                    self.valid_block(x) && reached(&pre, x) ==> self.blk(x).predecessors@ == drop_each(
                        pre.blk(x).predecessors@,
                        unreachable@,
                        k as int,
                    ),
                edges_consistent(&pre) ==> forall|m: int, x: GraphBlockId|
                    #![trigger self.blk(unreachable@[m]).successors@.contains(x)]
                    k <= m < unreachable@.len() && reached(&pre, x) ==> (self.blk(unreachable@[m]).successors@.contains(x)
                        == pre.blk(unreachable@[m]).successors@.contains(x)),
                edges_consistent(&pre) ==> forall|m: int|
                    k <= m < unreachable@.len() ==> self.blk(#[trigger] unreachable@[m]).successors@.no_duplicates(),
                unreachable@ == unreached_blocks(&pre, pre.bls().len() as int),
                forall|x: GraphBlockId|
                    #[trigger] unreachable@.contains(x) <==> (x.0 < pre.bls().len() && !pre.bls()[x.0 as int].dead && !reached(&pre, x)),
                forall|m: int| 0 <= m < unreachable@.len() ==> (#[trigger] unreachable@[m]).0 < pre.bls().len(),
                removal_frame(&pre, self),
                forall|m: int|
                    0 <= m < k ==> {
                        &&& cleared(self.blk(#[trigger] unreachable@[m]))
                        &&& forall|o: OpId| #[trigger] pre.blk(unreachable@[m]).ops@.contains(o) ==> self.opn(o).dead
                    },
            decreases unreachable@.len() - k,
        {
            let id = unreachable[k];
            proof {
                assert(unreachable@.contains(id));
            }
            let ghost s0 = *self;
            self.detach_from_successors(id, Ghost(pre));
            let ghost s1 = *self;
            self.unlink_from_predecessors(id, Ghost(pre));
            let ghost s2 = *self;
            self.destroy_block_ops(id, Ghost(pre));
            let ghost s3 = *self;
            self.clear_block(id, Ghost(pre));
            proof {
                if edges_consistent(&pre) {
                    assert(unreachable@[k as int] == id);
                    assert(!unreachable@.take(k as int).contains(id)) by {
                        if unreachable@.take(k as int).contains(id) {
                            let q = choose|q: int| 0 <= q < k && unreachable@.take(k as int)[q] == id;
                            assert(unreachable@[q] == unreachable@[k as int]);
                        }
                    }
                    assert(pre.valid_block(id));
                    assert forall|x: GraphBlockId|
                        #![trigger self.blk(x)]
                        self.valid_block(x) && reached(&pre, x) implies self.blk(x).predecessors@ == drop_each(
                        pre.blk(x).predecessors@,
                        unreachable@,
                        k + 1,
                    ) by {
                        assert(x != id);
                        let t = s0.blk(x).predecessors@;
                        assert(t == drop_each(pre.blk(x).predecessors@, unreachable@, k as int));
                        assert(pre.blk(x).predecessors@.no_duplicates());
                        lemma_drop_each_no_duplicates(pre.blk(x).predecessors@, unreachable@, k as int);
                        lemma_drop_each_contains(pre.blk(x).predecessors@, unreachable@, k as int, id);
                        assert(s0.blk(id).successors@.contains(x) == pre.blk(id).successors@.contains(x));
                        assert(s0.blk(id).successors@.no_duplicates());
                        lemma_occurrences_once(s0.blk(id).successors@, x);
                        assert(pre.blk(id).successors@.contains(x) <==> pre.blk(x).predecessors@.contains(id));
                        if t.contains(id) {
                            lemma_first_index_exists(t, id);
                            lemma_remove_is_drop_all(t, id, first_index_or(t, id, 0));
                            assert(drop_first_n(t, id, 1) == t.remove(first_index_or(t, id, 0))) by {
                                assert(drop_first_n(t, id, 0) == t);
                            }
                        } else {
                            lemma_drop_all_absent(t, id);
                        }
                        assert(s1.blk(x).predecessors@ == drop_all(t, id));
                        assert(s2.blk(x).predecessors == s1.blk(x).predecessors);
                        assert(s3.blk(x).predecessors == s2.blk(x).predecessors);
                        assert(self.blk(x) == s3.blk(x));
                    }
                    assert forall|m: int, x: GraphBlockId|
                        #![trigger self.blk(unreachable@[m]).successors@.contains(x)]
                        k + 1 <= m < unreachable@.len() && reached(&pre, x) implies (self.blk(unreachable@[m]).successors@.contains(x)
                        == pre.blk(unreachable@[m]).successors@.contains(x)) by {
                        let u = unreachable@[m];
                        assert(u != id);
                        assert(x != id);
                        assert(s0.blk(u).successors@.contains(x) == pre.blk(u).successors@.contains(x));
                        assert(s1.blk(u).successors == s0.blk(u).successors);
                        lemma_drop_all_contains(s1.blk(u).successors@, id, x);
                        assert(s3.blk(u).successors == s2.blk(u).successors);
                        assert(self.blk(u) == s3.blk(u));
                    }
                    assert forall|m: int| k + 1 <= m < unreachable@.len() implies self.blk(#[trigger] unreachable@[m]).successors@.no_duplicates() by {
                        let u = unreachable@[m];
                        assert(u != id);
                        assert(s0.blk(u).successors@.no_duplicates());
                        assert(s1.blk(u).successors == s0.blk(u).successors);
                        lemma_drop_all_no_duplicates(s1.blk(u).successors@, id);
                        assert(s3.blk(u).successors == s2.blk(u).successors);
                        assert(self.blk(u) == s3.blk(u));
                    }
                }
            }
            proof {
                assert forall|m: int|
                    0 <= m < k + 1 implies {
                        &&& cleared(self.blk(#[trigger] unreachable@[m]))
                        &&& forall|o: OpId| #[trigger] pre.blk(unreachable@[m]).ops@.contains(o) ==> self.opn(o).dead
                    } by {
                    let u = unreachable@[m];
                    if m < k {
                        assert(cleared(s0.blk(u)));
                        assert(cleared(s1.blk(u)));
                        assert(cleared(s2.blk(u)));
                        assert(cleared(s3.blk(u)));
                        assert forall|o: OpId| #[trigger] pre.blk(u).ops@.contains(o) implies self.opn(o).dead by {
                            assert(pre.block_wf(u));
                            let j = choose|j: int| 0 <= j < pre.blk(u).ops@.len() && pre.blk(u).ops@[j] == o;
                            assert(pre.blk(u).ops@[j].0 < pre.opv().len());
                            assert(s0.opn(o).dead);
                            assert(s1.opn(o).dead);
                            assert(s2.opn(o).dead);
                            assert(s3.opn(o).dead);
                        }
                    } else {
                        assert(u == id);
                        assert forall|o: OpId| #[trigger] pre.blk(u).ops@.contains(o) implies self.opn(o).dead by {
                            assert(pre.block_wf(u));
                            let j = choose|j: int| 0 <= j < pre.blk(u).ops@.len() && pre.blk(u).ops@[j] == o;
                            assert(pre.blk(u).ops@[j].0 < pre.opv().len());
                            assert(s3.opn(o).dead);
                        }
                    }
                }
            }
            k += 1;
        }
        proof {
            assert forall|x: GraphBlockId|
                #![trigger self.blk(x)]
                self.valid_block(x) && !pre.blk(x).dead && !reached(&pre, x) implies {
                    &&& cleared(self.blk(x))
                    &&& forall|o: OpId| #[trigger] pre.blk(x).ops@.contains(o) ==> self.opn(o).dead
                } by {
                assert(unreachable@.contains(x));
                let m = choose|m: int| 0 <= m < unreachable@.len() && unreachable@[m] == x;
                assert(cleared(self.blk(unreachable@[m])));
            }
            assert(removal_frame(&pre, self));
            assert(removed_unreached(&pre, self));
        }
        unreachable.len()
    }
}

/// A prefix of a path is a path.
pub proof fn lemma_block_path_take(d: &Funcdata, from: GraphBlockId, p: Seq<GraphBlockId>, k: int)
    requires
        block_path(d, from, p),
        0 <= k < p.len(),
    ensures
        block_path(d, from, p.take(k + 1)),
        p.take(k + 1).last() == p[k],
{
    let q = p.take(k + 1);
    assert forall|i: int| 0 <= i < q.len() - 1 implies #[trigger] edge_step(d, q, i) by {
        assert(edge_step(d, p, i));
        assert(q[i] == p[i] && q[i + 1] == p[i + 1]);
    }
}

/// Removal keeps the entry block.
proof fn lemma_removal_keeps_entry(pre: &Funcdata, post: &Funcdata)
    requires
        pre.wf(),
        removed_unreached(pre, post),
    ensures
        entry_block(post) == entry_block(pre),
{
    let n = pre.bls().len() as int;
    lemma_first_entry(pre, n);
    lemma_first_entry(post, n);
    lemma_first_live(pre, n);
    lemma_first_live(post, n);
    assert forall|k: int| 0 <= k < n && #[trigger] entry_candidate(post, k) implies entry_candidate(pre, k) by {
        let x = GraphBlockId(k as u32);
        assert(post.blk(x) == post.bls()[k]);
        assert(pre.blk(x) == pre.bls()[k]);
    }
    assert forall|k: int| 0 <= k < n && !#[trigger] post.bls()[k].dead implies !pre.bls()[k].dead by {
        let x = GraphBlockId(k as u32);
        assert(post.blk(x) == post.bls()[k]);
    }
    if let Some(e) = entry_block(pre) {
        assert(block_path(pre, e, seq![e]));
        assert(seq![e].last() == e);
        assert(reached(pre, e));
        assert(post.blk(e).dead == pre.blk(e).dead);
        assert(post.blk(e).start == pre.blk(e).start);
        assert(post.blk(e).start_order == pre.blk(e).start_order);
        match first_entry(pre, n) {
            Some(b) => {
                assert(b == e);
                assert(entry_candidate(post, e.0 as int));
                match first_entry(post, n) {
                    Some(c) => {
                        if c.0 < e.0 {
                            assert(entry_candidate(pre, c.0 as int));
                        }
                        if c.0 > e.0 {
                            assert(!entry_candidate(post, e.0 as int));
                        }
                        assert(c == e);
                    },
                    None => {
                        assert(!entry_candidate(post, e.0 as int));
                    },
                }
            },
            None => {
                assert(first_entry(post, n) is None) by {
                    if let Some(c) = first_entry(post, n) {
                        assert(entry_candidate(pre, c.0 as int));
                    }
                }
                assert(first_live(pre, n) == Some(e));
                assert(!post.bls()[e.0 as int].dead);
                match first_live(post, n) {
                    Some(c) => {
                        if c.0 < e.0 {
                            assert(!pre.bls()[c.0 as int].dead);
                        }
                        if c.0 > e.0 {
                            assert(post.bls()[e.0 as int].dead);
                        }
                        assert(c == e);
                    },
                    None => {
                        assert(post.bls()[e.0 as int].dead);
                    },
                }
            },
        }
    } else {
        assert(first_entry(pre, n) is None);
        assert(first_live(pre, n) is None);
        assert(first_entry(post, n) is None) by {
            if let Some(c) = first_entry(post, n) {
                assert(entry_candidate(pre, c.0 as int));
            }
        }
        assert(first_live(post, n) is None) by {
            if let Some(c) = first_live(post, n) {
                assert(!pre.bls()[c.0 as int].dead);
            }
        }
    }
}

/// After the unreached blocks are removed, the entry block is the same and
/// it reaches every live block: removing them again removes nothing.
pub proof fn lemma_removal_leaves_only_reached(pre: &Funcdata, post: &Funcdata)
    requires
        pre.wf(),
        removed_unreached(pre, post),
    ensures
        entry_block(post) == entry_block(pre),
        forall|x: GraphBlockId| post.valid_block(x) && !#[trigger] post.blk(x).dead ==> reached(post, x),
        unreached_blocks(post, post.bls().len() as int).len() == 0,
{
    lemma_removal_keeps_entry(pre, post);
    assert forall|x: GraphBlockId| post.valid_block(x) && !#[trigger] post.blk(x).dead implies reached(post, x) by {
        assert(!pre.blk(x).dead);
        if !reached(pre, x) {
            assert(cleared(post.blk(x)));
        }
        let e = entry_block(pre).unwrap();
        lemma_first_entry(pre, pre.bls().len() as int);
        lemma_first_live(pre, pre.bls().len() as int);
        let p = choose|p: Seq<GraphBlockId>| #[trigger] block_path(pre, e, p) && p.last() == x;
        lemma_block_path_valid(pre, e, p);
        assert forall|i: int| 0 <= i < p.len() - 1 implies #[trigger] edge_step(post, p, i) by {
            lemma_block_path_take(pre, e, p, i);
            assert(reached(pre, p[i]));
            assert(pre.valid_block(p[i]));
            assert(post.blk(p[i]).successors@ == pre.blk(p[i]).successors@);
            assert(edge_step(pre, p, i));
        }
        assert(block_path(post, e, p));
    }
    lemma_unreached_members(post, post.bls().len() as int);
    if unreached_blocks(post, post.bls().len() as int).len() > 0 {
        let x = unreached_blocks(post, post.bls().len() as int)[0];
        assert(unreached_blocks(post, post.bls().len() as int).contains(x));
        assert(post.blk(x) == post.bls()[x.0 as int]);
    }
}

} // verus!

verus! {

/// `s` with every `a` replaced by `b`.
pub open spec fn replace_all_blocks(s: Seq<GraphBlockId>, a: GraphBlockId, b: GraphBlockId) -> Seq<GraphBlockId> {
    Seq::new(s.len(), |i: int| if s[i] == a { b } else { s[i] })
}

/// `s` after each of the first `n` entries of `list` is added unless present.
pub open spec fn add_each(s: Seq<GraphBlockId>, list: Seq<GraphBlockId>, n: int) -> Seq<GraphBlockId>
    decreases n,
{
    if n <= 0 {
        s
    } else {
        add_unique(add_each(s, list, n - 1), list[n - 1])
    }
}

/// Block `block` can be spliced out: it is live, not the entry, has one
/// successor other than itself, holds nothing but `BRANCH` operations, and
/// that successor holds no merge.
pub open spec fn splice_fits(d: &Funcdata, block: GraphBlockId) -> bool {
    let b = d.blk(block);
    &&& !b.dead
    &&& b.successors@.len() == 1
    &&& !(b.start == d.spec_entry() && b.start_order == 0)
    &&& b.successors@[0] != block
    &&& forall|k: int| 0 <= k < b.ops@.len() ==> d.opn(#[trigger] b.ops@[k]).opcode == crate::pcode::BRANCH
    &&& forall|k: int|
        0 <= k < d.blk(b.successors@[0]).ops@.len() ==> d.opn(#[trigger] d.blk(b.successors@[0]).ops@[k]).opcode
            != crate::pcode::MULTIEQUAL
}

/// Replaces every `a` in `ids` with `b`.
fn replace_block_id(ids: &mut Vec<GraphBlockId>, a: GraphBlockId, b: GraphBlockId)
    ensures
        final(ids)@ == replace_all_blocks(old(ids)@, a, b),
{
    let mut i: usize = 0;
    while i < ids.len()
        invariant
            ids@.len() == old(ids)@.len(),
            i <= ids@.len(),
            forall|k: int| 0 <= k < i ==> ids@[k] == (if old(ids)@[k] == a { b } else { old(ids)@[k] }),
            forall|k: int| i <= k < ids@.len() ==> ids@[k] == old(ids)@[k],
        decreases ids@.len() - i,
    {
        if ids[i] == a {
            ids.set(i, b);
        }
        i += 1;
    }
    assert(ids@ =~= replace_all_blocks(old(ids)@, a, b));
}

proof fn lemma_replace_all_twice(s: Seq<GraphBlockId>, a: GraphBlockId, b: GraphBlockId)
    requires
        a != b,
    ensures
        replace_all_blocks(replace_all_blocks(s, a, b), a, b) == replace_all_blocks(s, a, b),
{
    assert(replace_all_blocks(replace_all_blocks(s, a, b), a, b) =~= replace_all_blocks(s, a, b));
}

impl Funcdata {
    /// Removes a block that only transfers control, joining each of its
    /// predecessors straight to its successor. It refuses when the block is
    /// dead or the entry, does other work than `BRANCH`, has other than one
    /// successor, or that successor merges values: each of those would make
    /// the removal observable. The block's operations are destroyed and its
    /// slot is marked dead.
    pub fn splice_block(&mut self, block: GraphBlockId) -> (r: bool)
        requires
            old(self).wf(),
            old(self).valid_block(block),
        ensures
            final(self).wf(),
            r == splice_fits(&*old(self), block),
            !r ==> *final(self) == *old(self),
            r ==> {
                let pre = *old(self);
                let post = *final(self);
                let succ = pre.blk(block).successors@[0];
                let preds = pre.blk(block).predecessors@;
                &&& post.bls().len() == pre.bls().len()
                &&& post.vns().len() == pre.vns().len()
                &&& post.opv().len() == pre.opv().len()
                &&& post.same_header(&pre)
                &&& post.blk(block).dead
                &&& post.blk(block).ops@.len() == 0
                &&& post.blk(block).predecessors@.len() == 0
                &&& post.blk(block).successors@.len() == 0
                &&& forall|x: GraphBlockId|
                    #![trigger post.blk(x)]
                    post.valid_block(x) && x != block ==> {
                        &&& post.blk(x).start == pre.blk(x).start
                        &&& post.blk(x).start_order == pre.blk(x).start_order
                        &&& post.blk(x).dead == pre.blk(x).dead
                        &&& post.blk(x).successors@ == (if preds.contains(x) {
                            replace_all_blocks(pre.blk(x).successors@, block, succ)
                        } else {
                            pre.blk(x).successors@
                        })
                        &&& post.blk(x).predecessors@ == (if x == succ {
                            drop_all(add_each(pre.blk(succ).predecessors@, preds, preds.len() as int), block)
                        } else {
                            pre.blk(x).predecessors@
                        })
                        &&& (forall|k: int|
                            0 <= k < pre.blk(block).ops@.len() ==> pre.opn(#[trigger] pre.blk(block).ops@[k]).parent != Some(x))
                            ==> post.blk(x).ops == pre.blk(x).ops
                    }
                &&& forall|k: int| 0 <= k < pre.blk(block).ops@.len() ==> post.opn(#[trigger] pre.blk(block).ops@[k]).dead
                &&& forall|o: OpId|
                    #![trigger post.opn(o)]
                    post.valid_op(o) && !pre.blk(block).ops@.contains(o) ==> post.opn(o) == pre.opn(o)
            },
    {
        let ghost pre = *self;
        let candidate = &self.blocks[block.0 as usize];
        if candidate.dead || candidate.successors.len() != 1 || (candidate.start == self.entry && candidate.start_order == 0) {
            return false;
        }
        let successor = candidate.successors[0];
        if successor == block {
            return false;
        }
        proof {
            assert(pre.block_wf(block));
            assert(pre.blk(block).successors@[0] == successor);
        }
        let mut k: usize = 0;
        while k < candidate.ops.len()
            invariant
                *self == pre,
                pre.wf(),
                *candidate == pre.blk(block),
                pre.valid_block(block),
                k <= candidate.ops@.len(),
                forall|m: int| 0 <= m < k ==> pre.opn(#[trigger] candidate.ops@[m]).opcode == crate::pcode::BRANCH,
            decreases candidate.ops@.len() - k,
        {
            proof {
                assert(pre.block_wf(block));
                assert(candidate.ops@[k as int].0 < pre.opv().len());
            }
            if self.ops[candidate.ops[k].0 as usize].opcode != crate::pcode::BRANCH {
                proof {
                    assert(pre.opn(pre.blk(block).ops@[k as int]).opcode != crate::pcode::BRANCH);
                }
                return false;
            }
            k += 1;
        }
        let target = &self.blocks[successor.0 as usize];
        let mut k: usize = 0;
        while k < target.ops.len()
            invariant
                *self == pre,
                pre.wf(),
                *target == pre.blk(successor),
                pre.valid_block(successor),
                pre.valid_block(block),
                pre.blk(block).successors@.len() == 1,
                pre.blk(block).successors@[0] == successor,
                k <= target.ops@.len(),
                forall|m: int| 0 <= m < k ==> pre.opn(#[trigger] target.ops@[m]).opcode != crate::pcode::MULTIEQUAL,
            decreases target.ops@.len() - k,
        {
            proof {
                assert(pre.block_wf(successor));
                assert(target.ops@[k as int].0 < pre.opv().len());
            }
            if self.ops[target.ops[k].0 as usize].opcode == crate::pcode::MULTIEQUAL {
                proof {
                    assert(pre.blk(block).successors@[0] == successor);
                    assert(pre.opn(pre.blk(pre.blk(block).successors@[0]).ops@[k as int]).opcode == crate::pcode::MULTIEQUAL);
                }
                return false;
            }
            k += 1;
        }
        proof {
            assert(splice_fits(&pre, block));
        }
        let preds = copy_block_ids(&self.blocks[block.0 as usize].predecessors);
        let mut i: usize = 0;
        while i < preds.len()
            invariant
                pre.wf(),
                self.wf(),
                pre.valid_block(block),
                pre.valid_block(successor),
                successor != block,
                preds@ == pre.blk(block).predecessors@,
                blocks_below(preds@, pre.bls().len() as int),
                i <= preds@.len(),
                self.vns() == pre.vns(),
                self.opv() == pre.opv(),
                self.bls().len() == pre.bls().len(),
                self.same_header(&pre),
                forall|x: GraphBlockId|
                    #![trigger self.blk(x)]
                    self.valid_block(x) ==> {
                        &&& same_but_edges(self.blk(x), pre.blk(x))
                        &&& self.blk(x).successors@ == (if preds@.take(i as int).contains(x) {
                            replace_all_blocks(pre.blk(x).successors@, block, successor)
                        } else {
                            pre.blk(x).successors@
                        })
                        &&& self.blk(x).predecessors@ == (if x == successor {
                            add_each(pre.blk(successor).predecessors@, preds@, i as int)
                        } else {
                            pre.blk(x).predecessors@
                        })
                    },
            decreases preds@.len() - i,
        {
            let p = preds[i];
            proof {
                assert(preds@[i as int].0 < pre.bls().len());
            }
            let ghost s0 = *self;
            replace_block_id(&mut self.blocks[p.0 as usize].successors, block, successor);
            let ghost s1 = *self;
            push_unique_block(&mut self.blocks[successor.0 as usize].predecessors, p);
            proof {
                let post = *self;
                assert forall|x: GraphBlockId|
                    #![trigger post.blk(x)]
                    post.valid_block(x) implies {
                        &&& same_but_edges(post.blk(x), pre.blk(x))
                        &&& post.blk(x).successors@ == (if preds@.take(i + 1).contains(x) {
                            replace_all_blocks(pre.blk(x).successors@, block, successor)
                        } else {
                            pre.blk(x).successors@
                        })
                        &&& post.blk(x).predecessors@ == (if x == successor {
                            add_each(pre.blk(successor).predecessors@, preds@, i + 1)
                        } else {
                            pre.blk(x).predecessors@
                        })
                        &&& blocks_below(post.blk(x).predecessors@, post.bls().len() as int)
                        &&& blocks_below(post.blk(x).successors@, post.bls().len() as int)
                    } by {
                    lemma_take_step_contains(preds@, i as int, x);
                    assert(s0.block_wf(x));
                    assert(pre.block_wf(x));
                    if x.0 != successor.0 {
                        assert(post.blk(x) == s1.blk(x));
                    }
                    if x.0 != p.0 {
                        assert(s1.blk(x) == s0.blk(x));
                    } else {
                        lemma_replace_all_twice(pre.blk(x).successors@, block, successor);
                        let t = s1.blk(x).successors@;
                        assert forall|m: int| 0 <= m < t.len() implies (#[trigger] t[m]).0 < post.bls().len() by {
                            assert(s0.blk(x).successors@[m].0 < pre.bls().len());
                        }
                    }
                    if x == successor {
                        lemma_add_unique_below(s0.blk(x).predecessors@, p, pre.bls().len() as int);
                    }
                }
                lemma_wf_edges(&s0, &post);
            }
            i += 1;
        }
        let ghost s2 = *self;
        remove_block_id(&mut self.blocks[successor.0 as usize].predecessors, block);
        proof {
            let post = *self;
            assert(preds@.take(preds@.len() as int) =~= preds@);
            assert forall|x: GraphBlockId|
                #![trigger post.blk(x)]
                post.valid_block(x) implies same_but_edges(post.blk(x), s2.blk(x)) && blocks_below(
                    post.blk(x).predecessors@,
                    post.bls().len() as int,
                ) && blocks_below(post.blk(x).successors@, post.bls().len() as int) by {
                assert(s2.block_wf(x));
                if x.0 != successor.0 {
                    assert(post.blk(x) == s2.blk(x));
                } else {
                    lemma_drop_all_blocks_below(s2.blk(x).predecessors@, block, post.bls().len() as int);
                }
            }
            lemma_wf_edges(&s2, &post);
        }
        let ghost s3 = *self;
        let ops = copy_op_ids(&self.blocks[block.0 as usize].ops);
        proof {
            assert(s3.blk(block).ops == pre.blk(block).ops);
            assert(pre.block_wf(block));
        }
        let mut j: usize = 0;
        while j < ops.len()
            invariant
                self.wf(),
                pre.wf(),
                ops@ == pre.blk(block).ops@,
                ops_below(ops@, pre.opv().len() as int),
                j <= ops@.len(),
                self.bls().len() == pre.bls().len(),
                self.vns().len() == pre.vns().len(),
                self.opv().len() == pre.opv().len(),
                self.same_header(&pre),
                s3.opv() == pre.opv(),
                forall|x: GraphBlockId|
                    #![trigger self.blk(x)]
                    self.valid_block(x) ==> self.blk(x) == (GraphBlock { ops: self.blk(x).ops, ..s3.blk(x) }),
                forall|x: GraphBlockId|
                    #![trigger self.blk(x)]
                    self.valid_block(x) && (forall|m: int| 0 <= m < j ==> pre.opn(#[trigger] ops@[m]).parent != Some(x))
                        ==> self.blk(x).ops == s3.blk(x).ops,
                forall|m: int| 0 <= m < j ==> self.opn(#[trigger] ops@[m]).dead && self.opn(ops@[m]).parent is None,
                forall|o: OpId| #![trigger self.opn(o)] self.valid_op(o) && !ops@.take(j as int).contains(o) ==> self.opn(o) == pre.opn(o),
            decreases ops@.len() - j,
        {
            let o = ops[j];
            proof {
                assert(ops@[j as int].0 < pre.opv().len());
            }
            let ghost d0 = *self;
            proof {
                if !ops@.take(j as int).contains(o) {
                    assert(d0.opn(o) == pre.opn(o));
                }
            }
            self.op_destroy(o);
            proof {
                let post = *self;
                assert forall|x: GraphBlockId|
                    #![trigger post.blk(x)]
                    post.valid_block(x) implies post.blk(x) == (GraphBlock { ops: post.blk(x).ops, ..s3.blk(x) }) by {
                    assert(d0.blk(x) == (GraphBlock { ops: d0.blk(x).ops, ..s3.blk(x) }));
                }
                assert forall|x: GraphBlockId|
                    #![trigger post.blk(x)]
                    post.valid_block(x) && (forall|m: int| 0 <= m < j + 1 ==> pre.opn(#[trigger] ops@[m]).parent != Some(x))
                        implies post.blk(x).ops == s3.blk(x).ops by {
                    assert(pre.opn(ops@[j as int]).parent != Some(x));
                    if ops@.take(j as int).contains(o) {
                        let m = choose|m: int| 0 <= m < j && ops@.take(j as int)[m] == o;
                        assert(ops@[m] == o);
                        assert(d0.opn(ops@[m]).parent is None);
                    } else {
                        assert(d0.opn(o) == pre.opn(o));
                    }
                    assert(d0.blk(x).ops == s3.blk(x).ops);
                }
                assert forall|m: int| 0 <= m < j + 1 implies post.opn(#[trigger] ops@[m]).dead && post.opn(ops@[m]).parent is None by {
                    if m < j && ops@[m] != o {
                        assert(d0.opn(ops@[m]).dead);
                    }
                }
                assert forall|q: OpId| #![trigger post.opn(q)] post.valid_op(q) && !ops@.take(j + 1).contains(q) implies post.opn(q) == pre.opn(q) by {
                    lemma_take_step_contains(ops@, j as int, q);
                    assert(d0.opn(q) == pre.opn(q));
                }
            }
            j += 1;
        }
        let ghost s4 = *self;
        let removed = GraphBlock {
            start: self.blocks[block.0 as usize].start,
            start_order: self.blocks[block.0 as usize].start_order,
            ops: Vec::new(),
            predecessors: Vec::new(),
            successors: Vec::new(),
            dead: true,
        };
        self.blocks.set(block.0 as usize, removed);
        proof {
            let post = *self;
            assert(post.opv() == s4.opv());
            assert forall|o: OpId| #![trigger post.opn(o)] post.valid_op(o) implies post.opn(o) == (GraphOp { parent: post.opn(o).parent, dead: post.opn(o).dead, ..s4.opn(o) }) && (post.opn(o).parent matches Some(x) ==> post.valid_block(x)) by {
                assert(s4.op_wf(o));
            }
            assert forall|x: GraphBlockId| post.valid_block(x) implies #[trigger] post.block_wf(x) by {
                assert(s4.block_wf(x));
                if x != block {
                    assert(post.blk(x) == s4.blk(x));
                }
            }
            lemma_wf_blocks(&s4, &post);
            assert(ops@.take(ops@.len() as int) =~= ops@);
            assert forall|o: OpId| #![trigger post.opn(o)] post.valid_op(o) && !pre.blk(block).ops@.contains(o) implies post.opn(o) == pre.opn(o) by {
                assert(!ops@.take(ops@.len() as int).contains(o));
            }
            assert forall|x: GraphBlockId|
                #![trigger post.blk(x)]
                post.valid_block(x) && x != block implies {
                    &&& post.blk(x).start == pre.blk(x).start
                    &&& post.blk(x).start_order == pre.blk(x).start_order
                    &&& post.blk(x).dead == pre.blk(x).dead
                    &&& post.blk(x).successors@ == (if preds@.contains(x) {
                        replace_all_blocks(pre.blk(x).successors@, block, successor)
                    } else {
                        pre.blk(x).successors@
                    })
                    &&& post.blk(x).predecessors@ == (if x == successor {
                        drop_all(add_each(pre.blk(successor).predecessors@, preds@, preds@.len() as int), block)
                    } else {
                        pre.blk(x).predecessors@
                    })
                    &&& (forall|k: int|
                        0 <= k < pre.blk(block).ops@.len() ==> pre.opn(#[trigger] pre.blk(block).ops@[k]).parent != Some(x))
                        ==> post.blk(x).ops == pre.blk(x).ops
                } by {
                assert(post.blk(x) == s4.blk(x));
                assert(s4.blk(x) == (GraphBlock { ops: s4.blk(x).ops, ..s3.blk(x) }));
                if x.0 != successor.0 {
                    assert(s3.blk(x) == s2.blk(x));
                }
                assert(same_but_edges(s2.blk(x), pre.blk(x)));
            }
        }
        true
    }
}

} // verus!
