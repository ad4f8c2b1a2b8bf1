//! Lifecycle actions: the markers that open and close each phase of the
//! pipeline on a [`Funcdata`].

use vstd::prelude::*;
use crate::action::{Action, arenas_grow};
use crate::graph::{Funcdata, GraphVarnode, VarnodeFlags, VarnodeId, indirect_only_candidate};

verus! {

/// Starts function processing by setting `processing_started`.
pub struct ActionStart;

impl Action for ActionStart {
    open spec fn title(&self) -> Seq<char> {
        "start"@
    }

    fn name(&self) -> (r: &'static str) {
        "start"
    }

    open spec fn reports(&self, pre: Funcdata, post: Funcdata, changes: usize) -> bool {
        changes == 0
    }

    fn apply(&self, data: &mut Funcdata) -> (changes: usize)
        ensures
            changes == 0,
            final(data).spec_processing_started(),
            final(data).same_graph(&*old(data)),
    {
        data.start_processing();
        0
    }
}

/// Completes function processing by setting `processing_complete`.
pub struct ActionStop;

impl Action for ActionStop {
    open spec fn title(&self) -> Seq<char> {
        "stop"@
    }

    fn name(&self) -> (r: &'static str) {
        "stop"
    }

    open spec fn reports(&self, pre: Funcdata, post: Funcdata, changes: usize) -> bool {
        changes == 0
    }

    fn apply(&self, data: &mut Funcdata) -> (changes: usize)
        ensures
            changes == 0,
            final(data).spec_processing_complete(),
            final(data).spec_processing_started() == old(data).spec_processing_started(),
            final(data).same_graph(&*old(data)),
    {
        data.stop_processing();
        0
    }
}

/// Enables type recovery on reset and starts it when applied.
pub struct ActionStartTypes;

impl ActionStartTypes {
    /// Enables type recovery during action-pool reset.
    pub fn reset(&self, data: &mut Funcdata)
        requires
            old(data).wf(),
        ensures
            final(data).wf(),
            final(data).spec_type_recovery_on(),
            final(data).spec_type_recovery_started() == old(data).spec_type_recovery_started(),
            final(data).same_graph(&*old(data)),
    {
        data.set_type_recovery(true);
    }
}

impl Action for ActionStartTypes {
    open spec fn title(&self) -> Seq<char> {
        "starttypes"@
    }

    fn name(&self) -> (r: &'static str) {
        "starttypes"
    }

    open spec fn reports(&self, pre: Funcdata, post: Funcdata, changes: usize) -> bool {
        changes == 0
    }

    fn apply(&self, data: &mut Funcdata) -> (changes: usize)
        ensures
            changes == 0,
            final(data).spec_type_recovery_started(),
            final(data).spec_type_recovery_on() == old(data).spec_type_recovery_on(),
            final(data).same_graph(&*old(data)),
    {
        let _ = data.start_type_recovery();
        0
    }
}

/// Records the varnode creation boundary at which cleanup starts.
pub struct ActionStartCleanUp;

impl Action for ActionStartCleanUp {
    open spec fn title(&self) -> Seq<char> {
        "startcleanup"@
    }

    fn name(&self) -> (r: &'static str) {
        "startcleanup"
    }

    open spec fn reports(&self, pre: Funcdata, post: Funcdata, changes: usize) -> bool {
        changes == 0
    }

    fn apply(&self, data: &mut Funcdata) -> (changes: usize)
        ensures
            changes == 0,
            final(data).spec_clean_up_index() == old(data).vns().len(),
            final(data).same_graph(&*old(data)),
    {
        data.start_clean_up();
        0
    }
}

/// Enables the high-level variable phase at the current varnode boundary.
pub struct ActionAssignHigh;

impl Action for ActionAssignHigh {
    open spec fn title(&self) -> Seq<char> {
        "assignhigh"@
    }

    fn name(&self) -> (r: &'static str) {
        "assignhigh"
    }

    open spec fn reports(&self, pre: Funcdata, post: Funcdata, changes: usize) -> bool {
        changes == 0
    }

    fn apply(&self, data: &mut Funcdata) -> (changes: usize)
        ensures
            changes == 0,
            final(data).spec_high_level_on(),
            final(data).spec_high_level_index() == (if old(data).spec_high_level_on() {
                old(data).spec_high_level_index()
            } else {
                old(data).vns().len() as usize
            }),
            final(data).same_graph(&*old(data)),
    {
        data.set_high_level();
        0
    }
}

/// Marks abnormal inputs whose complete graph use reaches an `INDIRECT`.
pub struct ActionMarkIndirectOnly;

impl Action for ActionMarkIndirectOnly {
    open spec fn title(&self) -> Seq<char> {
        "markindirectonly"@
    }

    fn name(&self) -> (r: &'static str) {
        "markindirectonly"
    }

    open spec fn reports(&self, pre: Funcdata, post: Funcdata, changes: usize) -> bool {
        changes == 0
    }

    fn apply(&self, data: &mut Funcdata) -> (changes: usize)
        ensures
            changes == 0,
            final(data).vns().len() == old(data).vns().len(),
            forall|v: VarnodeId|
                #![trigger final(data).vn(v)]
                final(data).valid_vn(v) ==> final(data).vn(v) == (GraphVarnode {
                    flags: VarnodeFlags {
                        indirect_only: old(data).vn(v).flags.indirect_only || indirect_only_candidate(&*old(data), v),
                        ..old(data).vn(v).flags
                    },
                    ..old(data).vn(v)
                }),
            final(data).opv() == old(data).opv(),
            final(data).bls() == old(data).bls(),
            final(data).same_header(&*old(data)),
    {
        let _ = data.mark_indirect_only();
        0
    }
}

/// The symbol-entry merge for a multiple-entry function. The graph
/// carries no symbol entries or high variables to merge, so nothing changes.
pub fn merge_multi_entry(data: &mut Funcdata) -> (changes: usize)
    ensures
        changes == 0,
        *final(data) == *old(data),
{
    0
}

/// Exposes the multiple-entry merge action at its merge-phase slot.
pub struct ActionMergeMultiEntry;

impl Action for ActionMergeMultiEntry {
    open spec fn title(&self) -> Seq<char> {
        "mergemultientry"@
    }

    fn name(&self) -> (r: &'static str) {
        "mergemultientry"
    }

    open spec fn reports(&self, pre: Funcdata, post: Funcdata, changes: usize) -> bool {
        changes == 0 && post == pre
    }

    fn apply(&self, data: &mut Funcdata) -> (changes: usize)
        ensures
            changes == 0,
            *final(data) == *old(data),
    {
        merge_multi_entry(data)
    }
}

} // verus!
