//! The update state machine.  The caller performs the outside work — locking
//! the root, loading and persisting the state file, querying the component
//! for a candidate and running its payload mutation — and drives these
//! functions with the results:
//!
//! 1. [`check_update`] decides from the loaded state and the queried
//!    candidate whether an update may proceed.
//! 2. [`record_pending`] records the candidate as pending, to be persisted
//!    *before* the payload is mutated; what it returns as `interrupted` is the
//!    candidate of an earlier attempt that never completed.
//! 3. [`apply_update`] commits the payload the component reports after a
//!    successful mutation, and clears the pending record.
//!
//! If the process dies between the persist after step 2 and the persist after
//! step 3, the pending record survives on disk and the next attempt reports
//! it as interrupted.

use vstd::prelude::*;
use crate::metadata::{spec_can_upgrade, ContentMetadata, InstalledContent, MetaView};
use crate::namemap::NameMap;
use crate::state::SavedState;

verus! {

/// What an update request may do, decided from the loaded state and the
/// candidate the component reported.
#[derive(Debug, PartialEq, Eq, Structural)]
pub enum UpdateDecision {
    /// The component has no installed record; the request fails.
    NotInstalled,
    /// No candidate exists, or the candidate is not strictly newer than the
    /// installed payload: nothing to do, the state is left untouched.
    AtLatestVersion,
    /// The candidate is a strict upgrade; the update may proceed.
    Proceed,
}

/// Result of a completed update request, as reported to the client.
#[derive(Debug)]
pub enum ComponentUpdateResult {
    /// Nothing newer than the installed payload exists.
    AtLatestVersion,
    /// The component was brought to a new version.
    Updated {
        /// Metadata installed before this update.
        previous: ContentMetadata,
        /// Candidate of an earlier update attempt that never completed.
        interrupted: Option<ContentMetadata>,
        /// Metadata installed now.
        new: ContentMetadata,
    },
}

/// The decision [`check_update`] makes, as a predicate over the state.
pub open spec fn spec_decision(
    installed: Option<MetaView>,
    candidate: Option<MetaView>,
) -> UpdateDecision {
    match installed {
        None => UpdateDecision::NotInstalled,
        Some(cur) => match candidate {
            Some(c) => if spec_can_upgrade(cur, c) {
                UpdateDecision::Proceed
            } else {
                UpdateDecision::AtLatestVersion
            },
            None => UpdateDecision::AtLatestVersion,
        },
    }
}

/// Decide whether an update for `name` may proceed: only when the component
/// has an installed record and `candidate` is a strict upgrade over it.  A
/// missing candidate, an equal version and a downgrade all answer
/// `AtLatestVersion`.  Reads only; the state is never changed.
pub fn check_update(
    state: &SavedState,
    name: &String,
    candidate: Option<&ContentMetadata>,
) -> (r: UpdateDecision)
    requires
        state.wf(),
    ensures
        r == spec_decision(
            state.spec_installed(name@),
            match candidate {
                Some(c) => Some(c@),
                None => None,
            },
        ),
{
    match state.installed.get(name) {
        None => UpdateDecision::NotInstalled,
        Some(inst) => match candidate {
            Some(c) => if inst.meta.can_upgrade_to(c) {
                UpdateDecision::Proceed
            } else {
                UpdateDecision::AtLatestVersion
            },
            None => UpdateDecision::AtLatestVersion,
        },
    }
}

/// Metadata of the payload installed for `name`, cloned for the caller to
/// hand to the component's payload mutation.
pub fn installed_content(state: &SavedState, name: &String) -> (r: Option<InstalledContent>)
    requires
        state.wf(),
    ensures
        match r {
            Some(c) => state.spec_installed(name@) == Some(c@),
            None => state.spec_installed(name@) is None,
        },
{
    match state.installed.get(name) {
        Some(inst) => Some(inst.clone_content()),
        None => None,
    }
}

/// Record `candidate` as the pending update for `name` — the durability
/// checkpoint to persist before the component's payload is mutated.  Returns
/// the candidate of an earlier attempt for `name` that never completed, to be
/// reported as `interrupted`.  Installed records and the pending records of
/// every other component are untouched.
pub fn record_pending(
    state: &mut SavedState,
    name: &String,
    candidate: &ContentMetadata,
) -> (interrupted: Option<ContentMetadata>)
    requires
        old(state).wf(),
    ensures
        final(state).wf(),
        match interrupted {
            Some(m) => old(state).spec_pending(name@) == Some(m@),
            None => old(state).spec_pending(name@) is None,
        },
        final(state).spec_pending(name@) == Some(candidate@),
        forall|other: Seq<char>|
            other != name@ ==> final(state).spec_pending(other) == old(state).spec_pending(other),
        forall|n: Seq<char>| final(state).spec_installed(n) == old(state).spec_installed(n),
        final(state)@.installed == old(state)@.installed,
{
    let mut taken: Option<NameMap<ContentMetadata>> = None;
    core::mem::swap(&mut taken, &mut state.pending);
    let mut container: NameMap<ContentMetadata> = match taken {
        Some(p) => p,
        None => NameMap::new(),
    };
    let interrupted = match container.get(name) {
        Some(m) => Some(m.clone_meta()),
        None => None,
    };
    container.insert(name.clone(), candidate.clone_meta());
    state.pending = Some(container);
    interrupted
}

/// Commit a completed update: the component reports `new_content` as the
/// payload now on disk for `name`.  The commit is refused — returning `false`
/// with the state untouched — unless `name` has an installed record and
/// `new_content` is a strict upgrade over it, so a component can never roll a
/// record back to an equal or older version.  On success the installed record
/// is replaced, the pending record for `name` is cleared, and every other
/// component keeps both records.
pub fn apply_update(state: &mut SavedState, name: &String, new_content: InstalledContent) -> (r:
    bool)
    requires
        old(state).wf(),
    ensures
        final(state).wf(),
        r == (old(state).spec_installed(name@) is Some && spec_can_upgrade(
            old(state).spec_installed(name@)->Some_0,
            new_content@,
        )),
        r ==> final(state).spec_installed(name@) == Some(new_content@),
        r ==> spec_can_upgrade(
            old(state).spec_installed(name@)->Some_0,
            final(state).spec_installed(name@)->Some_0,
        ),
        r ==> final(state).spec_pending(name@) is None,
        !r ==> *final(state) == *old(state),
        forall|other: Seq<char>|
            other != name@ ==> final(state).spec_installed(other) == old(state).spec_installed(
                other,
            ),
        forall|other: Seq<char>|
            other != name@ ==> final(state).spec_pending(other) == old(state).spec_pending(other),
{
    let upgrades = match state.installed.get(name) {
        Some(inst) => inst.meta.can_upgrade_to(&new_content.meta),
        None => false,
    };
    if !upgrades {
        return false;
    }
    state.installed.insert(name.clone(), new_content);
    let mut taken: Option<NameMap<ContentMetadata>> = None;
    core::mem::swap(&mut taken, &mut state.pending);
    let mut container: NameMap<ContentMetadata> = match taken {
        Some(p) => p,
        None => NameMap::new(),
    };
    container.remove(name);
    state.pending = Some(container);
    true
}

/// Idempotent recovery.  Suppose an update for `name` recorded candidate `c`
/// as pending ([`record_pending`]'s contract on the state it leaves) and the
/// attempt never completed, so nothing cleared the record: then in whatever
/// state `s2` a later attempt loads, the pending record for `name` still
/// carries `c`, and [`record_pending`]'s contract makes that later attempt
/// report `interrupted = Some(c)`.
pub proof fn lemma_idempotent_recovery(
    s1: SavedState,
    s2: SavedState,
    name: Seq<char>,
    c: MetaView,
)
    requires
        s1.spec_pending(name) == Some(c),
        s2.spec_pending(name) == s1.spec_pending(name),
    ensures
        s2.spec_pending(name) == Some(c),
{
}

/// No-op safety.  When the component reports no candidate, or one that is not
/// a strict upgrade, the decision is `AtLatestVersion` — never `Proceed` —
/// for every installed state, so the update path records nothing and the
/// state it loaded is the state that remains.
pub proof fn lemma_no_op_safety(installed: MetaView, candidate: Option<MetaView>)
    requires
        match candidate {
            Some(c) => !spec_can_upgrade(installed, c),
            None => true,
        },
    ensures
        spec_decision(Some(installed), candidate) == UpdateDecision::AtLatestVersion,
{
}

/// Upgrade monotonicity for the decision: a candidate equal to the installed
/// metadata never lets an update proceed.
pub proof fn lemma_decision_irreflexive(installed: MetaView)
    ensures
        spec_decision(Some(installed), Some(installed)) == UpdateDecision::AtLatestVersion,
{
    crate::metadata::lemma_can_upgrade_irreflexive(installed);
}

} // verus!
