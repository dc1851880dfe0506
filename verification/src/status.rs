//! Read-only views of the system: per-component status classification, the
//! `status` aggregate, and the lookup that backs `validate`.  Neither
//! operation ever changes the persisted state.

use vstd::prelude::*;
use crate::errors::UpdateError;
use crate::metadata::{spec_can_upgrade, ContentMetadata, InstalledContent, MetaView};
use crate::namemap::{MapEntry, NameMap};
use crate::registry::{is_known, spec_is_known};
use crate::state::SavedState;

verus! {

/// Whether a discovered update should be applied, ignored, or no newer
/// payload was found.
#[derive(Debug, PartialEq, Eq, Structural, Clone, Copy)]
pub enum ComponentUpdatable {
    /// The component could not discover any update metadata.
    NoUpdateAvailable,
    /// The discovered candidate carries the installed version itself.
    AtLatestVersion,
    /// A candidate exists but applying it would not be an upgrade.
    WouldDowngrade,
    /// The candidate is strictly newer and should be applied.
    Upgradable,
}

/// View of an optional metadata value.
pub open spec fn spec_opt_meta(m: Option<ContentMetadata>) -> Option<MetaView> {
    match m {
        Some(c) => Some(c@),
        None => None,
    }
}

/// The classification rule: no candidate at all means nothing was
/// discoverable; a candidate with the installed version label means the
/// component is current; any other candidate is an upgrade exactly when the
/// upgrade ordering says so, and otherwise would be a downgrade.
pub open spec fn spec_classify(
    installed: MetaView,
    candidate: Option<MetaView>,
) -> ComponentUpdatable {
    match candidate {
        None => ComponentUpdatable::NoUpdateAvailable,
        Some(c) => if installed.version == c.version {
            ComponentUpdatable::AtLatestVersion
        } else if spec_can_upgrade(installed, c) {
            ComponentUpdatable::Upgradable
        } else {
            ComponentUpdatable::WouldDowngrade
        },
    }
}

impl ComponentUpdatable {
    /// Classify a discovered candidate against the installed metadata.
    pub fn from_metadata(installed: &ContentMetadata, candidate: Option<&ContentMetadata>) -> (r:
        ComponentUpdatable)
        ensures
            r == spec_classify(
                installed@,
                match candidate {
                    Some(c) => Some(c@),
                    None => None,
                },
            ),
    {
        match candidate {
            None => ComponentUpdatable::NoUpdateAvailable,
            Some(c) => if installed.version == c.version {
                ComponentUpdatable::AtLatestVersion
            } else if installed.can_upgrade_to(c) {
                ComponentUpdatable::Upgradable
            } else {
                ComponentUpdatable::WouldDowngrade
            },
        }
    }
}

/// Mathematical value of a [`ComponentStatus`].
#[verifier::ext_equal]
pub ghost struct ComponentStatusView {
    pub installed: MetaView,
    pub interrupted: Option<MetaView>,
    pub update: Option<MetaView>,
    pub updatable: ComponentUpdatable,
}

/// Status of one installed component.
#[derive(Debug)]
pub struct ComponentStatus {
    /// Metadata of the payload currently installed.
    pub installed: ContentMetadata,
    /// Candidate of an update attempt that was begun and never completed.
    pub interrupted: Option<ContentMetadata>,
    /// The best candidate the component discovered, if any.
    pub update: Option<ContentMetadata>,
    /// Classification of `update` against `installed`.
    pub updatable: ComponentUpdatable,
}

impl View for ComponentStatus {
    type V = ComponentStatusView;

    open spec fn view(&self) -> ComponentStatusView {
        ComponentStatusView {
            installed: self.installed@,
            interrupted: spec_opt_meta(self.interrupted),
            update: spec_opt_meta(self.update),
            updatable: self.updatable,
        }
    }
}

/// The full read-only aggregate: one entry per installed component.
#[derive(Debug)]
pub struct Status {
    /// Status per component, in the order of the installed map.
    pub components: NameMap<ComponentStatus>,
}

/// The candidate recorded in `queries` for `name`: the component's answer to
/// its update probe, absent when no answer was recorded.
pub open spec fn spec_query(
    queries: NameMap<Option<ContentMetadata>>,
    name: Seq<char>,
) -> Option<MetaView> {
    match queries.spec_get(name) {
        Some(q) => spec_opt_meta(q),
        None => None,
    }
}

/// The status entry owed for component `name` with installed metadata
/// `installed`, given the state and the recorded query answers.
pub open spec fn spec_component_status(
    s: SavedState,
    queries: NameMap<Option<ContentMetadata>>,
    name: Seq<char>,
    installed: MetaView,
) -> ComponentStatusView {
    ComponentStatusView {
        installed: installed,
        interrupted: s.spec_pending(name),
        update: spec_query(queries, name),
        updatable: spec_classify(installed, spec_query(queries, name)),
    }
}

/// Assemble the status aggregate from a loaded state and each component's
/// answer to its update probe (`queries`, keyed by component name).  An
/// absent state yields an empty aggregate.  Fails if and only if some
/// installed entry names no registered component.  Reads only.
pub fn status(state: &Option<SavedState>, queries: &NameMap<Option<ContentMetadata>>) -> (r:
    Result<Status, UpdateError>)
    requires
        match state {
            Some(s) => s.wf(),
            None => true,
        },
        queries.wf(),
    ensures
        match r {
            Ok(st) => st.components.wf() && match state {
                None => st.components@.len() == 0,
                Some(s) => {
                    &&& st.components@.len() == s.installed@.len()
                    &&& forall|i: int|
                        0 <= i < s.installed@.len() ==> spec_is_known(
                            #[trigger] s.installed@[i].name@,
                        )
                    &&& forall|i: int|
                        0 <= i < s.installed@.len() ==> (#[trigger] st.components@[i]).name@
                            == s.installed@[i].name@ && st.components@[i].value@
                            == spec_component_status(
                            *s,
                            *queries,
                            s.installed@[i].name@,
                            s.installed@[i].value@,
                        )
                },
            },
            Err(e) => match state {
                Some(s) => e matches UpdateError::UnknownComponent(n) && !spec_is_known(n@)
                    && exists|i: int| 0 <= i < s.installed@.len() && #[trigger] s.installed@[i].name@
                    == n@,
                None => false,
            },
        },
{
    let s = match state {
        Some(s) => s,
        None => {
            return Ok(Status { components: NameMap::new() });
        },
    };
    let n = s.installed.len();
    let mut components: NameMap<ComponentStatus> = NameMap::new();
    let mut i: usize = 0;
    while i < n
        invariant
            i <= n,
            n == s.installed@.len(),
            match state {
                Some(ss) => *s == ss,
                None => false,
            },
            s.wf(),
            queries.wf(),
            components@.len() == i,
            forall|j: int|
                0 <= j < i ==> (#[trigger] components@[j]).name@ == s.installed@[j].name@
                    && components@[j].value@ == spec_component_status(
                    *s,
                    *queries,
                    s.installed@[j].name@,
                    s.installed@[j].value@,
                ),
            forall|j: int| 0 <= j < i ==> spec_is_known(#[trigger] s.installed@[j].name@),
        decreases n - i,
    {
        let entry = s.installed.entry_at(i);
        if !is_known(&entry.name) {
            let offending = entry.name.clone();
            proof {
                assert(s.installed@[i as int].name@ == offending@);
            }
            return Err(UpdateError::UnknownComponent(offending));
        }
        let interrupted = match &s.pending {
            Some(p) => match p.get(&entry.name) {
                Some(m) => Some(m.clone_meta()),
                None => None,
            },
            None => None,
        };
        let update = match queries.get(&entry.name) {
            Some(q) => match q {
                Some(c) => Some(c.clone_meta()),
                None => None,
            },
            None => None,
        };
        let updatable = ComponentUpdatable::from_metadata(&entry.value.meta, update.as_ref());
        let cs = ComponentStatus { installed: entry.value.meta.clone_meta(), interrupted, update, updatable };
        components.entries.push(MapEntry { name: entry.name.clone(), value: cs });
        i = i + 1;
    }
    proof {
        assert forall|p: int, q: int| 0 <= p < q < components@.len() implies components@[p].name@
            != components@[q].name@ by {
            assert(s.installed@[p].name@ != s.installed@[q].name@);
        }
    }
    Ok(Status { components })
}

/// Look up the installed record that a validation request for `name` is to
/// check: the caller hands it to the component's read-only content check.
/// Fails if and only if `name` is not a registered component or has no
/// installed record.  Reads only.
pub fn validate(state: &Option<SavedState>, name: &String) -> (r: Result<
    InstalledContent,
    UpdateError,
>)
    requires
        match state {
            Some(s) => s.wf(),
            None => true,
        },
    ensures
        match r {
            Ok(c) => spec_is_known(name@) && (state matches Some(s) && s.spec_installed(name@)
                == Some(c@)),
            Err(e) => match e {
                UpdateError::UnknownComponent(n) => n@ == name@ && !spec_is_known(name@),
                UpdateError::NotInstalled(n) => n@ == name@ && spec_is_known(name@) && match state {
                    Some(s) => s.spec_installed(name@) is None,
                    None => true,
                },
            },
        },
{
    if !is_known(name) {
        return Err(UpdateError::UnknownComponent(name.clone()));
    }
    match state {
        None => Err(UpdateError::NotInstalled(name.clone())),
        Some(s) => match s.installed.get(name) {
            Some(c) => Ok(c.clone_content()),
            None => Err(UpdateError::NotInstalled(name.clone())),
        },
    }
}

} // verus!
