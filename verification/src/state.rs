//! The durable state record: which payload is installed for each component,
//! and which update attempts were begun but never confirmed complete.

use vstd::prelude::*;
use crate::metadata::{ContentMetadata, InstalledContent, MetaView};
use crate::namemap::{MapEntry, NameMap};

verus! {

/// Mathematical value of a [`SavedState`]: the installed and pending maps as
/// sequences of (name, metadata) pairs, in entry order.
#[verifier::ext_equal]
pub ghost struct StateView {
    pub installed: Seq<(Seq<char>, MetaView)>,
    pub pending: Option<Seq<(Seq<char>, MetaView)>>,
}

/// Pair view of one installed-map entry.
pub open spec fn installed_pair(e: MapEntry<InstalledContent>) -> (Seq<char>, MetaView) {
    (e.name@, e.value@)
}

/// Pair view of one pending-map entry.
pub open spec fn pending_pair(e: MapEntry<ContentMetadata>) -> (Seq<char>, MetaView) {
    (e.name@, e.value@)
}

/// The durable root record.  `installed` maps each component name to the
/// record of its installed payload; `pending` maps a component name to a
/// candidate update that was begun but not confirmed complete.  A `pending`
/// entry is the sole signal that a previous update attempt for that component
/// may have been interrupted; it is removed only once an update for the
/// component fully completes.
#[derive(Debug)]
pub struct SavedState {
    /// One entry per installed component.
    pub installed: NameMap<InstalledContent>,
    /// Absent on a freshly installed system; present (possibly empty) once an
    /// update has ever been begun.
    pub pending: Option<NameMap<ContentMetadata>>,
}

impl View for SavedState {
    type V = StateView;

    open spec fn view(&self) -> StateView {
        StateView {
            installed: self.installed@.map_values(|e: MapEntry<InstalledContent>| installed_pair(e)),
            pending: match self.pending {
                Some(p) => Some(p@.map_values(|e: MapEntry<ContentMetadata>| pending_pair(e))),
                None => None,
            },
        }
    }
}

impl SavedState {
    /// Both maps have pairwise-distinct names.
    pub open spec fn wf(&self) -> bool {
        &&& self.installed.wf()
        &&& match self.pending {
            Some(p) => p.wf(),
            None => true,
        }
    }

    /// Metadata of the payload installed for `name`, if any.
    pub open spec fn spec_installed(&self, name: Seq<char>) -> Option<MetaView> {
        match self.installed.spec_get(name) {
            Some(c) => Some(c@),
            None => None,
        }
    }

    /// Candidate recorded as pending for `name`, if any.
    pub open spec fn spec_pending(&self, name: Seq<char>) -> Option<MetaView> {
        match self.pending {
            Some(p) => match p.spec_get(name) {
                Some(m) => Some(m@),
                None => None,
            },
            None => None,
        }
    }

    /// The state of a system where nothing is installed and no update was
    /// ever begun.
    pub fn new_empty() -> (r: SavedState)
        ensures
            r.wf(),
            r@.installed =~= Seq::<(Seq<char>, MetaView)>::empty(),
            r@.pending is None,
            forall|name: Seq<char>| r.spec_installed(name) is None,
            forall|name: Seq<char>| r.spec_pending(name) is None,
    {
        SavedState { installed: NameMap::new(), pending: None }
    }

    /// Record `meta` as the installed payload for `name`, as first-time setup
    /// does for each component it installs.  Every other component keeps its
    /// record; pending entries are untouched.
    pub fn record_install(&mut self, name: String, meta: ContentMetadata)
        requires
            old(self).wf(),
        ensures
            final(self).wf(),
            final(self).spec_installed(name@) == Some(meta@),
            forall|other: Seq<char>|
                other != name@ ==> final(self).spec_installed(other) == old(self).spec_installed(
                    other,
                ),
            forall|n: Seq<char>| final(self).spec_pending(n) == old(self).spec_pending(n),
            final(self)@.pending == old(self)@.pending,
    {
        self.installed.insert(name, InstalledContent { meta });
    }
}

/// View of an installed-map lookup result.
pub open spec fn meta_of_installed(o: Option<InstalledContent>) -> Option<MetaView> {
    match o {
        Some(c) => Some(c@),
        None => None,
    }
}

/// View of a pending-map lookup result.
pub open spec fn meta_of_pending(o: Option<ContentMetadata>) -> Option<MetaView> {
    match o {
        Some(m) => Some(m@),
        None => None,
    }
}

/// Installed maps with pairwise-equal entry views agree on every lookup, up
/// to views.
proof fn lemma_installed_lookup_from_views(
    x: Seq<MapEntry<InstalledContent>>,
    y: Seq<MapEntry<InstalledContent>>,
    name: Seq<char>,
)
    requires
        x.len() == y.len(),
        forall|k: int| 0 <= k < x.len() ==> installed_pair(#[trigger] x[k]) == installed_pair(y[k]),
    ensures
        meta_of_installed(crate::namemap::find(x, name)) == meta_of_installed(
            crate::namemap::find(y, name),
        ),
    decreases x.len(),
{
    if x.len() > 0 {
        assert(installed_pair(x[0]) == installed_pair(y[0]));
        assert(x[0].name@ == y[0].name@);
        if x[0].name@ != name {
            assert(forall|k: int|
                0 <= k < x.len() - 1 ==> #[trigger] x.drop_first()[k] == x[k + 1]
                    && y.drop_first()[k] == y[k + 1]);
            lemma_installed_lookup_from_views(x.drop_first(), y.drop_first(), name);
        } else {
            assert(x[0].value@ == y[0].value@);
        }
    }
}

/// Pending maps with pairwise-equal entry views agree on every lookup, up to
/// views.
proof fn lemma_pending_lookup_from_views(
    x: Seq<MapEntry<ContentMetadata>>,
    y: Seq<MapEntry<ContentMetadata>>,
    name: Seq<char>,
)
    requires
        x.len() == y.len(),
        forall|k: int| 0 <= k < x.len() ==> pending_pair(#[trigger] x[k]) == pending_pair(y[k]),
    ensures
        meta_of_pending(crate::namemap::find(x, name)) == meta_of_pending(
            crate::namemap::find(y, name),
        ),
    decreases x.len(),
{
    if x.len() > 0 {
        assert(pending_pair(x[0]) == pending_pair(y[0]));
        assert(x[0].name@ == y[0].name@);
        if x[0].name@ != name {
            assert(forall|k: int|
                0 <= k < x.len() - 1 ==> #[trigger] x.drop_first()[k] == x[k + 1]
                    && y.drop_first()[k] == y[k + 1]);
            lemma_pending_lookup_from_views(x.drop_first(), y.drop_first(), name);
        } else {
            assert(x[0].value@ == y[0].value@);
        }
    }
}

/// Two states with equal mathematical values agree on every component's
/// installed and pending record.  In particular, a state decoded from the
/// file a crashed run persisted — equal in value to the state that was saved
/// — still carries the pending candidate that run recorded, so the next
/// update reports it as interrupted.
pub proof fn lemma_view_determines_state(a: SavedState, b: SavedState, name: Seq<char>)
    requires
        a@ == b@,
    ensures
        a.spec_installed(name) == b.spec_installed(name),
        a.spec_pending(name) == b.spec_pending(name),
{
    assert(a@.installed == b@.installed);
    assert(a@.installed == a.installed@.map_values(
        |e: MapEntry<InstalledContent>| installed_pair(e),
    ));
    assert(b@.installed == b.installed@.map_values(
        |e: MapEntry<InstalledContent>| installed_pair(e),
    ));
    assert(a.installed@.len() == b.installed@.len()) by {
        assert(a@.installed.len() == b@.installed.len());
    }
    assert forall|k: int| 0 <= k < a.installed@.len() implies installed_pair(
        #[trigger] a.installed@[k],
    ) == installed_pair(b.installed@[k]) by {
        assert(a@.installed[k] == installed_pair(a.installed@[k]));
        assert(b@.installed[k] == installed_pair(b.installed@[k]));
    }
    lemma_installed_lookup_from_views(a.installed@, b.installed@, name);
    match (a.pending, b.pending) {
        (Some(pa), Some(pb)) => {
            let pav = pa@.map_values(|e: MapEntry<ContentMetadata>| pending_pair(e));
            let pbv = pb@.map_values(|e: MapEntry<ContentMetadata>| pending_pair(e));
            assert(a@.pending == Some(pav));
            assert(b@.pending == Some(pbv));
            assert(a@.pending == b@.pending);
            assert(pav == pbv);
            assert(pav.len() == pa@.len());
            assert(pbv.len() == pb@.len());
            assert(pa@.len() == pb@.len());
            assert forall|k: int| 0 <= k < pa@.len() implies pending_pair(#[trigger] pa@[k])
                == pending_pair(pb@[k]) by {
                assert(pav[k] == pending_pair(pa@[k]));
                assert(pbv[k] == pending_pair(pb@[k]));
            }
            lemma_pending_lookup_from_views(pa@, pb@, name);
        },
        (None, None) => {},
        _ => {
            assert(false);
        },
    }
}

} // verus!
