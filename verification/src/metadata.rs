//! Version metadata for a boot component payload and the upgrade ordering
//! between payloads.

use vstd::prelude::*;

verus! {

/// Mathematical value of a [`ContentMetadata`]: the release instant and the
/// version label it carries.
#[verifier::ext_equal]
pub ghost struct MetaView {
    pub timestamp: u64,
    pub version: Seq<char>,
}

/// Describes one specific on-disk payload for a component: a monotonically
/// increasing release timestamp plus a human-readable version label.
/// Immutable once created.
#[derive(Debug)]
pub struct ContentMetadata {
    /// Release instant of the payload, seconds since the Unix epoch.
    pub timestamp: u64,
    /// Version label, e.g. a package NEVRA; compared only for equality.
    pub version: String,
}

impl View for ContentMetadata {
    type V = MetaView;

    open spec fn view(&self) -> MetaView {
        MetaView { timestamp: self.timestamp, version: self.version@ }
    }
}

/// The upgrade ordering: a candidate payload is an upgrade over `cur` exactly
/// when it carries a different version label and a strictly later timestamp.
pub open spec fn spec_can_upgrade(cur: MetaView, candidate: MetaView) -> bool {
    cur.version != candidate.version && cur.timestamp < candidate.timestamp
}

impl ContentMetadata {
    /// True when `candidate` is strictly newer than `self`: same-version and
    /// older (or same-instant) candidates are never upgrades.
    pub fn can_upgrade_to(&self, candidate: &ContentMetadata) -> (r: bool)
        ensures
            r == spec_can_upgrade(self@, candidate@),
    {
        self.version != candidate.version && self.timestamp < candidate.timestamp
    }

    /// An equal copy of this metadata.
    pub fn clone_meta(&self) -> (r: ContentMetadata)
        ensures
            r@ == self@,
    {
        ContentMetadata { timestamp: self.timestamp, version: self.version.clone() }
    }
}

/// The upgrade ordering is irreflexive: no payload is an upgrade over itself,
/// and more generally no payload is an upgrade over one with an equal view.
pub proof fn lemma_can_upgrade_irreflexive(m: MetaView)
    ensures
        !spec_can_upgrade(m, m),
{
}

/// The record of a currently-installed component: the metadata of the payload
/// that is on disk.
#[derive(Debug)]
pub struct InstalledContent {
    /// Metadata of the installed payload.
    pub meta: ContentMetadata,
}

impl View for InstalledContent {
    type V = MetaView;

    open spec fn view(&self) -> MetaView {
        self.meta@
    }
}

impl InstalledContent {
    /// An equal copy of this record.
    pub fn clone_content(&self) -> (r: InstalledContent)
        ensures
            r@ == self@,
    {
        InstalledContent { meta: self.meta.clone_meta() }
    }
}

} // verus!
