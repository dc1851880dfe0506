//! The client–daemon message contract and the decisions of the client-side
//! drivers: which components a full update pass should request updates for,
//! and whether a validation pass found any discrepancy.  Sending the
//! messages, and printing, belong to the caller.

use vstd::prelude::*;
use crate::namemap::MapEntry;
use crate::registry::ValidationResult;
use crate::status::{ComponentStatus, ComponentUpdatable, Status};

verus! {

/// A message sent from client to daemon; one request per round trip.
pub enum ClientRequest {
    /// Update a component.
    Update { component: String },
    /// Validate a component.
    Validate { component: String },
    /// Report the current state.
    Status,
}

/// The names classified [`ComponentUpdatable::Upgradable`], in entry order.
pub open spec fn upgradable_names(entries: Seq<MapEntry<ComponentStatus>>) -> Seq<Seq<char>>
    decreases entries.len(),
{
    if entries.len() == 0 {
        Seq::empty()
    } else {
        let rest = upgradable_names(entries.drop_first());
        if entries[0].value.updatable == ComponentUpdatable::Upgradable {
            seq![entries[0].name@] + rest
        } else {
            rest
        }
    }
}

/// Appending an entry extends [`upgradable_names`] by the entry's name
/// exactly when the entry is upgradable.
proof fn lemma_upgradable_names_push(entries: Seq<MapEntry<ComponentStatus>>, e: MapEntry<
    ComponentStatus,
>)
    ensures
        upgradable_names(entries.push(e)) =~= upgradable_names(entries) + (
        if e.value.updatable == ComponentUpdatable::Upgradable {
            seq![e.name@]
        } else {
            Seq::<Seq<char>>::empty()
        }),
    decreases entries.len(),
{
    if entries.len() == 0 {
        assert(entries.push(e)[0] == e);
        assert(entries.push(e).drop_first() =~= Seq::<MapEntry<ComponentStatus>>::empty());
        assert(upgradable_names(Seq::<MapEntry<ComponentStatus>>::empty())
            =~= Seq::<Seq<char>>::empty());
    } else {
        assert(entries.push(e)[0] == entries[0]);
        assert(entries.push(e).drop_first() =~= entries.drop_first().push(e));
        lemma_upgradable_names_push(entries.drop_first(), e);
    }
}

/// The components a full update pass requests updates for: exactly those the
/// status aggregate classifies as upgradable, in the aggregate's order.
pub fn upgradable_components(st: &Status) -> (r: Vec<String>)
    ensures
        r@.map_values(|s: String| s@) =~= upgradable_names(st.components@),
{
    let n = st.components.len();
    let mut r: Vec<String> = Vec::new();
    let mut i: usize = 0;
    while i < n
        invariant
            i <= n,
            n == st.components@.len(),
            r@.map_values(|s: String| s@) =~= upgradable_names(st.components@.take(i as int)),
        decreases n - i,
    {
        let entry = st.components.entry_at(i);
        let ghost prefix = st.components@.take(i as int);
        if matches!(entry.value.updatable, ComponentUpdatable::Upgradable) {
            r.push(entry.name.clone());
        }
        i = i + 1;
        proof {
            assert(st.components@.take(i as int) =~= prefix.push(st.components@[i - 1]));
            lemma_upgradable_names_push(prefix, st.components@[i - 1]);
        }
    }
    proof {
        assert(st.components@.take(n as int) =~= st.components@);
    }
    r
}

/// Whether a validation pass caught any discrepancy: true exactly when some
/// result carries errors.  The caller exits non-zero in that case.
pub fn any_validation_errors(results: &Vec<ValidationResult>) -> (r: bool)
    ensures
        r == exists|i: int| 0 <= i < results@.len() && results@[i] is Errors,
{
    let n = results.len();
    let mut i: usize = 0;
    while i < n
        invariant
            i <= n,
            n == results@.len(),
            forall|j: int| 0 <= j < i ==> !(results@[j] is Errors),
        decreases n - i,
    {
        if matches!(&results[i], ValidationResult::Errors(_)) {
            return true;
        }
        i = i + 1;
    }
    false
}

} // verus!
