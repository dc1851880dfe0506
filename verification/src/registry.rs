//! The closed set of boot components this platform manages, keyed by stable
//! name.  The set is fixed per process; an unknown name fails every lookup.

use vstd::prelude::*;
use crate::errors::UpdateError;

verus! {

/// A boot component managed as an independent upgrade unit.  The variant set
/// is closed; each variant has a stable unique name used as the key of the
/// installed and pending maps and as the wire identifier.
#[derive(Debug, PartialEq, Eq, Structural, Clone, Copy)]
pub enum ComponentKind {
    /// The EFI system partition payload.
    Efi,
}

/// The stable name of a component.
pub open spec fn spec_name(k: ComponentKind) -> Seq<char> {
    match k {
        ComponentKind::Efi => "EFI"@,
    }
}

/// Whether some registered component carries this name.
pub open spec fn spec_is_known(name: Seq<char>) -> bool {
    name == "EFI"@
}

impl ComponentKind {
    /// The component's stable unique identifier.
    pub fn name(&self) -> (r: &'static str)
        ensures
            r@ == spec_name(*self),
    {
        match self {
            ComponentKind::Efi => "EFI",
        }
    }
}

/// The components applicable to the current platform, each name appearing
/// once.
pub fn get_components() -> (r: Vec<ComponentKind>)
    ensures
        r@.len() == 1,
        r@[0] == ComponentKind::Efi,
{
    let mut components: Vec<ComponentKind> = Vec::new();
    components.push(ComponentKind::Efi);
    components
}

/// Whether `name` names a registered component.
pub fn is_known(name: &String) -> (r: bool)
    ensures
        r == spec_is_known(name@),
{
    let efi = String::from_str("EFI");
    *name == efi
}

/// Resolve `name` to the registered component carrying it; an unknown name
/// is a not-found error.
pub fn new_from_name(name: &String) -> (r: Result<ComponentKind, UpdateError>)
    ensures
        match r {
            Ok(k) => spec_is_known(name@) && spec_name(k) == name@,
            Err(e) => !spec_is_known(name@) && (e matches UpdateError::UnknownComponent(n)
                && n@ == name@),
        },
{
    if is_known(name) {
        Ok(ComponentKind::Efi)
    } else {
        Err(UpdateError::UnknownComponent(name.clone()))
    }
}

/// Read-only result of checking installed payloads against the recorded
/// metadata: either everything matches, or a non-empty list of discrepancy
/// descriptions.
#[derive(Debug)]
pub enum ValidationResult {
    /// The on-disk content matches the recorded metadata.
    Valid,
    /// Human-readable descriptions of each discrepancy found.
    Errors(Vec<String>),
}

} // verus!
