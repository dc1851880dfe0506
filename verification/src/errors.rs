//! Errors of the update engine.  Both are usage errors, surfaced verbatim to
//! the caller before any state is mutated.

use vstd::prelude::*;

verus! {

/// Why an operation was refused.
#[derive(Debug)]
pub enum UpdateError {
    /// No registered component carries this name.
    UnknownComponent(String),
    /// The component is registered but has no installed record.
    NotInstalled(String),
}

impl UpdateError {
    /// A diagnostic line naming the operation's subject.
    pub fn message(&self) -> (r: String)
        ensures
            match self {
                UpdateError::UnknownComponent(n) => r@ == "No component found matching "@ + n@,
                UpdateError::NotInstalled(n) => r@ == "Component "@ + n@
                    + " is not installed"@,
            },
    {
        match self {
            UpdateError::UnknownComponent(n) => String::from_str(
                "No component found matching ",
            ).concat(n.as_str()),
            UpdateError::NotInstalled(n) => String::from_str("Component ").concat(
                n.as_str(),
            ).concat(" is not installed"),
        }
    }
}

} // verus!
