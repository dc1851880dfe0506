//! Crash-safe update management for boot components.
//!
//! The library tracks which boot components are installed, decides whether a
//! discovered candidate payload is an upgrade, and drives the persisted state
//! through the update state machine.  All durable state lives in a single
//! state file; its encoding and decoding are part of the library, so that a
//! fully written file always decodes to exactly the state that was saved.

pub mod client;
pub mod codec;
pub mod errors;
pub mod metadata;
pub mod namemap;
pub mod orchestrator;
pub mod parse;
pub mod registry;
pub mod state;
pub mod status;

pub use errors::UpdateError;
pub use metadata::ContentMetadata;
pub use metadata::InstalledContent;
pub use registry::get_components;
pub use state::SavedState;
pub use status::status;
pub use status::validate;
