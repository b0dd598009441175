//! Copybook schema-migration governance: diff two copybook layout versions, classify the drift
//! of every field, and collapse the drift into a fail-closed on-disk-layout compatibility
//! verdict.
pub mod layout;
pub mod text;

pub use layout::{Copybook, Field, FieldKind};
pub mod drift;
pub use drift::{ChangeKind, DriftCounts, DriftReport, FieldChange};
pub mod verdict;
pub use drift::diff;
pub use verdict::{compatibility, Compatibility};
pub mod laws;
pub mod record_laws;
