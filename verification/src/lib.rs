//! Verified core of a schema-binding build pipeline.
//!
//! An external schema compiler drops flat artifact files into a shared
//! intermediate directory; this library holds the verified logic that
//! decides what happens to them: an exclusion filter keyed on dotted
//! package names, an ordered regex patch chain with a fixed scaffolding
//! substitution, a relocation step that collects per-file errors, and an
//! orchestrator that runs a fixed, ordered list of projects over one
//! shared intermediate directory.

pub mod cosmos_sdk;
pub mod dir;
pub mod exclude;
pub mod patch;
pub mod pipeline;
pub mod relocate;
pub mod wasmd;
