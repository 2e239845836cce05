//! Verified core of a single-shot migration backup tool: the archive manifest
//! format, path rules, git sidecar handling, restore verification and the
//! decisions behind the progress display and the large-file review.

pub mod config;
pub mod error;
pub mod excludes;
pub mod gitmeta;
pub mod ledger;
pub mod manifest;
pub mod paths;
pub mod phase;
pub mod progress;
pub mod project;
pub mod rehydrate;
pub mod restore;
pub mod review;
pub mod stamp;
pub mod text;
pub mod textlines;
pub mod timefmt;

pub use error::Error;
