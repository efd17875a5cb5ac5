//! SortSmith core: rule validation, rule matching, destination planning,
//! collision handling, previews (with an incremental cache), execution and
//! undo, undo journals, duplicate grouping, bundled presets and the checks
//! on settings and paths, for a reversible file organizer.
pub mod text;
pub mod paths;
pub mod error;
pub mod safety;
pub mod models;
pub mod rules;
pub mod engine;
pub mod scan_cache;
pub mod duplicates;
pub mod journal;
pub mod containment;
pub mod execution;
pub mod state;
pub mod desktop;
pub mod presets;
pub mod preview_laws;

pub use duplicates::{group_duplicates, hash_file, size_candidates};
pub use engine::preview_organization;
pub use error::{Result, SortSmithError};
pub use presets::default_presets;
pub use scan_cache::{preview_organization_cached, ScanCache, ScanCacheStats};
