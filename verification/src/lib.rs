//! Bookkeeping of a ReScript build: which compiler assets become stale and
//! must be removed, which modules can skip recompilation, and what the
//! `.sourcedirs.json` / `.sourcefiles.json` summaries of a build tree hold.

pub mod clean;
pub mod collections;
pub mod names;
pub mod sourcedirs;
pub mod sourcefiles;
pub mod types;
