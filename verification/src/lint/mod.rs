//! Lint rule registry, configured severity levels, and finding normalization and fixes.

pub mod calls;
pub mod configuration;
pub mod findings;
pub mod pattern;
pub mod registry;
pub mod report;
pub mod syntax;
