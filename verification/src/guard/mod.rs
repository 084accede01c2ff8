//! Project rules, checked at three stages by one engine: as an agent writes a
//! file, at commit, and in CI. A rule reads one file and reports findings;
//! the stage decides what a finding costs.
pub mod finding;
pub mod added;
pub mod baseline;
pub mod git;
pub mod migrations;
pub mod rules;
pub mod size;
pub mod comments;
pub mod citations;
pub mod functions;
pub mod events;
pub mod external;
pub mod names;
pub mod stages;
pub mod commands;
