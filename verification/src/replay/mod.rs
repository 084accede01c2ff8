//! Replaying recorded CI failures against the plan each change would have
//! had, and the report of what the plan would have caught.
pub mod window;
pub mod run;
pub mod quarantine;
pub mod extract;
pub mod attribute;
pub mod github;
pub mod fetch;
pub mod dataset;
pub mod report;
