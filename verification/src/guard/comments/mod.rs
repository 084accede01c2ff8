//! `[guard.comments]`: how a file's lines divide into code, blank and
//! comment lines, the comment blocks they make, and what a block may be.
pub mod lines;
pub mod checks;
pub mod says;
