//! Guardrails and a guided path for coding agents: the configuration, the
//! import graph, the guard's rules and the replay of recorded CI failures.
pub mod text;
pub mod config;
pub mod plan;
pub mod sorting;
pub mod pattern;
pub mod strset;
pub mod matcher;
pub mod guard;
pub mod lang;
pub mod replay;
