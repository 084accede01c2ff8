//! The plan, version 1: a public contract. New fields are additive, so
//! readers accept fields they don't know and optional fields are left out
//! when empty; anything else bumps `version`. Writing it as JSON, and its
//! schema, are the application's.
use vstd::prelude::*;
use crate::config::TestClass;

verus! {

#[derive(Debug, Clone, Copy, PartialEq, Eq, Structural, PartialOrd, Ord)]
pub enum Status {
    Added,
    Modified,
    Deleted,
    Renamed,
}

#[derive(Debug, Clone, PartialEq, Eq)]
pub struct Change {
    pub path: String,
    pub status: Status,
    /// For a rename, the old path; it counts as changed too.
    pub from: Option<String>,
}

pub const VERSION: u32 = 1;

#[derive(Debug, Clone, PartialEq)]
pub struct Plan {
    pub version: u32,
    /// Stable for the same config, tree, base and changes.
    pub plan_id: String,
    pub fairlead_version: String,
    /// `sha256:` of the merged config.
    pub config_digest: String,
    /// The git tree id of HEAD when the working tree is clean, else
    /// `worktree:` and a hash of every file's path and blob id.
    pub tree_hash: String,
    /// The commit changes were measured from, when there is one.
    pub base: Option<String>,
    /// HEAD's commit when the working tree matches it, else `worktree`.
    pub head: String,
    /// Everything is selected.
    pub all: bool,
    pub changed: Vec<Change>,
    /// Changed paths `plan.ignore` matched that nothing references.
    pub ignored: Vec<String>,
    pub tests: Vec<TestSelection>,
    pub checks: Vec<CheckSelection>,
    /// What to run, in order: each an argv in a working directory.
    pub invocations: Vec<Invocation>,
    /// Changed files nothing reaches, and what the plan did about each.
    pub unreached: Vec<UnreachedFile>,
    pub warnings: Vec<Warning>,
}

#[derive(Debug, Clone, PartialEq)]
pub struct TestSelection {
    pub path: String,
    pub module: Option<String>,
    pub runner: Option<String>,
    pub class: TestClass,
    pub reason: Reason,
}

#[derive(Debug, Clone, PartialEq)]
pub struct CheckSelection {
    pub id: String,
    pub reason: Reason,
}

#[derive(Debug, Clone, Copy, PartialEq, Eq, Structural)]
pub enum InvocationKind {
    Runner,
    Check,
}

#[derive(Debug, Clone, PartialEq)]
pub struct Invocation {
    /// The runner or check id.
    pub id: String,
    pub kind: InvocationKind,
    /// Repo-relative working directory.
    pub cwd: String,
    pub argv: Vec<String>,
}

#[derive(Debug, Clone, PartialEq)]
pub struct UnreachedFile {
    pub path: String,
    pub module: Option<String>,
    /// What was selected for it: `module`, `all`, or `none` under `warn`.
    pub selected: String,
}

/// The first reason a test or check was selected.
#[derive(Debug, Clone, PartialEq, Eq)]
pub enum Reason {
    /// A changed path matched `plan.run_all`.
    RunAll { path: String },
    /// The test file itself changed.
    Changed,
    /// The test depends on a changed file: the chain runs from that file
    /// to the test, one edge per step.
    Import { chain: Vec<String> },
    /// An owner rule's `covers` matched a changed path.
    Owner { rule: usize, covers: String, changed: String },
    /// Canary tests run in every plan.
    Canary,
    /// A changed file nothing reaches widened to this test.
    Unreached { path: String, policy: String },
    /// A check's `paths` matched this many changed files.
    Paths { matched: usize },
    /// A check watches a module the change affects.
    Modules { modules: Vec<String> },
    /// A check with no `paths` or `modules` runs in every plan.
    Always,
}

#[derive(Debug, Clone, PartialEq, Eq)]
pub struct Warning {
    pub code: String,
    pub path: Option<String>,
    pub message: String,
}

/// Every path a plan counts as changed: each change's path, and a rename's
/// old path after it.
pub open spec fn changed_spec(changes: Seq<Change>) -> Seq<Seq<char>>
    decreases changes.len(),
{
    if changes.len() == 0 {
        Seq::empty()
    } else {
        let before = changed_spec(changes.drop_last());
        let c = changes.last();
        match c.from {
            Some(f) => before.push(c.path@).push(f@),
            None => before.push(c.path@),
        }
    }
}

impl Plan {
    /// Every changed path, a rename's old path after its new one.
    pub fn changed_paths(&self) -> (r: Vec<String>)
        ensures
            r@.map_values(|s: String| s@) == changed_spec(self.changed@),
    {
        let mut out: Vec<String> = Vec::new();
        let mut i: usize = 0;
        while i < self.changed.len()
            invariant
                i <= self.changed.len(),
                out@.map_values(|s: String| s@) == changed_spec(self.changed@.take(i as int)),
            decreases self.changed.len() - i,
        {
            proof {
                assert(self.changed@.take(i as int + 1).drop_last() =~= self.changed@.take(i as int));
            }
            let ghost before = out@;
            let c = &self.changed[i];
            out.push(crate::text::copy_str(c.path.as_str()));
            match &c.from {
                Some(f) => {
                    out.push(crate::text::copy_str(f.as_str()));
                },
                None => {},
            }
            proof {
                assert(out@.map_values(|s: String| s@) =~= changed_spec(self.changed@.take(i as int + 1)));
            }
            i = i + 1;
        }
        proof {
            assert(self.changed@.take(i as int) =~= self.changed@);
        }
        out
    }
}

} // verus!
