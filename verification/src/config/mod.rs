//! The configuration: every section with its defaults. Loading it from
//! files and the environment is the application's; what a loaded value must
//! satisfy beyond its types is `validate`.
use vstd::prelude::*;




pub mod validate;
pub mod load;

verus! {

/// A list a layer can extend, or replace with `{ replace = [...] }`.
#[derive(Debug, Clone, PartialEq)]
pub enum List<T> {
    Items(Vec<T>),
    Replace(Replace<T>),
}

#[derive(Debug, Clone, PartialEq)]
pub struct Replace<T> {
    pub replace: Vec<T>,
}

impl<T> List<T> {
    /// The items, whichever way the list was written.
    pub open spec fn view_items(&self) -> Seq<T> {
        match self {
            List::Items(items) => items@,
            List::Replace(r) => r.replace@,
        }
    }

    pub fn items(&self) -> (r: &[T])
        ensures
            r@ == self.view_items(),
    {
        match self {
            List::Items(items) => items.as_slice(),
            List::Replace(r) => r.replace.as_slice(),
        }
    }
}

impl<T> Default for List<T> {
    fn default() -> (r: Self)
        ensures
            r is Items,
            r.view_items().len() == 0,
    {
        List::Items(Vec::new())
    }
}

/// A list of the given strings.
pub fn strings(items: &[&str]) -> (r: List<String>)
    ensures
        r is Items,
        r.view_items().len() == items@.len(),
        forall|i: int| 0 <= i < items@.len() ==> (#[trigger] r.view_items()[i])@ == items@[i]@,
{
    let mut out: Vec<String> = Vec::new();
    let mut i: usize = 0;
    while i < items.len()
        invariant
            i <= items.len(),
            out.len() == i,
            forall|j: int| 0 <= j < i ==> (#[trigger] out@[j])@ == items@[j]@,
        decreases items.len() - i,
    {
        out.push(items[i].to_owned());
        i = i + 1;
    }
    List::Items(out)
}

#[derive(Debug, Clone, PartialEq)]
pub struct Config {
    /// The oldest Fairlead this configuration is written for.
    pub fairlead: Option<String>,
    pub modules: Modules,
    pub graph: Graph,
    pub tests: Tests,
    pub checks: List<Check>,
    pub plan: Plan,
    pub replay: Replay,
    pub guard: Guard,
}

#[derive(Debug, Clone, PartialEq)]
pub struct Modules {
    pub discover: List<Discover>,
    pub define: List<ModuleDef>,
}

#[derive(Debug, Clone, Copy, PartialEq, Eq)]
pub enum Discover {
    Workspaces,
}

#[derive(Debug, Clone, PartialEq)]
pub struct ModuleDef {
    pub pattern: String,
}

#[derive(Debug, Clone, PartialEq)]
pub struct Graph {
    pub tsconfig: String,
    pub type_imports: bool,
    pub unresolved: Unresolved,
    pub conditions: List<String>,
    pub cache: bool,
    /// Dependencies the imports don't show.
    pub edges: List<EdgeRule>,
    /// Files the walk reaches but doesn't go past.
    pub barrier: List<String>,
}

/// Every file matching `from` depends on every file matching a `to`;
/// `{name}` placeholders carry a path segment from one side to the other.
#[derive(Debug, Clone, PartialEq)]
pub struct EdgeRule {
    pub from: String,
    pub to: Vec<String>,
}

#[derive(Debug, Clone, Copy, PartialEq, Eq)]
pub enum Unresolved {
    Warn,
    Fail,
}

#[derive(Debug, Clone, PartialEq)]
pub struct Tests {
    pub matches: List<String>,
    pub exclude: List<String>,
    pub unreached: Unreached,
    pub runners: List<Runner>,
    pub owners: List<Owner>,
    pub classes: List<ClassRule>,
}

#[derive(Debug, Clone, Copy, PartialEq, Eq)]
pub enum Unreached {
    Module,
    All,
    Warn,
}

#[derive(Debug, Clone, PartialEq)]
pub struct Runner {
    pub id: String,
    pub matches: Vec<String>,
    pub invoke: Invoke,
    pub cwd: Option<String>,
    pub command: Vec<String>,
}

#[derive(Debug, Clone, Copy, PartialEq, Eq)]
pub enum Invoke {
    Once,
    PerModule,
}

#[derive(Debug, Clone, PartialEq)]
pub struct Owner {
    pub matches: String,
    pub covers: Vec<String>,
}

#[derive(Debug, Clone, PartialEq)]
pub struct ClassRule {
    pub class: TestClass,
    pub matches: Vec<String>,
}

#[derive(Debug, Clone, Copy, PartialEq, Eq)]
pub enum TestClass {
    Unit,
    Own,
    Demand,
    Canary,
}

#[derive(Debug, Clone, PartialEq)]
pub struct Check {
    pub id: String,
    pub command: Vec<String>,
    pub paths: Vec<String>,
    pub modules: Vec<String>,
    pub files: Option<CheckFiles>,
}

#[derive(Debug, Clone, Copy, PartialEq, Eq)]
pub enum CheckFiles {
    Changed,
    Matched,
}

#[derive(Debug, Clone, PartialEq)]
pub struct Plan {
    pub run_all: List<String>,
}

#[derive(Debug, Clone, PartialEq)]
pub struct Replay {
    pub provider: Provider,
    pub window_days: u32,
    pub min_failures: u32,
    pub failures: List<FailureSource>,
    pub checks: List<CheckStep>,
    /// Tests declared flaky in named jobs.
    pub quarantine: List<Quarantine>,
    /// Regexes naming jobs whose failures the replay leaves out.
    pub ignore: List<String>,
}

#[derive(Debug, Clone, Copy, PartialEq, Eq)]
pub enum Provider {
    Github,
}

#[derive(Debug, Clone, PartialEq)]
pub struct FailureSource {
    pub runner: String,
    pub extractor: String,
    pub job: Option<String>,
    pub pattern: Option<String>,
}

#[derive(Debug, Clone, PartialEq)]
pub struct CheckStep {
    pub job: Option<String>,
    pub step: String,
    pub check: String,
}

/// A test declared flaky in the jobs `job` matches, until a date.
#[derive(Debug, Clone, PartialEq)]
pub struct Quarantine {
    pub path: String,
    pub job: String,
    pub reason: String,
    pub until: String,
}

/// `[guard]`: the project rules.
#[derive(Debug, Clone, PartialEq)]
pub struct Guard {
    /// The ratchet's counts, a file in the repository.
    pub baseline: String,
    /// Paths no rule reads.
    pub exclude: List<String>,
    pub size: Option<SizeRules>,
    pub migrations: Option<Migrations>,
}

/// Where the guard runs: as an agent writes a file, at commit, in CI.
#[derive(Debug, Clone, Copy, PartialEq, Eq, Structural)]
pub enum Stage {
    Write,
    Commit,
    Check,
}

/// `[[guard.external]]`: another tool whose findings count as a rule's.
#[derive(Debug, Clone, PartialEq)]
pub struct ExternalRule {
    pub id: String,
    /// The program and its arguments; `{files}` stands for the files.
    pub command: Vec<String>,
    pub stages: Vec<Stage>,
    pub ratchet: bool,
}

/// `[guard.size]`: how long a file, and a function, may be.
#[derive(Debug, Clone, PartialEq)]
pub struct SizeRules {
    pub files: List<String>,
    pub exclude: List<String>,
    pub file_lines: Option<u32>,
    pub function_lines: Option<u32>,
    /// Callees whose callback is a test hook, not a function of its own.
    pub test_hooks: List<String>,
    pub ratchet: bool,
}

/// A `[[guard.commands]]` rule: a shell command pattern an agent may not
/// run, and the reason it is told.
#[derive(Debug, Clone, PartialEq)]
pub struct CommandRule {
    pub matches: String,
    pub reason: String,
}

/// `[guard.comments.history]`: what a comment may not carry from the
/// change that made it.
#[derive(Debug, Clone, PartialEq)]
pub struct History {
    /// Dates such as `2026-01-02`.
    pub dates: bool,
    /// People's names, as whole words.
    pub names: Vec<String>,
    /// Phrases, as whole words, in any case.
    pub phrases: Vec<String>,
    /// A measurement beside the word "measured".
    pub measured: bool,
}

/// `[guard.comments.item_codes]`: codes of work items, allowed only in a
/// pointer at the end of a sentence when `pointer` is set.
#[derive(Debug, Clone, PartialEq)]
pub struct ItemCodes {
    pub pattern: String,
    pub pointer: bool,
}

/// `[guard.test_names]`.
#[derive(Debug, Clone, PartialEq)]
pub struct TestNames {
    pub files: List<String>,
    pub exclude: List<String>,
    /// A pattern every test file's name matches.
    pub file: Option<String>,
    /// A pattern no test title may carry.
    pub titles_without: Option<String>,
    /// The calls whose first argument is a test's title.
    pub title_calls: List<String>,
}

/// `[guard.migrations]`.
#[derive(Debug, Clone, PartialEq)]
pub struct Migrations {
    pub files: List<String>,
    pub immutable: bool,
    pub base: Option<String>,
    pub unique_prefix: Option<UniquePrefix>,
}

/// Migrations that may share a number: each group by file name.
#[derive(Debug, Clone, PartialEq)]
pub struct UniquePrefix {
    pub allow: Vec<Vec<String>>,
}

impl Default for Modules {
    fn default() -> (r: Self)
        ensures
            r.discover.view_items() == seq![Discover::Workspaces],
            r.define.view_items().len() == 0,
    {
        let mut discover = Vec::new();
        discover.push(Discover::Workspaces);
        proof {
            assert(discover@ =~= seq![Discover::Workspaces]);
        }
        Modules { discover: List::Items(discover), define: List::Items(Vec::new()) }
    }
}

impl Default for Graph {
    fn default() -> (r: Self)
        ensures
            r.tsconfig@ == "auto"@,
            r.type_imports,
            r.unresolved == Unresolved::Warn,
            r.conditions.view_items().len() == 3,
            r.cache,
            r.edges.view_items().len() == 0,
            r.barrier.view_items().len() == 0,
    {
        Graph {
            tsconfig: "auto".to_owned(),
            type_imports: true,
            unresolved: Unresolved::Warn,
            conditions: strings(&["import", "node", "default"]),
            cache: true,
            edges: List::Items(Vec::new()),
            barrier: List::Items(Vec::new()),
        }
    }
}

impl Default for Tests {
    fn default() -> (r: Self)
        ensures
            r.matches.view_items().len() == 1,
            r.exclude.view_items().len() == 1,
            r.unreached == Unreached::Module,
            r.runners.view_items().len() == 0,
            r.owners.view_items().len() == 0,
            r.classes.view_items().len() == 0,
    {
        Tests {
            matches: strings(&["**/*.{test,spec}.{ts,tsx,js,jsx,mjs,cjs,mts,cts}"]),
            exclude: strings(&["**/node_modules/**"]),
            unreached: Unreached::Module,
            runners: List::Items(Vec::new()),
            owners: List::Items(Vec::new()),
            classes: List::Items(Vec::new()),
        }
    }
}

impl Default for Invoke {
    fn default() -> (r: Self)
        ensures
            r == Invoke::Once,
    {
        Invoke::Once
    }
}

impl Default for Plan {
    fn default() -> (r: Self)
        ensures
            r.run_all.view_items().len() == 16,
    {
        Plan {
            run_all: strings(&[
                "package.json",
                "package-lock.json",
                "pnpm-lock.yaml",
                "pnpm-workspace.yaml",
                "yarn.lock",
                "bun.lock",
                "bun.lockb",
                "tsconfig*.json",
                "turbo.json",
                "nx.json",
                "**/project.json",
                "**/vitest.config.*",
                "**/vitest.workspace.*",
                "**/jest.config.*",
                "**/playwright.config.*",
                ".github/workflows/**",
            ]),
        }
    }
}

impl Default for Replay {
    fn default() -> (r: Self)
        ensures
            r.provider == Provider::Github,
            r.window_days == 90,
            r.min_failures == 30,
            r.failures.view_items().len() == 0,
            r.checks.view_items().len() == 0,
            r.quarantine.view_items().len() == 0,
            r.ignore.view_items().len() == 0,
    {
        Replay {
            provider: Provider::Github,
            window_days: 90,
            min_failures: 30,
            failures: List::Items(Vec::new()),
            checks: List::Items(Vec::new()),
            quarantine: List::Items(Vec::new()),
            ignore: List::Items(Vec::new()),
        }
    }
}

impl Default for Guard {
    fn default() -> (r: Self)
        ensures
            r.baseline@ == ".fairlead/baseline.json"@,
            r.exclude.view_items().len() == 0,
            r.size is None,
            r.migrations is None,
    {
        Guard {
            baseline: ".fairlead/baseline.json".to_owned(),
            exclude: List::Items(Vec::new()),
            size: None,
            migrations: None,
        }
    }
}

impl Default for SizeRules {
    fn default() -> (r: Self)
        ensures
            r.files.view_items().len() == 0,
            r.exclude.view_items().len() == 0,
            r.file_lines is None,
            r.function_lines is None,
            r.test_hooks.view_items().len() == 4,
            !r.ratchet,
    {
        SizeRules {
            files: List::Items(Vec::new()),
            exclude: List::Items(Vec::new()),
            file_lines: None,
            function_lines: None,
            test_hooks: strings(&["beforeEach", "afterEach", "beforeAll", "afterAll"]),
            ratchet: false,
        }
    }
}

impl Default for TestNames {
    fn default() -> (r: Self)
        ensures
            r.files.view_items().len() == 0,
            r.exclude.view_items().len() == 0,
            r.file is None,
            r.titles_without is None,
            r.title_calls.view_items().len() == 3,
    {
        TestNames {
            files: List::Items(Vec::new()),
            exclude: List::Items(Vec::new()),
            file: None,
            titles_without: None,
            title_calls: strings(&["describe", "it", "test"]),
        }
    }
}

impl Default for Migrations {
    fn default() -> (r: Self)
        ensures
            r.files.view_items().len() == 0,
            !r.immutable,
            r.base is None,
            r.unique_prefix is None,
    {
        Migrations { files: List::Items(Vec::new()), immutable: false, base: None, unique_prefix: None }
    }
}

impl Default for Config {
    fn default() -> (r: Self)
        ensures
            r.fairlead is None,
            r.checks.view_items().len() == 0,
    {
        Config {
            fairlead: None,
            modules: Modules::default(),
            graph: Graph::default(),
            tests: Tests::default(),
            checks: List::Items(Vec::new()),
            plan: Plan::default(),
            replay: Replay::default(),
            guard: Guard::default(),
        }
    }
}

} // verus!
pub mod layers;
