//! The engine: every configured rule, the files each reads, and the
//! findings in one file in reading order. A preset that isn't configured
//! adds no rule.
use vstd::prelude::*;

use crate::config;
use crate::guard::finding::{reading_order, sort, Finding};
use crate::guard::size::{size_views, Size};
use crate::pattern::{any_matches, compile, first_problem, matches_any, texts, Pattern};
use crate::sorting::sort_by;

verus! {

/// A file as a rule reads it: its path from the project root, and its text.
#[derive(Debug, Clone, Copy)]
pub struct Source<'a> {
    pub path: &'a str,
    pub text: &'a str,
}

impl<'a> Source<'a> {
    pub fn new(path: &'a str, text: &'a str) -> (r: Source<'a>)
        ensures
            r.path@ == path@,
            r.text@ == text@,
    {
        Source { path, text }
    }
}

/// The first glob among `files`, then `exclude`, that doesn't compile,
/// with its problem.
pub open spec fn scope_problem(files: Seq<Seq<char>>, exclude: Seq<Seq<char>>) -> Option<Seq<char>> {
    match first_problem(files) {
        Some(f) => Some(f),
        None => first_problem(exclude),
    }
}

/// Files a rule reads: any of `files`, none of `exclude`.
#[derive(Debug)]
pub struct Scope {
    files: Vec<Pattern>,
    exclude: Vec<Pattern>,
}

impl Scope {
    pub closed spec fn reads(&self, path: Seq<char>) -> bool {
        any_matches(texts(self.files@), path) && !any_matches(texts(self.exclude@), path)
    }

    pub fn new(files: &[String], exclude: &[String]) -> (r: Result<Scope, String>)
        ensures
            match r {
                Ok(s) => first_problem(files@.map_values(|g: String| g@)) is None
                    && first_problem(exclude@.map_values(|g: String| g@)) is None
                    && forall|p: Seq<char>| #[trigger] s.reads(p) == (any_matches(files@.map_values(|g: String| g@), p)
                        && !any_matches(exclude@.map_values(|g: String| g@), p)),
                Err(e) => match first_problem(files@.map_values(|g: String| g@)) {
                    Some(f) => e@ == f,
                    None => first_problem(exclude@.map_values(|g: String| g@)) == Some(e@),
                },
            },
    {
        let files = match compile(files) {
            Ok(f) => f,
            Err(e) => return Err(e),
        };
        let exclude = match compile(exclude) {
            Ok(x) => x,
            Err(e) => return Err(e),
        };
        Ok(Scope { files, exclude })
    }

    pub fn contains(&self, path: &str) -> (r: bool)
        ensures
            r == self.reads(path@),
    {
        matches_any(&self.files, path) && !matches_any(&self.exclude, path)
    }
}

/// The first glob of the guard's configuration that doesn't compile, with
/// its problem: the size rule's, when it has a limit, then the excluded
/// paths', then the migrations'.
pub open spec fn guard_problem(c: config::Guard) -> Option<Seq<char>> {
    let size = match c.size {
        Some(s) => if s.file_lines is Some || s.function_lines is Some {
            scope_problem(s.files.view_items().map_values(|g: String| g@), s.exclude.view_items().map_values(|g: String| g@))
        } else {
            None
        },
        None => None,
    };
    if size is Some {
        size
    } else if first_problem(c.exclude.view_items().map_values(|g: String| g@)) is Some {
        first_problem(c.exclude.view_items().map_values(|g: String| g@))
    } else {
        match c.migrations {
            Some(m) => first_problem(m.files.view_items().map_values(|g: String| g@)),
            None => None,
        }
    }
}

/// Every configured rule, and the paths no rule reads.
pub struct Guard {
    size: Option<Size>,
    exclude: Vec<Pattern>,
    pub migrations: Option<crate::guard::migrations::Migrations>,
}

impl Guard {
    pub closed spec fn excluded(&self, path: Seq<char>) -> bool {
        any_matches(texts(self.exclude@), path)
    }

    pub closed spec fn size_rule(&self) -> Option<Size> {
        self.size
    }

    /// `found` is what the guard finds in a file: each rule's findings, in
    /// reading order.
    pub open spec fn lints_to(&self, path: Seq<char>, text: Seq<char>, found: Seq<Finding>) -> bool {
        if !self.reads_spec(path) {
            found.len() == 0
        } else {
            match self.size_rule() {
                Some(s) => exists|c: Seq<Finding>, ns: Option<Seq<crate::lang::syntax::SyntaxNode>>|
                    (if s.function_limit() is Some { crate::guard::size::parsed_as(path, crate::text::utf8_bytes(text), ns) } else { ns is None })
                    && crate::guard::migrations::finding_views(c) == size_views(s, path, text, ns)
                    && found == sort_by(c, reading_order()),
                None => found.len() == 0,
            }
        }
    }

    pub open spec fn reads_spec(&self, path: Seq<char>) -> bool {
        !self.excluded(path) && (self.size_rule() matches Some(s) && s.applies_spec(path))
    }

    pub fn new(c: &config::Guard) -> (r: Result<Guard, String>)
        ensures
            match r {
                Ok(g) => (g.size_rule() is Some <==> (c.size matches Some(s) && (s.file_lines is Some || s.function_lines is Some)))
                    && (g.size_rule() matches Some(s) ==> c.size matches Some(sc) && s.configured_as(sc))
                    && forall|p: Seq<char>| #[trigger] g.excluded(p) == any_matches(c.exclude.view_items().map_values(|x: String| x@), p),
                Err(e) => guard_problem(*c) == Some(e@),
            },
            r is Ok <==> guard_problem(*c) is None,
    {
        let size = match &c.size {
            Some(s) => {
                if s.file_lines.is_some() || s.function_lines.is_some() {
                    match Size::new(s) {
                        Ok(rule) => Some(rule),
                        Err(e) => return Err(e),
                    }
                } else {
                    None
                }
            },
            None => None,
        };
        let exclude = match compile(c.exclude.items()) {
            Ok(x) => x,
            Err(e) => return Err(e),
        };
        let migrations = match &c.migrations {
            Some(m) => match crate::guard::migrations::Migrations::new(m) {
                Ok(m) => Some(m),
                Err(e) => return Err(e),
            },
            None => None,
        };
        Ok(Guard { size, exclude, migrations })
    }

    pub fn is_empty(&self) -> (r: bool)
        ensures
            r == (self.size_rule() is None),
    {
        self.size.is_none()
    }

    /// Whether any rule reads this path.
    pub fn reads(&self, path: &str) -> (r: bool)
        ensures
            r == self.reads_spec(path@),
    {
        if matches_any(&self.exclude, path) {
            return false;
        }
        match &self.size {
            Some(s) => s.applies(path),
            None => false,
        }
    }

    /// The ids of the rules the baseline counts, in order.
    pub fn ratcheted(&self) -> (r: Vec<&'static str>)
        ensures
            match self.size_rule() {
                Some(s) => if s.is_ratcheted() { r@.len() == 2 && r@[0]@ == "file-length"@ && r@[1]@ == "function-length"@ } else { r@.len() == 0 },
                None => r@.len() == 0,
            },
    {
        match &self.size {
            Some(s) => s.ratcheted(),
            None => Vec::new(),
        }
    }

    /// Every finding in one file, in reading order.
    pub fn lint(&self, source: Source<'_>) -> (r: Vec<Finding>)
        ensures
            self.lints_to(source.path@, source.text@, r@),
    {
        if !self.reads(source.path) {
            return Vec::new();
        }
        let mut found = match &self.size {
            Some(s) => s.check(&source),
            None => Vec::new(),
        };
        sort(&mut found);
        found
    }
}


/// Law: a file the guard does not read gets no finding; the findings of a
/// file it reads are the size rule's, each as often, in reading order.
pub proof fn lemma_lint_findings(g: &Guard, path: Seq<char>, text: Seq<char>, found: Seq<Finding>)
    requires
        g.lints_to(path, text, found),
    ensures
        !g.reads_spec(path) ==> found.len() == 0,
        g.reads_spec(path) && g.size_rule() is Some ==> exists|c: Seq<Finding>| found == sort_by(c, reading_order())
            && #[trigger] found.to_multiset() == c.to_multiset(),
        crate::sorting::sorted_by(found, reading_order()),
{
    crate::guard::finding::lemma_reading_order_total();
    if found.len() > 0 {
        let s = g.size_rule().unwrap();
        let (c, ns) = choose|c: Seq<Finding>, ns: Option<Seq<crate::lang::syntax::SyntaxNode>>|
            (if s.function_limit() is Some { crate::guard::size::parsed_as(path, crate::text::utf8_bytes(text), ns) } else { ns is None })
            && crate::guard::migrations::finding_views(c) == size_views(s, path, text, ns)
            && found == sort_by(c, reading_order());
        crate::sorting::lemma_sort_by_sorted(c, reading_order());
    }
    if g.reads_spec(path) && g.size_rule() is Some {
        let s = g.size_rule().unwrap();
        let (c, ns) = choose|c: Seq<Finding>, ns: Option<Seq<crate::lang::syntax::SyntaxNode>>|
            (if s.function_limit() is Some { crate::guard::size::parsed_as(path, crate::text::utf8_bytes(text), ns) } else { ns is None })
            && crate::guard::migrations::finding_views(c) == size_views(s, path, text, ns)
            && found == sort_by(c, reading_order());
        crate::sorting::lemma_sort_by_permutes(c, reading_order());
    }
}

} // verus!
