//! File length, and function length for files with a syntax tree.
use vstd::prelude::*;

use crate::config::SizeRules;
use crate::guard::finding::{Finding, Measure};
use crate::guard::rules::{Scope, Source};
use crate::guard::functions::{is_measurable, lengths, measurable, measured_lengths, Length, length_view};
use crate::lang::extract::grammar_of;
use crate::lang::syntax::{node_views, parse, parsed_bytes, syntax_nodes, SyntaxNode};
use crate::text::{decimal, lines, lines_of, push_decimal, push_str};

verus! {

/// File length, and function length for files with a syntax tree.
pub struct Size {
    scope: Scope,
    file_lines: Option<u32>,
    function_lines: Option<u32>,
    test_hooks: Vec<String>,
    ratchet: bool,
}

/// A finding as text: file, line, rule, message, anchor and measure.
pub type FindingView = (Seq<char>, u32, Seq<char>, Seq<char>, Seq<char>, Option<Measure>);

/// A file over `limit` lines: one finding on its first line.
pub open spec fn file_length_views(path: Seq<char>, text: Seq<char>, limit: nat) -> Seq<FindingView> {
    let n = lines_of(text).len();
    if n > limit {
        seq![(path, 1u32, "file-length"@, "file is "@ + decimal(n) + " lines, over "@ + decimal(limit), Seq::empty(),
            Some(Measure { size: n as u64, limit: limit as u64 }))]
    } else {
        Seq::empty()
    }
}

/// A function over `limit` of its own lines, as a finding.
pub open spec fn function_finding(path: Seq<char>, l: (int, int, int, Seq<char>), limit: nat) -> FindingView {
    (path, l.0 as u32, "function-length"@, "function's own lines are "@ + decimal(l.1 as nat) + ", over "@ + decimal(limit)
        + " ("@ + decimal(l.2 as nat) + " total)"@, l.3, Some(Measure { size: l.1 as u64, limit: limit as u64 }))
}

/// The functions over `limit` of their own lines, in order.
pub open spec fn function_length_views(path: Seq<char>, ls: Seq<(int, int, int, Seq<char>)>, limit: nat) -> Seq<FindingView>
    decreases ls.len(),
{
    if ls.len() == 0 {
        Seq::empty()
    } else {
        let before = function_length_views(path, ls.drop_last(), limit);
        if ls.last().1 > limit { before.push(function_finding(path, ls.last(), limit)) } else { before }
    }
}

/// `ns` is the file's syntax tree, as a node list, or none when it has
/// none.
pub open spec fn parsed_as(path: Seq<char>, bytes: Seq<u8>, ns: Option<Seq<SyntaxNode>>) -> bool {
    match grammar_of(path) {
        None => ns is None,
        Some(g) => match syntax_nodes(g, parsed_bytes(g, bytes)) {
            None => ns is None,
            Some(nv) => ns matches Some(x) && node_views(x) == nv,
        },
    }
}

/// What the size rule finds in a file whose syntax tree is `ns`: the file's
/// length over its limit, then each function over its limit.
pub open spec fn size_views(s: Size, path: Seq<char>, text: Seq<char>, ns: Option<Seq<SyntaxNode>>) -> Seq<FindingView> {
    let files = match s.file_limit() {
        Some(limit) => file_length_views(path, text, limit as nat),
        None => Seq::empty(),
    };
    let functions = match (s.function_limit(), ns) {
        (Some(limit), Some(ns)) => if measurable(ns) {
            function_length_views(path, measured_lengths(ns, crate::text::utf8_bytes(text), s.hooks()), limit as nat)
        } else {
            Seq::empty()
        },
        _ => Seq::empty(),
    };
    files + functions
}

impl Size {
    pub closed spec fn applies_spec(&self, path: Seq<char>) -> bool {
        self.scope.reads(path)
    }

    pub closed spec fn file_limit(&self) -> Option<u32> {
        self.file_lines
    }

    pub closed spec fn function_limit(&self) -> Option<u32> {
        self.function_lines
    }

    pub closed spec fn is_ratcheted(&self) -> bool {
        self.ratchet
    }

    pub closed spec fn hooks(&self) -> Seq<Seq<char>> {
        self.test_hooks@.map_values(|h: String| h@)
    }

    /// The rule reads the files `c` names, with its limits and its choice.
    pub open spec fn configured_as(&self, c: SizeRules) -> bool {
        &&& forall|p: Seq<char>| #[trigger] self.applies_spec(p) == (crate::pattern::any_matches(c.files.view_items().map_values(|g: String| g@), p)
            && !crate::pattern::any_matches(c.exclude.view_items().map_values(|g: String| g@), p))
        &&& self.file_limit() == c.file_lines
        &&& self.function_limit() == c.function_lines
        &&& self.is_ratcheted() == c.ratchet
        &&& self.hooks() == c.test_hooks.view_items().map_values(|h: String| h@)
    }

    pub fn new(config: &SizeRules) -> (r: Result<Size, String>)
        ensures
            match crate::guard::rules::scope_problem(
                config.files.view_items().map_values(|g: String| g@),
                config.exclude.view_items().map_values(|g: String| g@),
            ) {
                Some(e) => r matches Err(m) && m@ == e,
                None => r matches Ok(s) && s.configured_as(*config),
            },
    {
        let scope = match Scope::new(config.files.items(), config.exclude.items()) {
            Ok(s) => s,
            Err(e) => return Err(e),
        };
        let hooks = config.test_hooks.items();
        let mut test_hooks: Vec<String> = Vec::new();
        let mut i: usize = 0;
        while i < hooks.len()
            invariant
                i <= hooks.len(),
                test_hooks.len() == i,
                forall|k: int| 0 <= k < i ==> test_hooks@[k]@ == hooks@[k]@,
            decreases hooks.len() - i,
        {
            test_hooks.push(crate::text::copy_str(hooks[i].as_str()));
            i = i + 1;
        }
        proof {
            assert(test_hooks@.map_values(|h: String| h@) =~= config.test_hooks.view_items().map_values(|h: String| h@));
        }
        Ok(Size {
            scope,
            file_lines: config.file_lines,
            function_lines: config.function_lines,
            test_hooks,
            ratchet: config.ratchet,
        })
    }

    pub fn applies(&self, path: &str) -> (r: bool)
        ensures
            r == self.applies_spec(path@),
    {
        self.scope.contains(path)
    }

    /// The ids of the findings the baseline counts.
    pub fn ratcheted(&self) -> (r: Vec<&'static str>)
        ensures
            if self.is_ratcheted() { r@.len() == 2 && r@[0]@ == "file-length"@ && r@[1]@ == "function-length"@ } else { r@.len() == 0 },
    {
        let mut out: Vec<&'static str> = Vec::new();
        if self.ratchet {
            out.push("file-length");
            out.push("function-length");
        }
        out
    }

    /// What the rule finds in `source`: the file's length over its limit,
    /// then, when the file has a syntax tree, each function over its limit.
    pub fn check(&self, source: &Source<'_>) -> (r: Vec<Finding>)
        ensures
            match self.function_limit() {
                None => crate::guard::migrations::finding_views(r@) == size_views(*self, source.path@, source.text@, None),
                Some(_) => exists|ns: Option<Seq<SyntaxNode>>| parsed_as(source.path@, crate::text::utf8_bytes(source.text@), ns)
                    && crate::guard::migrations::finding_views(r@) == size_views(*self, source.path@, source.text@, ns),
            },
    {
        let mut found: Vec<Finding> = Vec::new();
        if let Some(limit) = self.file_lines {
            let n = lines(source.text).len();
            if n as u64 > limit as u64 {
                let mut message = "file is ".to_owned();
                push_decimal(&mut message, n as u64);
                push_str(&mut message, " lines, over ");
                push_decimal(&mut message, limit as u64);
                found.push(Finding {
                    file: source.path.to_owned(),
                    line: 1,
                    rule: "file-length".to_owned(),
                    message,
                    anchor: String::new(),
                    measure: Some(Measure { size: n as u64, limit: limit as u64 }),
                });
            }
        }
        let ghost files = crate::guard::migrations::finding_views(found@);
        proof {
            assert(files =~= match self.file_limit() {
                Some(limit) => file_length_views(source.path@, source.text@, limit as nat),
                None => Seq::empty(),
            });
        }
        let limit = match self.function_lines {
            None => {
                proof {
                    assert(files + Seq::<FindingView>::empty() =~= files);
                }
                return found;
            },
            Some(limit) => limit,
        };
        let bytes = source.text.as_bytes();
        let parsed = parse(source.path, bytes);
        let ghost ns: Option<Seq<SyntaxNode>> = match &parsed {
            Some(v) => Some(v@),
            None => None,
        };
        proof {
            assert(parsed_as(source.path@, crate::text::utf8_bytes(source.text@), ns));
        }
        match parsed {
            None => {
                proof {
                    assert(files + Seq::<FindingView>::empty() =~= files);
                }
            },
            Some(nodes) => {
                if !is_measurable(&nodes) {
                    proof {
                        assert(files + Seq::<FindingView>::empty() =~= files);
                    }
                } else {
                    let ls = lengths(&nodes, bytes, &self.test_hooks);
                    let ghost lv = ls@.map_values(|l: Length| length_view(l));
                    let mut k: usize = 0;
                    proof {
                        assert(lv.take(0) =~= Seq::<(int, int, int, Seq<char>)>::empty());
                        assert(files + function_length_views(source.path@, lv.take(0), limit as nat) =~= files);
                    }
                    while k < ls.len()
                        invariant
                            k <= ls.len(),
                            lv == ls@.map_values(|l: Length| length_view(l)),
                            crate::guard::migrations::finding_views(found@) == files + function_length_views(
                                source.path@,
                                lv.take(k as int),
                                limit as nat,
                            ),
                        decreases ls.len() - k,
                    {
                        let l = &ls[k];
                        proof {
                            assert(lv.take(k as int + 1).drop_last() =~= lv.take(k as int));
                            assert(lv.take(k as int + 1).last() == length_view(*l));
                        }
                        if l.own > limit as u64 {
                            let mut message = "function's own lines are ".to_owned();
                            push_decimal(&mut message, l.own);
                            push_str(&mut message, ", over ");
                            push_decimal(&mut message, limit as u64);
                            push_str(&mut message, " (");
                            push_decimal(&mut message, l.total);
                            push_str(&mut message, " total)");
                            let ghost before = crate::guard::migrations::finding_views(found@);
                            found.push(Finding {
                                file: source.path.to_owned(),
                                line: l.line,
                                rule: "function-length".to_owned(),
                                message,
                                anchor: crate::text::copy_str(l.name.as_str()),
                                measure: Some(Measure { size: l.own, limit: limit as u64 }),
                            });
                            proof {
                                assert(crate::guard::migrations::finding_views(found@) =~= before.push(
                                    function_finding(source.path@, length_view(*l), limit as nat),
                                ));
                            }
                        }
                        k = k + 1;
                    }
                    proof {
                        assert(lv.take(k as int) =~= lv);
                    }
                }
            },
        }
        found
    }
}

} // verus!
