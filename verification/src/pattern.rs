//! Path globs as the configuration writes them: `*` and `?` stay within one
//! path segment, `**` crosses them, `{a,b}` picks one. Compiling and
//! matching are globset's.
use vstd::prelude::*;

verus! {

#[verifier::external_type_specification]
#[verifier::external_body]
pub struct ExGlobMatcher(globset::GlobMatcher);

/// globset's message when it cannot parse `glob`.
pub uninterp spec fn globset_problem(glob: Seq<char>) -> Option<Seq<char>>;

/// The regex crate's message when the regex globset makes of `glob` does
/// not compile.
pub uninterp spec fn glob_regex_problem(glob: Seq<char>) -> Option<Seq<char>>;

/// What is wrong with `glob`, if anything: globset's message when it
/// cannot parse the glob, else the regex crate's when the regex globset
/// makes of it does not compile.
pub open spec fn glob_problem(glob: Seq<char>) -> Option<Seq<char>> {
    match globset_problem(glob) {
        Some(e) => Some(e),
        None => glob_regex_problem(glob),
    }
}

/// Whether `path` matches `glob`.
pub uninterp spec fn glob_matches(glob: Seq<char>, path: Seq<char>) -> bool;

/// Compiles `glob` with `globset::GlobBuilder`, `*` kept within a segment.
/// `Glob::compile_matcher` panics when the glob's regex does not compile
/// (too deeply nested alternates, or too large), so the regex is first
/// built with `regex::bytes::RegexBuilder` under the settings globset's
/// matcher uses (its private `new_regex`: bytes, `.` matching a newline,
/// 10 MiB for the NFA and for the lazy DFA's cache), and that error is
/// returned instead. The contract claims only that the error, when there
/// is one, is the message for this glob.
#[verifier::external_body]
fn compile_glob(glob: &str) -> (r: Result<globset::GlobMatcher, (bool, String)>)
    ensures
        match r {
            Ok(_) => globset_problem(glob@) is None && glob_regex_problem(glob@) is None,
            Err((parse, e)) => if parse {
                globset_problem(glob@) == Some(e@)
            } else {
                globset_problem(glob@) is None && glob_regex_problem(glob@) == Some(e@)
            },
        },
{
    match globset::GlobBuilder::new(glob).literal_separator(true).build() {
        Ok(g) => match regex::bytes::RegexBuilder::new(g.regex())
            .dot_matches_new_line(true)
            .dfa_size_limit(10_485_760)
            .build() {
            Ok(_) => Ok(g.compile_matcher()),
            Err(e) => Err((false, e.to_string())),
        },
        Err(e) => Err((true, e.to_string())),
    }
}

/// A compiled glob, with its text.
#[derive(Debug)]
pub struct Pattern {
    glob: String,
    matcher: globset::GlobMatcher,
}

/// `globset::GlobMatcher::is_match` on the pattern's matcher. The matcher
/// was compiled from `p.glob` by `Pattern::new`, the only way to make one,
/// so the contract states the answer for that glob.
#[verifier::external_body]
fn matcher_is_match(p: &Pattern, path: &str) -> (r: bool)
    ensures
        r == glob_matches(p.glob@, path@),
{
    p.matcher.is_match(path)
}

impl Pattern {
    pub closed spec fn text(&self) -> Seq<char> {
        self.glob@
    }

    /// Compiles `glob`; the error is globset's message.
    pub fn new(glob: &str) -> (r: Result<Pattern, String>)
        ensures
            match r {
                Ok(p) => p.text() == glob@ && glob_problem(glob@) is None,
                Err(e) => glob_problem(glob@) == Some(e@),
            },
    {
        match Pattern::new_parsed(glob) {
            Ok(p) => Ok(p),
            Err((_, e)) => Err(e),
        }
    }

    /// Compiles `glob`; the error says whether globset could not parse it
    /// (`true`) or its regex did not build (`false`), with the message.
    pub fn new_parsed(glob: &str) -> (r: Result<Pattern, (bool, String)>)
        ensures
            match r {
                Ok(p) => p.text() == glob@ && glob_problem(glob@) is None,
                Err((parse, e)) => glob_problem(glob@) == Some(e@) && parse == (globset_problem(glob@) is Some),
            },
    {
        match compile_glob(glob) {
            Ok(matcher) => Ok(Pattern { glob: glob.to_owned(), matcher }),
            Err(e) => Err(e),
        }
    }

    pub fn is_match(&self, path: &str) -> (r: bool)
        ensures
            r == glob_matches(self.text(), path@),
    {
        matcher_is_match(self, path)
    }
}

/// The texts of some patterns.
pub open spec fn texts(ps: Seq<Pattern>) -> Seq<Seq<char>> {
    ps.map_values(|p: Pattern| p.text())
}

/// Whether any of `globs` matches `path`.
pub open spec fn any_matches(globs: Seq<Seq<char>>, path: Seq<char>) -> bool {
    exists|i: int| 0 <= i < globs.len() && glob_matches(#[trigger] globs[i], path)
}

/// The first glob among `globs` that doesn't compile, with its problem.
pub open spec fn first_problem(globs: Seq<Seq<char>>) -> Option<Seq<char>>
    decreases globs.len(),
{
    if globs.len() == 0 {
        None
    } else {
        match glob_problem(globs[0]) {
            Some(e) => Some(e),
            None => first_problem(globs.drop_first()),
        }
    }
}

/// Compiles each of `globs`, stopping at the first that doesn't compile.
pub fn compile(globs: &[String]) -> (r: Result<Vec<Pattern>, String>)
    ensures
        match r {
            Ok(ps) => first_problem(globs@.map_values(|g: String| g@)) is None
                && texts(ps@) == globs@.map_values(|g: String| g@),
            Err(e) => first_problem(globs@.map_values(|g: String| g@)) == Some(e@),
        },
{
    let ghost all = globs@.map_values(|g: String| g@);
    let mut out: Vec<Pattern> = Vec::new();
    let mut i: usize = 0;
    proof {
        assert(all.skip(0) =~= all);
    }
    while i < globs.len()
        invariant
            i <= globs.len(),
            all == globs@.map_values(|g: String| g@),
            texts(out@) == all.take(i as int),
            first_problem(all) == first_problem(all.skip(i as int)),
        decreases globs.len() - i,
    {
        proof {
            assert(all.skip(i as int)[0] == globs@[i as int]@);
            assert(all.skip(i as int).drop_first() =~= all.skip(i as int + 1));
        }
        match Pattern::new(globs[i].as_str()) {
            Ok(p) => {
                let ghost before = out@;
                out.push(p);
                proof {
                    assert(texts(out@) =~= texts(before).push(p.text()));
                    assert(all.take(i as int + 1) =~= all.take(i as int).push(all[i as int]));
                }
            },
            Err(e) => {
                return Err(e);
            },
        }
        i = i + 1;
    }
    proof {
        assert(all.take(i as int) =~= all);
        assert(all.skip(i as int).len() == 0);
    }
    Ok(out)
}

/// Whether any of `ps` matches `path`.
pub fn matches_any(ps: &Vec<Pattern>, path: &str) -> (r: bool)
    ensures
        r == any_matches(texts(ps@), path@),
{
    let mut i: usize = 0;
    while i < ps.len()
        invariant
            i <= ps.len(),
            forall|j: int| 0 <= j < i ==> !glob_matches(#[trigger] texts(ps@)[j], path@),
        decreases ps.len() - i,
    {
        if ps[i].is_match(path) {
            proof {
                assert(texts(ps@)[i as int] == ps@[i as int].text());
            }
            return true;
        }
        i = i + 1;
    }
    false
}

} // verus!
