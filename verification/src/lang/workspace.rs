//! Workspace packages, read from the manifests rather than an install:
//! `workspaces` in the root `package.json` and `packages` in
//! `pnpm-workspace.yaml`. Reading the files is the application's; which
//! folders are packages, and tsconfig's dialect of JSON, are here.
use vstd::prelude::*;

use crate::config::layers::{jes, jv, jvs, lemma_jes, lemma_jvs, Entry, JValue, Value};
use crate::lang::tree::{parent, parent_of};
use crate::pattern::{glob_matches, glob_problem, glob_regex_problem, globset_problem, Pattern};
use crate::sorting::{lemma_insert_by_at, sort_by};
use crate::text::{
    chars_of, compare_str, copy_str, ends_with_lit, is_white, is_white_char, push_char, same_str, seq_order,
    string_range, strip_all,
};

verus! {

/// Where the line comment at `j` ends: the next newline, or the end.
pub open spec fn line_end(s: Seq<char>, j: int) -> int
    decreases s.len() - j,
{
    if j < 0 || j >= s.len() || s[j] == '\n' {
        j
    } else {
        line_end(s, j + 1)
    }
}

/// Where the block comment whose body starts at `j` ends: past the next
/// `*/`, or past the end.
pub open spec fn block_end(s: Seq<char>, j: int) -> int
    decreases s.len() - j,
{
    if j < 0 || j + 1 >= s.len() || (s[j] == '*' && s[j + 1] == '/') {
        j + 2
    } else {
        block_end(s, j + 1)
    }
}

proof fn lemma_line_end(s: Seq<char>, j: int)
    requires
        0 <= j,
    ensures
        j <= line_end(s, j),
        line_end(s, j) <= s.len() || line_end(s, j) == j,
    decreases s.len() - j,
{
    if j < s.len() && s[j] != '\n' {
        lemma_line_end(s, j + 1);
    }
}

proof fn lemma_block_end(s: Seq<char>, j: int)
    requires
        0 <= j,
    ensures
        j + 2 <= block_end(s, j),
    decreases s.len() - j,
{
    if !(j + 1 >= s.len() || (s[j] == '*' && s[j + 1] == '/')) {
        lemma_block_end(s, j + 1);
    }
}

/// `s[i]` and `s[i + 1]` are `a` and `b`.
pub open spec fn pair_at(s: Seq<char>, i: int, a: char, b: char) -> bool {
    0 <= i && i + 1 < s.len() && s[i] == a && s[i + 1] == b
}

/// The first character from `i` on that is neither white space nor in a
/// comment.
pub open spec fn next_sig(s: Seq<char>, i: int) -> Option<char>
    decreases s.len() - i,
{
    if i < 0 || i >= s.len() {
        None
    } else if is_white(s[i]) {
        next_sig(s, i + 1)
    } else if pair_at(s, i, '/', '/') {
        if i < line_end(s, i) <= s.len() { next_sig(s, line_end(s, i)) } else { None }
    } else if pair_at(s, i, '/', '*') {
        if i < block_end(s, i + 2) <= s.len() { next_sig(s, block_end(s, i + 2)) } else { None }
    } else {
        Some(s[i])
    }
}

/// What JSON with comments and trailing commas becomes from `i` on, inside
/// a string or not: comments are dropped, a comma before a closing `}` or
/// `]` is dropped, and a string keeps everything, escapes included.
pub open spec fn plain(s: Seq<char>, i: int, in_string: bool) -> Seq<char>
    decreases s.len() - i,
{
    if i < 0 || i >= s.len() {
        Seq::empty()
    } else if in_string {
        if s[i] == '\\' && i + 1 < s.len() {
            seq![s[i], s[i + 1]] + plain(s, i + 2, true)
        } else {
            seq![s[i]] + plain(s, i + 1, s[i] != '"')
        }
    } else if s[i] == '"' {
        seq!['"'] + plain(s, i + 1, true)
    } else if pair_at(s, i, '/', '/') {
        if i < line_end(s, i) <= s.len() { plain(s, line_end(s, i), false) } else { Seq::empty() }
    } else if pair_at(s, i, '/', '*') {
        if i < block_end(s, i + 2) <= s.len() { plain(s, block_end(s, i + 2), false) } else { Seq::empty() }
    } else if s[i] == ',' && (next_sig(s, i + 1) matches Some(n) && (n == '}' || n == ']')) {
        plain(s, i + 1, false)
    } else {
        seq![s[i]] + plain(s, i + 1, false)
    }
}

fn pair_at_exec(v: &Vec<char>, i: usize, a: char, b: char) -> (r: bool)
    ensures
        r == pair_at(v@, i as int, a, b),
{
    i < v.len() && v.len() - i > 1 && v[i] == a && v[i + 1] == b
}

fn line_end_exec(v: &Vec<char>, j: usize) -> (r: usize)
    requires
        j <= v.len(),
    ensures
        r == line_end(v@, j as int),
        j <= r <= v.len(),
{
    let mut k = j;
    proof {
        lemma_line_end(v@, j as int);
    }
    while k < v.len() && v[k] != '\n'
        invariant
            j <= k <= v.len(),
            line_end(v@, k as int) == line_end(v@, j as int),
        decreases v.len() - k,
    {
        k = k + 1;
    }
    k
}

fn block_end_exec(v: &Vec<char>, j: usize) -> (r: usize)
    requires
        j <= v.len(),
    ensures
        r == if block_end(v@, j as int) <= v.len() { block_end(v@, j as int) } else { v.len() as int },
        j + 2 <= block_end(v@, j as int),
        r <= v.len(),
{
    let mut k = j;
    proof {
        lemma_block_end(v@, j as int);
    }
    while k < v.len() && v.len() - k > 1 && !(v[k] == '*' && v[k + 1] == '/')
        invariant
            j <= k <= v.len(),
            block_end(v@, k as int) == block_end(v@, j as int),
        decreases v.len() - k,
    {
        k = k + 1;
    }
    if v.len() - k <= 1 {
        v.len()
    } else {
        k + 2
    }
}

/// The first character from `from` on that is neither white space nor in
/// a comment.
fn next_significant(v: &Vec<char>, from: usize) -> (r: Option<char>)
    requires
        from <= v.len(),
    ensures
        r == next_sig(v@, from as int),
{
    let mut i = from;
    while i < v.len()
        invariant
            from <= i <= v.len(),
            next_sig(v@, i as int) == next_sig(v@, from as int),
        decreases v.len() - i,
    {
        let c = v[i];
        if is_white_char(c) {
            i = i + 1;
        } else if pair_at_exec(v, i, '/', '/') {
            proof {
                lemma_line_end(v@, i + 1);
            }
            i = line_end_exec(v, i);
        } else if pair_at_exec(v, i, '/', '*') {
            i = block_end_exec(v, i + 2);
        } else {
            return Some(c);
        }
    }
    proof {
        assert(next_sig(v@, i as int) is None);
    }
    None
}

/// JSON with comments and trailing commas (tsconfig's dialect) to plain
/// JSON.
pub fn strip_jsonc(text: &str) -> (r: String)
    ensures
        r@ == plain(text@, 0, false),
{
    let v = crate::text::chars_of(text);
    let mut out = String::new();
    let mut i: usize = 0;
    let mut in_string = false;
    while i < v.len()
        invariant
            i <= v.len(),
            v@ == text@,
            out@ + plain(v@, i as int, in_string) == plain(v@, 0, false),
        decreases v.len() - i,
    {
        let ghost before = out@;
        let c = v[i];
        if in_string {
            if c == '\\' && i + 1 < v.len() {
                push_char(&mut out, c);
                push_char(&mut out, v[i + 1]);
                proof {
                    assert(before + plain(v@, i as int, true) =~= out@ + plain(v@, i + 2, true));
                }
                i = i + 2;
            } else {
                push_char(&mut out, c);
                if c == '"' {
                    in_string = false;
                }
                proof {
                    assert(before + plain(v@, i as int, true) =~= out@ + plain(v@, i + 1, in_string));
                }
                i = i + 1;
            }
        } else if c == '"' {
            push_char(&mut out, c);
            in_string = true;
            proof {
                assert(before + plain(v@, i as int, false) =~= out@ + plain(v@, i + 1, true));
            }
            i = i + 1;
        } else if pair_at_exec(&v, i, '/', '/') {
            proof {
                lemma_line_end(v@, i + 1);
            }
            i = line_end_exec(&v, i);
        } else if pair_at_exec(&v, i, '/', '*') {
            i = block_end_exec(&v, i + 2);
        } else {
            let skip = if c == ',' {
                match next_significant(&v, i + 1) {
                    Some(n) => n == '}' || n == ']',
                    None => false,
                }
            } else {
                false
            };
            if !skip {
                push_char(&mut out, c);
                proof {
                    assert(before + plain(v@, i as int, false) =~= out@ + plain(v@, i + 1, false));
                }
            }
            i = i + 1;
        }
    }
    proof {
        assert(plain(v@, i as int, in_string) =~= Seq::<char>::empty());
        assert(out@ =~= out@ + plain(v@, i as int, in_string));
    }
    out
}

} // verus!

verus! {

#[derive(Debug, Clone, PartialEq, Eq)]
pub struct Package {
    pub name: String,
    /// Repo-relative directory.
    pub dir: String,
    /// `outDir` and `rootDir` from the package's own tsconfig, relative to
    /// `dir`, when both are set: build output maps back to source through
    /// them.
    pub out_to_source: Option<(String, String)>,
}

/// `s` without its trailing `/`s.
pub open spec fn strip_slashes(s: Seq<char>) -> Seq<char>
    decreases s.len(),
{
    if s.len() > 0 && s.last() == '/' {
        strip_slashes(s.drop_last())
    } else {
        s
    }
}

/// A folder as a manifest writes it: no leading `./`, no trailing `/`.
pub open spec fn clean_dir(s: Seq<char>) -> Seq<char> {
    strip_slashes(strip_all(s, "./"@))
}

/// A workspace pattern as a package manager reads it: a leading `!`
/// excludes, and the glob is the folder cleaned.
pub open spec fn pattern_glob(p: Seq<char>) -> (bool, Seq<char>) {
    if p.len() > 0 && p[0] == '!' {
        (true, clean_dir(p.drop_first()))
    } else {
        (false, clean_dir(p))
    }
}

/// The set of including (or, with `exclude`, excluding) globs builds:
/// every one globset parses also has a regex that compiles. A set that
/// fails to build is taken as empty.
pub open spec fn set_builds(patterns: Seq<Seq<char>>, exclude: bool) -> bool {
    forall|i: int| 0 <= i < patterns.len() && pattern_glob(#[trigger] patterns[i]).0 == exclude
        && globset_problem(pattern_glob(patterns[i]).1) is None ==> glob_regex_problem(pattern_glob(patterns[i]).1) is None
}

/// A folder is a member: the including globs build and one of them
/// matches it, and no excluding one does (where those build).
pub open spec fn member(patterns: Seq<Seq<char>>, dir: Seq<char>) -> bool {
    &&& set_builds(patterns, false)
    &&& exists|i: int| 0 <= i < patterns.len() && !pattern_glob(#[trigger] patterns[i]).0
        && glob_problem(pattern_glob(patterns[i]).1) is None && glob_matches(pattern_glob(patterns[i]).1, dir)
    &&& !(set_builds(patterns, true) && exists|i: int| 0 <= i < patterns.len() && pattern_glob(#[trigger] patterns[i]).0
        && glob_problem(pattern_glob(patterns[i]).1) is None && glob_matches(pattern_glob(patterns[i]).1, dir))
}

/// The folder of a `package.json`, if the file is one.
pub open spec fn manifest_dir(f: Seq<char>) -> Option<Seq<char>> {
    if f == "package.json"@ || "/package.json"@.is_suffix_of(f) {
        Some(parent_of(f))
    } else {
        None
    }
}

/// The member folders among the first `n` files, in order.
pub open spec fn members_upto(files: Seq<Seq<char>>, patterns: Seq<Seq<char>>, n: int) -> Seq<Seq<char>>
    decreases n,
{
    if n <= 0 {
        Seq::empty()
    } else {
        let rest = members_upto(files, patterns, n - 1);
        match manifest_dir(files[n - 1]) {
            Some(d) => if d.len() > 0 && member(patterns, d) {
                rest.push(d)
            } else {
                rest
            },
            None => rest,
        }
    }
}

fn strip_slashes_exec(v: &Vec<char>, from: usize) -> (r: String)
    requires
        from <= v.len(),
    ensures
        r@ == strip_slashes(v@.skip(from as int)),
{
    let mut end = v.len();
    proof {
        assert(v@.skip(from as int) =~= v@.subrange(from as int, end as int));
    }
    while end > from && v[end - 1] == '/'
        invariant
            from <= end <= v.len(),
            strip_slashes(v@.skip(from as int)) == strip_slashes(v@.subrange(from as int, end as int)),
        decreases end,
    {
        proof {
            assert(v@.subrange(from as int, end as int).drop_last() =~= v@.subrange(from as int, end - 1));
        }
        end = end - 1;
    }
    proof {
        if end > from {
            assert(v@.subrange(from as int, end as int).last() == v@[end - 1]);
        }
    }
    string_range(v, from, end)
}

/// A folder as a manifest writes it, cleaned.
pub fn clean(s: &str) -> (r: String)
    ensures
        r@ == clean_dir(s@),
{
    let v = chars_of(s);
    let mut i: usize = 0;
    proof {
        reveal_strlit("./");
        assert(v@.skip(0) =~= v@);
    }
    while i < v.len() && v.len() - i >= 2 && v[i] == '.' && v[i + 1] == '/'
        invariant
            i <= v.len(),
            v@ == s@,
            strip_all(s@, "./"@) == strip_all(v@.skip(i as int), "./"@),
        decreases v.len() - i,
    {
        proof {
            reveal_strlit("./");
            assert(v@.skip(i as int).take(2) =~= "./"@);
            assert(v@.skip(i as int).skip(2) =~= v@.skip(i as int + 2));
        }
        i = i + 2;
    }
    proof {
        reveal_strlit("./");
        if i + 2 <= v.len() {
            assert(v@.skip(i as int).take(2) != "./"@) by {
                assert(v@.skip(i as int).take(2)[0] == v@[i as int]);
                assert(v@.skip(i as int).take(2)[1] == v@[i as int + 1]);
            }
        }
    }
    strip_slashes_exec(&v, i)
}

/// Some compiled glob is `x`.
pub open spec fn has_glob(globs: Seq<(bool, Pattern)>, x: (bool, Seq<char>)) -> bool {
    exists|i: int| 0 <= i < globs.len() && #[trigger] globs[i].0 == x.0 && globs[i].1.text() == x.1
}

/// Some pattern reads as `x`.
pub open spec fn from_pattern(patterns: Seq<String>, x: (bool, Seq<char>)) -> bool {
    exists|k: int| 0 <= k < patterns.len() && #[trigger] pattern_glob(patterns[k]@) == x
}

/// The workspace patterns compiled, each with whether it excludes; a glob
/// that doesn't compile is left out.
fn globs_of(patterns: &[String]) -> (r: (Vec<(bool, Pattern)>, bool, bool))
    ensures
        forall|i: int| 0 <= i < r.0.len() ==> glob_problem((#[trigger] r.0@[i]).1.text()) is None,
        forall|x: (bool, Seq<char>)| #[trigger] has_glob(r.0@, x) <==> (glob_problem(x.1) is None && from_pattern(patterns@, x)),
        r.1 == set_builds(patterns@.map_values(|p: String| p@), false),
        r.2 == set_builds(patterns@.map_values(|p: String| p@), true),
{
    let ghost pv = patterns@.map_values(|p: String| p@);
    let mut out: Vec<(bool, Pattern)> = Vec::new();
    let mut inc_ok = true;
    let mut exc_ok = true;
    let mut k: usize = 0;
    while k < patterns.len()
        invariant
            k <= patterns.len(),
            pv == patterns@.map_values(|p: String| p@),
            inc_ok == set_builds(pv.take(k as int), false),
            exc_ok == set_builds(pv.take(k as int), true),
            forall|i: int| 0 <= i < out.len() ==> glob_problem((#[trigger] out@[i]).1.text()) is None,
            forall|x: (bool, Seq<char>)| #[trigger] has_glob(out@, x) <==> (glob_problem(x.1) is None && from_pattern(patterns@.take(k as int), x)),
        decreases patterns.len() - k,
    {
        let p = patterns[k].as_str();
        let v = chars_of(p);
        let (exclude, glob) = if v.len() > 0 && v[0] == '!' {
            let n = v.len();
            let rest = string_range(&v, 1, n);
            proof {
                assert(rest@ =~= p@.drop_first());
            }
            (true, clean(rest.as_str()))
        } else {
            (false, clean(p))
        };
        proof {
            assert((exclude, glob@) == pattern_glob(patterns@[k as int]@));
        }
        let ghost before = out@;
        let built = Pattern::new_parsed(glob.as_str());
        proof {
            let t0 = pv.take(k as int);
            let t1 = pv.take(k as int + 1);
            assert(t1 =~= t0.push(pv[k as int]));
            assert(pv[k as int] == patterns@[k as int]@);
            let bad = !(globset_problem(glob@) is None ==> glob_regex_problem(glob@) is None);
            assert(set_builds(t1, exclude) == (set_builds(t0, exclude) && !bad)) by {
                if set_builds(t1, exclude) {
                    assert forall|i: int| 0 <= i < t0.len() && pattern_glob(#[trigger] t0[i]).0 == exclude
                        && globset_problem(pattern_glob(t0[i]).1) is None implies glob_regex_problem(pattern_glob(t0[i]).1) is None by {
                        assert(t1[i] == t0[i]);
                    }
                    assert(t1[k as int] == pv[k as int]);
                }
                if set_builds(t0, exclude) && !bad {
                    assert forall|i: int| 0 <= i < t1.len() && pattern_glob(#[trigger] t1[i]).0 == exclude
                        && globset_problem(pattern_glob(t1[i]).1) is None implies glob_regex_problem(pattern_glob(t1[i]).1) is None by {
                        if i < k {
                            assert(t1[i] == t0[i]);
                        }
                    }
                }
            }
            assert(set_builds(t1, !exclude) == set_builds(t0, !exclude)) by {
                if set_builds(t0, !exclude) {
                    assert forall|i: int| 0 <= i < t1.len() && pattern_glob(#[trigger] t1[i]).0 == !exclude
                        && globset_problem(pattern_glob(t1[i]).1) is None implies glob_regex_problem(pattern_glob(t1[i]).1) is None by {
                        if i < k {
                            assert(t1[i] == t0[i]);
                        }
                    }
                }
                if set_builds(t1, !exclude) {
                    assert forall|i: int| 0 <= i < t0.len() && pattern_glob(#[trigger] t0[i]).0 == !exclude
                        && globset_problem(pattern_glob(t0[i]).1) is None implies glob_regex_problem(pattern_glob(t0[i]).1) is None by {
                        assert(t1[i] == t0[i]);
                    }
                }
            }
        }
        if let Err((false, _)) = &built {
            if exclude {
                exc_ok = false;
            } else {
                inc_ok = false;
            }
        }
        match built {
            Ok(m) => {
                out.push((exclude, m));
                proof {
                    assert forall|x: (bool, Seq<char>)| #[trigger] has_glob(out@, x) <==> (glob_problem(x.1) is None && from_pattern(patterns@.take(k as int + 1), x)) by {
                        let pk = patterns@.take(k as int + 1);
                        if has_glob(out@, x) {
                            let i = choose|i: int| 0 <= i < out.len() && #[trigger] out@[i].0 == x.0 && out@[i].1.text() == x.1;
                            if i < before.len() {
                                assert(before[i] == out@[i]);
                                assert(has_glob(before, x));
                                let q = choose|q: int| 0 <= q < k && #[trigger] pattern_glob(patterns@.take(k as int)[q]@) == x;
                                assert(pk[q] == patterns@.take(k as int)[q]);
                            } else {
                                assert(pk[k as int] == patterns@[k as int]);
                            }
                        }
                        if glob_problem(x.1) is None && from_pattern(pk, x) {
                            let q = choose|q: int| 0 <= q < pk.len() && #[trigger] pattern_glob(pk[q]@) == x;
                            if q < k {
                                assert(pk[q] == patterns@.take(k as int)[q]);
                                assert(from_pattern(patterns@.take(k as int), x));
                                assert(has_glob(before, x));
                                let i = choose|i: int| 0 <= i < before.len() && #[trigger] before[i].0 == x.0 && before[i].1.text() == x.1;
                                assert(out@[i] == before[i]);
                            } else {
                                assert(out@[before.len() as int].0 == x.0);
                            }
                        }
                    }
                }
            },
            Err(_) => {
                proof {
                    assert forall|x: (bool, Seq<char>)| #[trigger] has_glob(out@, x) <==> (glob_problem(x.1) is None && from_pattern(patterns@.take(k as int + 1), x)) by {
                        let pk = patterns@.take(k as int + 1);
                        if has_glob(out@, x) {
                            let i = choose|i: int| 0 <= i < out.len() && #[trigger] out@[i].0 == x.0 && out@[i].1.text() == x.1;
                            let q = choose|q: int| 0 <= q < k && #[trigger] pattern_glob(patterns@.take(k as int)[q]@) == x;
                            assert(pk[q] == patterns@.take(k as int)[q]);
                        }
                        if glob_problem(x.1) is None && from_pattern(pk, x) {
                            let q = choose|q: int| 0 <= q < pk.len() && #[trigger] pattern_glob(pk[q]@) == x;
                            assert(q < k);
                            assert(pk[q] == patterns@.take(k as int)[q]);
                            assert(from_pattern(patterns@.take(k as int), x));
                        }
                    }
                }
            },
        }
        k = k + 1;
    }
    proof {
        assert(patterns@.take(k as int) =~= patterns@);
        assert(pv.take(k as int) =~= pv);
    }
    (out, inc_ok, exc_ok)
}

/// The folders holding a `package.json` that the workspace patterns take
/// in, in the order the files come; none without patterns.
pub fn member_dirs(files: &[String], patterns: &[String]) -> (r: Vec<String>)
    ensures
        r@.map_values(|d: String| d@) == members_upto(
            files@.map_values(|f: String| f@),
            patterns@.map_values(|p: String| p@),
            files.len() as int,
        ),
{
    let ghost fv = files@.map_values(|f: String| f@);
    let ghost pv = patterns@.map_values(|p: String| p@);
    let (globs, inc_ok, exc_ok) = globs_of(patterns);
    let mut out: Vec<String> = Vec::new();
    let mut i: usize = 0;
    while i < files.len()
        invariant
            i <= files.len(),
            fv == files@.map_values(|f: String| f@),
            pv == patterns@.map_values(|p: String| p@),
            forall|j: int| 0 <= j < globs.len() ==> glob_problem((#[trigger] globs@[j]).1.text()) is None,
            forall|x: (bool, Seq<char>)| #[trigger] has_glob(globs@, x) <==> (glob_problem(x.1) is None && from_pattern(patterns@, x)),
            inc_ok == set_builds(pv, false),
            exc_ok == set_builds(pv, true),
            out@.map_values(|d: String| d@) == members_upto(fv, pv, i as int),
        decreases files.len() - i,
    {
        let f = files[i].as_str();
        proof {
            reveal_strlit("package.json");
            reveal_strlit("/package.json");
            assert(fv[i as int] == f@);
        }
        let is_manifest = same_str(f, "package.json") || ends_with_lit(&chars_of(f), "/package.json");
        let ghost before = out@.map_values(|d: String| d@);
        if is_manifest {
            let dir = parent(f);
            if dir.unicode_len() > 0 {
                let mut inc = false;
                let mut exc = false;
                let mut j: usize = 0;
                while j < globs.len()
                    invariant
                        j <= globs.len(),
                        inc == exists|q: int| 0 <= q < j && !(#[trigger] globs@[q]).0 && glob_matches(globs@[q].1.text(), dir@),
                        exc == exists|q: int| 0 <= q < j && (#[trigger] globs@[q]).0 && glob_matches(globs@[q].1.text(), dir@),
                    decreases globs.len() - j,
                {
                    if globs[j].1.is_match(dir) {
                        if globs[j].0 {
                            exc = true;
                        } else {
                            inc = true;
                        }
                    }
                    j = j + 1;
                }
                proof {
                    let inc_s = exists|i: int| 0 <= i < pv.len() && !pattern_glob(#[trigger] pv[i]).0
                        && glob_problem(pattern_glob(pv[i]).1) is None && glob_matches(pattern_glob(pv[i]).1, dir@);
                    let exc_s = exists|i: int| 0 <= i < pv.len() && pattern_glob(#[trigger] pv[i]).0
                        && glob_problem(pattern_glob(pv[i]).1) is None && glob_matches(pattern_glob(pv[i]).1, dir@);
                    assert(inc == inc_s && exc == exc_s) by {
                        if inc {
                            let q = choose|q: int| 0 <= q < globs.len() && !(#[trigger] globs@[q]).0 && glob_matches(globs@[q].1.text(), dir@);
                            let x = (globs@[q].0, globs@[q].1.text());
                            assert(has_glob(globs@, x));
                            let k = choose|k: int| 0 <= k < patterns.len() && #[trigger] pattern_glob(patterns@[k]@) == x;
                            assert(pv[k] == patterns@[k]@);
                        }
                        if exc {
                            let q = choose|q: int| 0 <= q < globs.len() && (#[trigger] globs@[q]).0 && glob_matches(globs@[q].1.text(), dir@);
                            let x = (globs@[q].0, globs@[q].1.text());
                            assert(has_glob(globs@, x));
                            let k = choose|k: int| 0 <= k < patterns.len() && #[trigger] pattern_glob(patterns@[k]@) == x;
                            assert(pv[k] == patterns@[k]@);
                        }
                        if exists|k: int| 0 <= k < pv.len() && !pattern_glob(#[trigger] pv[k]).0
                            && glob_problem(pattern_glob(pv[k]).1) is None && glob_matches(pattern_glob(pv[k]).1, dir@) {
                            let k = choose|k: int| 0 <= k < pv.len() && !pattern_glob(#[trigger] pv[k]).0
                                && glob_problem(pattern_glob(pv[k]).1) is None && glob_matches(pattern_glob(pv[k]).1, dir@);
                            let x = pattern_glob(pv[k]);
                            assert(pv[k] == patterns@[k]@);
                            assert(from_pattern(patterns@, x));
                            assert(has_glob(globs@, x));
                            let q = choose|q: int| 0 <= q < globs.len() && #[trigger] globs@[q].0 == x.0 && globs@[q].1.text() == x.1;
                            assert(!globs@[q].0 && glob_matches(globs@[q].1.text(), dir@));
                        }
                        if exists|k: int| 0 <= k < pv.len() && pattern_glob(#[trigger] pv[k]).0
                            && glob_problem(pattern_glob(pv[k]).1) is None && glob_matches(pattern_glob(pv[k]).1, dir@) {
                            let k = choose|k: int| 0 <= k < pv.len() && pattern_glob(#[trigger] pv[k]).0
                                && glob_problem(pattern_glob(pv[k]).1) is None && glob_matches(pattern_glob(pv[k]).1, dir@);
                            let x = pattern_glob(pv[k]);
                            assert(pv[k] == patterns@[k]@);
                            assert(from_pattern(patterns@, x));
                            assert(has_glob(globs@, x));
                            let q = choose|q: int| 0 <= q < globs.len() && #[trigger] globs@[q].0 == x.0 && globs@[q].1.text() == x.1;
                            assert(globs@[q].0 && glob_matches(globs@[q].1.text(), dir@));
                        }
                    }
                }
                proof {
                    assert(member(pv, dir@) == (inc_ok && inc && !(exc_ok && exc)));
                }
                if inc_ok && inc && !(exc_ok && exc) {
                    out.push(copy_str(dir));
                    proof {
                        assert(out@.map_values(|d: String| d@) =~= before.push(dir@));
                    }
                }
            }
        }
        i = i + 1;
    }
    out
}

/// A member's package: its manifest's `name`, and its tsconfig's `outDir`
/// and `rootDir`, cleaned, when both are there; none without a name.
pub fn package_from(dir: &str, name: Option<&str>, out_dir: Option<&str>, root_dir: Option<&str>) -> (r: Option<Package>)
    ensures
        name is None ==> r is None,
        name matches Some(n) ==> (r matches Some(p) && p.name@ == n@ && p.dir@ == dir@ && match (out_dir, root_dir) {
            (Some(o), Some(s)) => p.out_to_source matches Some(m) && m.0@ == clean_dir(o@) && m.1@ == clean_dir(s@),
            _ => p.out_to_source is None,
        }),
{
    let n = match name {
        Some(n) => n,
        None => return None,
    };
    let out_to_source = match (out_dir, root_dir) {
        (Some(o), Some(s)) => Some((clean(o), clean(s))),
        _ => None,
    };
    Some(Package { name: copy_str(n), dir: copy_str(dir), out_to_source })
}

/// Packages ordered by folder.
pub open spec fn by_dir() -> spec_fn(Package, Package) -> bool {
    |a: Package, b: Package| seq_order(a.dir@, b.dir@) <= 0
}

/// The packages sorted by folder, as `sort_by` on the folder puts them.
pub fn sort_packages(ps: Vec<Package>) -> (r: Vec<Package>)
    ensures
        r@ == sort_by(ps@, by_dir()),
{
    let ghost le = by_dir();
    let ghost all = ps@;
    let n = ps.len();
    let mut rest = ps;
    let mut out: Vec<Package> = Vec::new();
    let mut i: usize = 0;
    while rest.len() > 0
        invariant
            le == by_dir(),
            all.len() == n,
            i + rest.len() == all.len(),
            rest@ == all.skip(i as int),
            out@ == sort_by(all.take(i as int), le),
        decreases rest.len(),
    {
        let p = rest.remove(0);
        proof {
            assert(all[i as int] == p);
        }
        let mut j: usize = out.len();
        while j > 0 && compare_str(out[j - 1].dir.as_str(), p.dir.as_str()) > 0
            invariant
                j <= out.len(),
                le == by_dir(),
                forall|q: int| j <= q < out.len() ==> !le(#[trigger] out@[q], p),
            decreases j,
        {
            j = j - 1;
        }
        proof {
            if j > 0 {
                assert(le(out@[j - 1], p));
            }
            lemma_insert_by_at(out@, p, le, j as int);
            assert(all.take(i as int + 1).drop_last() =~= all.take(i as int));
            assert(all.take(i as int + 1).last() == p);
        }
        out.insert(j, p);
        i = i + 1;
        proof {
            assert(rest@ =~= all.skip(i as int));
        }
    }
    proof {
        assert(all.take(i as int) =~= all);
    }
    out
}

} // verus!

verus! {

/// The packages found, those with a name, ordered by folder.
pub open spec fn found_packages(cands: Seq<Option<Package>>) -> Seq<Package>
    decreases cands.len(),
{
    if cands.len() == 0 {
        Seq::empty()
    } else {
        let rest = found_packages(cands.drop_last());
        match cands.last() {
            Some(p) => rest.push(p),
            None => rest,
        }
    }
}

/// The workspace's packages: of each member folder's package (as
/// `package_from` reads its manifests), those there are, by folder.
pub fn discover(candidates: Vec<Option<Package>>) -> (r: Vec<Package>)
    ensures
        r@ == sort_by(found_packages(candidates@), by_dir()),
{
    let ghost all = candidates@;
    let n = candidates.len();
    let mut rest = candidates;
    let mut kept: Vec<Package> = Vec::new();
    let mut i: usize = 0;
    while rest.len() > 0
        invariant
            all.len() == n,
            i + rest.len() == all.len(),
            rest@ == all.skip(i as int),
            kept@ == found_packages(all.take(i as int)),
        decreases rest.len(),
    {
        let c = rest.remove(0);
        proof {
            assert(all[i as int] == c);
            assert(all.take(i as int + 1).drop_last() =~= all.take(i as int));
        }
        match c {
            Some(p) => kept.push(p),
            None => {},
        }
        i = i + 1;
        proof {
            assert(rest@ =~= all.skip(i as int));
        }
    }
    proof {
        assert(all.take(i as int) =~= all);
    }
    sort_packages(kept)
}


/// The value of the first entry from the `i`th on keyed `k`.
pub open spec fn field_from(es: Seq<(Seq<char>, JValue)>, k: Seq<char>, i: int) -> Option<JValue>
    decreases es.len() - i,
{
    if i < 0 || i >= es.len() {
        None
    } else if es[i].0 == k {
        Some(es[i].1)
    } else {
        field_from(es, k, i + 1)
    }
}

/// The strings among the first `n` items, in order.
pub open spec fn strings_upto(items: Seq<JValue>, n: int) -> Seq<Seq<char>>
    decreases n,
{
    if n <= 0 {
        Seq::empty()
    } else {
        let rest = strings_upto(items, n - 1);
        match items[n - 1] {
            JValue::Str(s) => rest.push(s),
            _ => rest,
        }
    }
}

/// The strings of the array that an object holds at `k`.
pub open spec fn listed(v: JValue, k: Seq<char>) -> Seq<Seq<char>> {
    match v {
        JValue::Object(es) => match field_from(es, k, 0) {
            Some(JValue::Array(items)) => strings_upto(items, items.len() as int),
            _ => Seq::empty(),
        },
        _ => Seq::empty(),
    }
}

/// The patterns of a root `package.json`: its `workspaces` array, or the
/// `packages` array of a `workspaces` object.
pub open spec fn manifest_patterns(m: JValue) -> Seq<Seq<char>> {
    match m {
        JValue::Object(es) => match field_from(es, "workspaces"@, 0) {
            Some(JValue::Array(items)) => strings_upto(items, items.len() as int),
            Some(JValue::Object(inner)) => listed(JValue::Object(inner), "packages"@),
            _ => Seq::empty(),
        },
        _ => Seq::empty(),
    }
}

fn field_of<'a>(es: &'a Vec<Entry>, k: &str) -> (r: Option<&'a Value>)
    ensures
        match field_from(jes(es@), k@, 0) {
            Some(v) => r matches Some(x) && jv(*x) == v,
            None => r is None,
        },
{
    proof {
        lemma_jes(es@);
    }
    let mut i: usize = 0;
    while i < es.len()
        invariant
            i <= es.len(),
            jes(es@).len() == es.len(),
            forall|j: int| 0 <= j < es.len() ==> jes(es@)[j] == ((#[trigger] es@[j]).key@, jv(es@[j].value)),
            field_from(jes(es@), k@, 0) == field_from(jes(es@), k@, i as int),
        decreases es.len() - i,
    {
        if same_str(es[i].key.as_str(), k) {
            return Some(&es[i].value);
        }
        i = i + 1;
    }
    None
}

fn strings_in(items: &Vec<Value>) -> (r: Vec<String>)
    ensures
        crate::strset::views_of(r@) == strings_upto(jvs(items@), items.len() as int),
{
    proof {
        lemma_jvs(items@);
    }
    let mut out: Vec<String> = Vec::new();
    let mut i: usize = 0;
    while i < items.len()
        invariant
            i <= items.len(),
            jvs(items@).len() == items.len(),
            forall|j: int| 0 <= j < items.len() ==> jvs(items@)[j] == jv(#[trigger] items@[j]),
            crate::strset::views_of(out@) == strings_upto(jvs(items@), i as int),
        decreases items.len() - i,
    {
        let ghost before = out@;
        assert(jvs(items@)[i as int] == jv(items@[i as int]));
        match &items[i] {
            Value::Str(s) => {
                out.push(copy_str(s.as_str()));
                proof {
                    assert(crate::strset::views_of(out@) =~= crate::strset::views_of(before).push(s@));
                }
            },
            _ => {},
        }
        i = i + 1;
    }
    out
}

fn listed_in(v: &Value, k: &str) -> (r: Vec<String>)
    ensures
        crate::strset::views_of(r@) == listed(jv(*v), k@),
{
    match v {
        Value::Object(es) => match field_of(es, k) {
            Some(Value::Array(items)) => {
                proof {
                    lemma_jvs(items@);
                }
                strings_in(items)
            },
            _ => Vec::new(),
        },
        _ => Vec::new(),
    }
}

/// The workspace patterns: those of the root `package.json` (`manifest`,
/// when it could be read), then the `packages` of `pnpm-workspace.yaml`
/// (`pnpm`, likewise).
pub fn workspace_patterns(manifest: Option<&Value>, pnpm: Option<&Value>) -> (r: Vec<String>)
    ensures
        crate::strset::views_of(r@) == (match manifest {
            Some(m) => manifest_patterns(jv(*m)),
            None => Seq::empty(),
        }) + (match pnpm {
            Some(p) => listed(jv(*p), "packages"@),
            None => Seq::empty(),
        }),
{
    let mut out: Vec<String> = match manifest {
        Some(Value::Object(es)) => match field_of(es, "workspaces") {
            Some(Value::Array(items)) => {
                proof {
                    lemma_jvs(items@);
                }
                strings_in(items)
            },
            Some(Value::Object(inner)) => match field_of(inner, "packages") {
                Some(Value::Array(items)) => {
                    proof {
                        lemma_jvs(items@);
                    }
                    strings_in(items)
                },
                _ => Vec::new(),
            },
            _ => Vec::new(),
        },
        _ => Vec::new(),
    };
    let more = match pnpm {
        Some(p) => listed_in(p, "packages"),
        None => Vec::new(),
    };
    let ghost a = out@;
    let mut i: usize = 0;
    while i < more.len()
        invariant
            i <= more.len(),
            crate::strset::views_of(out@) == crate::strset::views_of(a) + crate::strset::views_of(more@.take(i as int)),
        decreases more.len() - i,
    {
        let ghost before = out@;
        out.push(copy_str(more[i].as_str()));
        proof {
            assert(more@.take(i as int + 1) =~= more@.take(i as int).push(more@[i as int]));
            assert(crate::strset::views_of(out@) =~= crate::strset::views_of(before).push(more@[i as int]@));
            assert(crate::strset::views_of(more@.take(i as int + 1)) =~= crate::strset::views_of(more@.take(i as int)).push(more@[i as int]@));
        }
        i = i + 1;
    }
    proof {
        assert(more@.take(i as int) =~= more@);
    }
    out
}

} // verus!
