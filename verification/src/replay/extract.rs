//! Failing test files named in a CI log. Each runner prints them its own
//! way: Vitest as `FAIL  [project]  path > suite > test`, Jest as
//! `FAIL path (1.2 s)` with the test's title on a following `●` line, and
//! either may sit behind a workspace runner's `<package> <script>: ` prefix.
//! Lines inside an assertion diff (`+`/`-`) are another run's output, so
//! they're skipped. The patterns are regular expressions, matched by the
//! regex crate.
use vstd::prelude::*;
use crate::matcher::{
    regex_cut_all, regex_cut_first, regex_finds, regex_group, regex_group_of, regex_has_group,
    regex_names_group, regex_problem, regex_replace_all, regex_replace_first, Matcher,
};
use crate::text::{
    chars_of, chars_range, copy_str, lines, lines_of, push_str, rfind_in, rfind_sub, same_str, string_of,
    trim, trim_start, trimmed, skip_white, lemma_lead_white,
};

verus! {

#[derive(Debug, Clone, PartialEq, Eq)]
pub struct Printed {
    pub path: String,
    /// The runner's project, or the workspace runner's package prefix.
    pub project: Option<String>,
    /// The last segment of the failing test's name, when printed.
    pub title: Option<String>,
}

/// A printed failure as text: path, project and title.
pub type PrintedView = (Seq<char>, Option<Seq<char>>, Option<Seq<char>>);

pub open spec fn opt_view(o: Option<String>) -> Option<Seq<char>> {
    match o {
        Some(s) => Some(s@),
        None => None,
    }
}

pub open spec fn printed_view(p: Printed) -> PrintedView {
    (p.path@, opt_view(p.project), opt_view(p.title))
}

/// A test file's extension, as the built-in patterns write it.
pub const TEST_EXT: &'static str = r"\.(?:[cm]?[jt]sx?)";

pub const ANSI: &'static str = r"\x1b\[[0-9;]*[A-Za-z]";

pub const STAMP: &'static str = r"^\d{4}-\d\d-\d\dT[\d:.]+Z ";

pub const PREFIX: &'static str = r"^(?P<package>\S+) [\w:.-]+: (?P<rest>.*)$";

pub const VITEST: &'static str = r"^\s*FAIL\s+(?:\|(?P<pipe>[^|]+)\|\s+|(?P<bare>\S+)\s{2,})?(?P<path>[^\s>\[]+\.(?:[cm]?[jt]sx?))(?::\d+)?(?:\s+>\s+(?P<title>.*?))?(?:\s+\[.*\])?\s*$";

pub const JEST: &'static str = r"^\s*FAIL\s+(?:(?P<project>\S+)\s{2,})?(?P<path>\S+\.(?:[cm]?[jt]sx?))(?:\s+\([\d.]+ m?s\))?\s*$";

#[derive(Debug, Clone, Copy, PartialEq, Eq, Structural)]
pub enum Kind {
    Vitest,
    Jest,
    /// A pattern with a named `file` group, and optionally `project` and `title`.
    Custom,
}

pub open spec fn str_opt(o: Option<&str>) -> Option<Seq<char>> {
    match o {
        Some(s) => Some(s@),
        None => None,
    }
}

/// `name` is an extractor, with a usable pattern for `regex`, and the
/// patterns it needs compile.
pub open spec fn named_ok(name: Seq<char>, pattern: Option<Seq<char>>) -> bool {
    &&& regex_problem(ANSI@) is None
    &&& regex_problem(STAMP@) is None
    &&& regex_problem(PREFIX@) is None
    &&& {
        ||| name == "vitest"@ && regex_problem(VITEST@) is None
        ||| name == "jest"@ && regex_problem(JEST@) is None
        ||| name == "regex"@ && (pattern matches Some(p) && regex_problem(p) is None && regex_has_group(p, "file"@))
    }
}

/// How to read a log: the runner's kind and its line pattern, and the
/// patterns that clean a line and split off a workspace prefix.
#[derive(Debug)]
pub struct Extractor {
    pub kind: Kind,
    pub line: Matcher,
    pub ansi: Matcher,
    pub stamp: Matcher,
    pub prefix: Matcher,
}

impl Extractor {
    pub open spec fn wf(&self) -> bool {
        &&& self.ansi.source() == ANSI@
        &&& self.stamp.source() == STAMP@
        &&& self.prefix.source() == PREFIX@
        &&& self.kind == Kind::Vitest ==> self.line.source() == VITEST@
        &&& self.kind == Kind::Jest ==> self.line.source() == JEST@
    }

    /// The extractor `name` names, with `pattern` for `regex`.
    pub fn named(name: &str, pattern: Option<&str>) -> (r: Result<Extractor, String>)
        ensures
            r is Ok <==> named_ok(name@, str_opt(pattern)),
            r matches Ok(e) ==> e.wf(),
            r matches Ok(e) ==> (name@ == "vitest"@ <==> e.kind == Kind::Vitest) && (name@ == "jest"@
                <==> e.kind == Kind::Jest),
            r matches Ok(e) ==> (e.kind == Kind::Custom ==> (pattern matches Some(p) && e.line.source() == p@
                && regex_has_group(p@, "file"@))),
            name@ == "regex"@ && pattern is None ==> (r matches Err(m) && m@
                == "replay.failures: extractor \"regex\" needs a pattern"@),
            name@ == "regex"@ && pattern is Some && regex_problem(pattern->0@) is None && !regex_has_group(pattern->0@, "file"@)
                ==> (r matches Err(m) && m@ == "replay.failures pattern needs a named `file` group"@),
            name@ == "regex"@ && pattern is Some && regex_problem(pattern->0@) is Some ==> (r matches Err(m)
                && m@ == "replay.failures pattern: "@ + regex_problem(pattern->0@)->0),
            name@ != "vitest"@ && name@ != "jest"@ && name@ != "regex"@ ==> (r matches Err(m) && m@
                == "unknown extractor `"@ + name@ + "`; use vitest, jest or regex"@),
            (name@ == "vitest"@ || name@ == "jest"@) && regex_problem(ANSI@) is None && regex_problem(STAMP@) is None
                && regex_problem(PREFIX@) is None && regex_problem(if name@ == "vitest"@ { VITEST@ } else { JEST@ }) is None
                ==> r is Ok,
    {
        proof {
            reveal_strlit("vitest");
            reveal_strlit("jest");
            reveal_strlit("regex");
            assert("vitest"@.len() == 6 && "regex"@.len() == 5 && "jest"@.len() == 4);
            assert("vitest"@ != "regex"@);
            assert("jest"@ != "regex"@);
            assert("jest"@ != "vitest"@);
        }
        let kind = if same_str(name, "vitest") {
            Kind::Vitest
        } else if same_str(name, "jest") {
            Kind::Jest
        } else if same_str(name, "regex") {
            Kind::Custom
        } else {
            let mut m = copy_str("unknown extractor `");
            push_str(&mut m, name);
            push_str(&mut m, "`; use vitest, jest or regex");
            return Err(m);
        };
        let line = match kind {
            Kind::Vitest => match Matcher::new(VITEST) {
            Ok(m) => m,
            Err(e) => return Err(e),
        },
            Kind::Jest => match Matcher::new(JEST) {
            Ok(m) => m,
            Err(e) => return Err(e),
        },
            Kind::Custom => match pattern {
                None => return Err(copy_str("replay.failures: extractor \"regex\" needs a pattern")),
                Some(p) => match Matcher::new(p) {
                    Err(e) => {
                        let mut m = copy_str("replay.failures pattern: ");
                        push_str(&mut m, e.as_str());
                        return Err(m);
                    },
                    Ok(re) => {
                        if !regex_names_group(&re, "file") {
                            return Err(copy_str("replay.failures pattern needs a named `file` group"));
                        }
                        re
                    },
                },
            },
        };
        let ansi = match Matcher::new(ANSI) {
            Ok(m) => m,
            Err(e) => return Err(e),
        };
        let stamp = match Matcher::new(STAMP) {
            Ok(m) => m,
            Err(e) => return Err(e),
        };
        let prefix = match Matcher::new(PREFIX) {
            Ok(m) => m,
            Err(e) => return Err(e),
        };
        Ok(Extractor { kind, line, ansi, stamp, prefix })
    }
}

/// A log line without its colour codes and its leading timestamp.
pub open spec fn clean_spec(e: Extractor, line: Seq<char>) -> Seq<char> {
    regex_cut_first(e.stamp.source(), regex_cut_all(e.ansi.source(), line))
}

/// Whether `t` starts with `FAIL`.
pub open spec fn starts_fail(t: Seq<char>) -> bool {
    t.len() >= 4 && t[0] == 'F' && t[1] == 'A' && t[2] == 'I' && t[3] == 'L'
}

/// Whether `t` starts with `PASS`.
pub open spec fn starts_pass(t: Seq<char>) -> bool {
    t.len() >= 4 && t[0] == 'P' && t[1] == 'A' && t[2] == 'S' && t[3] == 'S'
}

/// `<package> <script>: rest`, as `pnpm -r` and similar runners print it:
/// the package, unless it is `.`, and the rest; a `FAIL` line keeps its
/// whole text.
pub open spec fn split_prefix_spec(e: Extractor, line: Seq<char>) -> (Option<Seq<char>>, Seq<char>) {
    let p = e.prefix.source();
    if regex_finds(p, line) && !starts_fail(trim_start(line)) {
        let package = match regex_group(p, line, "package"@) {
            Some(x) => if x == "."@ { None } else { Some(x) },
            None => None,
        };
        let rest = match regex_group(p, line, "rest"@) {
            Some(x) => x,
            None => line,
        };
        (package, rest)
    } else {
        (None, line)
    }
}

/// The text after the last `sep`, trimmed, unless that is empty.
pub open spec fn last_segment_spec(title: Seq<char>, sep: Seq<char>) -> Option<Seq<char>> {
    let segment = match rfind_sub(title, sep) {
        Some(at) => title.skip(at + sep.len()),
        None => title,
    };
    if trim(segment).len() == 0 { None } else { Some(trim(segment)) }
}

pub open spec fn trimmed_opt(o: Option<Seq<char>>) -> Option<Seq<char>> {
    match o {
        Some(x) => Some(trim(x)),
        None => None,
    }
}

/// A Vitest `FAIL` line: the path, the project between bars or before two
/// spaces, and the last segment of the test's name.
pub open spec fn vitest_spec(e: Extractor, line: Seq<char>) -> Option<PrintedView> {
    let p = e.line.source();
    if !regex_finds(p, line) {
        None
    } else {
        match regex_group(p, line, "path"@) {
            None => None,
            Some(path) => {
                let project = match regex_group(p, line, "pipe"@) {
                    Some(x) => Some(trim(x)),
                    None => trimmed_opt(regex_group(p, line, "bare"@)),
                };
                let title = match regex_group(p, line, "title"@) {
                    Some(t) => last_segment_spec(t, " > "@),
                    None => None,
                };
                Some((path, project, title))
            },
        }
    }
}

/// A Jest or custom line: the path from `path_group`, the project and the
/// title from their groups.
pub open spec fn groups_spec(e: Extractor, line: Seq<char>, path_group: Seq<char>, title: bool) -> Option<PrintedView> {
    let p = e.line.source();
    if !regex_finds(p, line) {
        None
    } else {
        match regex_group(p, line, path_group) {
            None => None,
            Some(path) => Some((
                path,
                regex_group(p, line, "project"@),
                if title { regex_group(p, line, "title"@) } else { None },
            )),
        }
    }
}

/// The first `● suite › test` among the 40 lines from `from`, before the
/// next file's `FAIL` or `PASS`.
pub open spec fn jest_title_spec(e: Extractor, ls: Seq<Seq<char>>, from: int, left: nat) -> Option<Seq<char>>
    decreases left,
{
    if left == 0 || from >= ls.len() || from < 0 {
        None
    } else {
        let line = trim_start(split_prefix_spec(e, ls[from]).1);
        if starts_fail(line) || starts_pass(line) {
            None
        } else if line.len() > 0 && line[0] == '●' {
            last_segment_spec(line.drop_first(), " › "@)
        } else {
            jest_title_spec(e, ls, from + 1, (left - 1) as nat)
        }
    }
}

/// What line `i` of the cleaned lines names, with the prefix's package as
/// the project when the runner printed none.
pub open spec fn found_at(e: Extractor, ls: Seq<Seq<char>>, i: int) -> Option<PrintedView> {
    let (package, line) = split_prefix_spec(e, ls[i]);
    let t = trim_start(line);
    if t.len() > 0 && (t[0] == '+' || t[0] == '-') {
        None
    } else {
        let found = match e.kind {
            Kind::Vitest => vitest_spec(e, line),
            Kind::Jest => match groups_spec(e, line, "path"@, false) {
                Some(p) => Some((p.0, p.1, jest_title_spec(e, ls, i + 1, 40))),
                None => None,
            },
            Kind::Custom => groups_spec(e, line, "file"@, true),
        };
        match found {
            Some(p) => Some((p.0, if p.1 is Some { p.1 } else { package }, p.2)),
            None => None,
        }
    }
}

/// What the first `n` cleaned lines name, each once, in order.
pub open spec fn extract_upto(e: Extractor, ls: Seq<Seq<char>>, n: int) -> Seq<PrintedView>
    decreases n,
{
    if n <= 0 {
        Seq::empty()
    } else {
        let before = extract_upto(e, ls, n - 1);
        match found_at(e, ls, n - 1) {
            Some(p) => if before.contains(p) { before } else { before.push(p) },
            None => before,
        }
    }
}

/// The log's lines, each cleaned.
pub open spec fn cleaned(e: Extractor, log: Seq<char>) -> Seq<Seq<char>> {
    lines_of(log).map_values(|l: Seq<char>| clean_spec(e, l))
}

fn opt_copy(o: &Option<String>) -> (r: Option<String>)
    ensures
        opt_view(r) == opt_view(*o),
{
    match o {
        Some(s) => Some(copy_str(s.as_str())),
        None => None,
    }
}

fn same_opt(a: &Option<String>, b: &Option<String>) -> (r: bool)
    ensures
        r == (opt_view(*a) == opt_view(*b)),
{
    match (a, b) {
        (Some(x), Some(y)) => same_str(x.as_str(), y.as_str()),
        (None, None) => true,
        _ => false,
    }
}

fn starts_with_four(t: &Vec<char>, a: char, b: char, c: char, d: char) -> (r: bool)
    ensures
        r == (t.len() >= 4 && t@[0] == a && t@[1] == b && t@[2] == c && t@[3] == d),
{
    t.len() >= 4 && t[0] == a && t[1] == b && t[2] == c && t[3] == d
}

fn trim_start_chars(v: &Vec<char>) -> (r: Vec<char>)
    ensures
        r@ == trim_start(v@),
{
    let n = v.len();
    let s = skip_white(v, 0);
    proof {
        assert(v@.skip(0) =~= v@);
    }
    let r = chars_range(v, s, n);
    proof {
        assert(r@ =~= trim_start(v@));
    }
    r
}

fn split_prefix(e: &Extractor, line: &str) -> (r: (Option<String>, String))
    ensures
        (opt_view(r.0), r.1@) == split_prefix_spec(*e, line@),
{
    let t = trim_start_chars(&chars_of(line));
    if starts_with_four(&t, 'F', 'A', 'I', 'L') {
        return (None, copy_str(line));
    }
    match regex_group_of(&e.prefix, line, "package") {
        None => (None, copy_str(line)),
        Some(package) => {
            let package = match package {
                Some(x) => if same_str(x.as_str(), ".") { None } else { Some(x) },
                None => None,
            };
            let rest = match regex_group_of(&e.prefix, line, "rest") {
                Some(Some(x)) => x,
                _ => copy_str(line),
            };
            (package, rest)
        },
    }
}

fn last_segment(title: &str, sep: &str) -> (r: Option<String>)
    ensures
        opt_view(r) == last_segment_spec(title@, sep@),
{
    let v = chars_of(title);
    let s = chars_of(sep);
    let segment = match rfind_in(&v, &s) {
        Some(at) => {
            proof {
                crate::text::lemma_rfind_sub(v@, s@);
            }
            let n = v.len();
            chars_range(&v, at + s.len(), n)
        },
        None => chars_range(&v, 0, v.len()),
    };
    proof {
        match rfind_sub(v@, s@) {
            Some(at) => assert(segment@ =~= v@.skip(at + s@.len())),
            None => assert(segment@ =~= v@),
        }
    }
    let t = trimmed(&segment);
    if t.len() == 0 { None } else { Some(string_of(&t)) }
}

fn vitest(e: &Extractor, line: &str) -> (r: Option<Printed>)
    ensures
        match r {
            Some(p) => vitest_spec(*e, line@) == Some(printed_view(p)),
            None => vitest_spec(*e, line@) is None,
        },
{
    let path = match regex_group_of(&e.line, line, "path") {
        None => return None,
        Some(None) => return None,
        Some(Some(p)) => p,
    };
    let project = match regex_group_of(&e.line, line, "pipe") {
        Some(Some(x)) => Some(string_of(&trimmed(&chars_of(x.as_str())))),
        _ => match regex_group_of(&e.line, line, "bare") {
            Some(Some(x)) => Some(string_of(&trimmed(&chars_of(x.as_str())))),
            _ => None,
        },
    };
    let title = match regex_group_of(&e.line, line, "title") {
        Some(Some(t)) => last_segment(t.as_str(), " > "),
        _ => None,
    };
    Some(Printed { path, project, title })
}

fn groups(e: &Extractor, line: &str, path_group: &str, title: bool) -> (r: Option<Printed>)
    ensures
        match r {
            Some(p) => groups_spec(*e, line@, path_group@, title) == Some(printed_view(p)),
            None => groups_spec(*e, line@, path_group@, title) is None,
        },
{
    let path = match regex_group_of(&e.line, line, path_group) {
        None => return None,
        Some(None) => return None,
        Some(Some(p)) => p,
    };
    let project = match regex_group_of(&e.line, line, "project") {
        Some(g) => g,
        None => None,
    };
    let title = if title {
        match regex_group_of(&e.line, line, "title") {
            Some(g) => g,
            None => None,
        }
    } else {
        None
    };
    Some(Printed { path, project, title })
}

fn jest_title(e: &Extractor, ls: &Vec<String>, from: usize) -> (r: Option<String>)
    ensures
        opt_view(r) == jest_title_spec(*e, ls@.map_values(|l: String| l@), from as int, 40),
{
    let ghost lv = ls@.map_values(|l: String| l@);
    let mut k = from;
    let mut left: usize = 40;
    while left > 0 && k < ls.len()
        invariant
            lv == ls@.map_values(|l: String| l@),
            from <= k,
            left <= 40,
            jest_title_spec(*e, lv, from as int, 40) == jest_title_spec(*e, lv, k as int, left as nat),
        decreases left,
    {
        let (_, rest) = split_prefix(e, ls[k].as_str());
        let t = trim_start_chars(&chars_of(rest.as_str()));
        proof {
            assert(lv[k as int] == ls@[k as int]@);
        }
        if starts_with_four(&t, 'F', 'A', 'I', 'L') || starts_with_four(&t, 'P', 'A', 'S', 'S') {
            return None;
        }
        if t.len() > 0 && t[0] == '●' {
            let n = t.len();
            let after = chars_range(&t, 1, n);
            proof {
                assert(after@ =~= t@.drop_first());
            }
            return last_segment(string_of(&after).as_str(), " › ");
        }
        k = k + 1;
        left = left - 1;
    }
    None
}

/// Every failing test file the log names, each once, in the order printed.
pub fn extract(e: &Extractor, log: &str) -> (r: Vec<Printed>)
    ensures
        r@.map_values(|p: Printed| printed_view(p)) == extract_upto(*e, cleaned(*e, log@), cleaned(*e, log@).len() as int),
{
    let raw = lines(log);
    let mut ls: Vec<String> = Vec::new();
    let mut i: usize = 0;
    while i < raw.len()
        invariant
            i <= raw.len(),
            ls.len() == i,
            forall|k: int| 0 <= k < i ==> ls@[k]@ == clean_spec(*e, raw@[k]@),
        decreases raw.len() - i,
    {
        let no_colour = regex_replace_all(&e.ansi, raw[i].as_str());
        ls.push(regex_replace_first(&e.stamp, no_colour.as_str()));
        i = i + 1;
    }
    let ghost lv = ls@.map_values(|l: String| l@);
    proof {
        assert(lv =~= cleaned(*e, log@));
    }
    let mut out: Vec<Printed> = Vec::new();
    let mut i: usize = 0;
    while i < ls.len()
        invariant
            i <= ls.len(),
            lv == ls@.map_values(|l: String| l@),
            out@.map_values(|p: Printed| printed_view(p)) == extract_upto(*e, lv, i as int),
        decreases ls.len() - i,
    {
        proof {
            assert(lv[i as int] == ls@[i as int]@);
        }
        let (package, line) = split_prefix(e, ls[i].as_str());
        let t = trim_start_chars(&chars_of(line.as_str()));
        if !(t.len() > 0 && (t[0] == '+' || t[0] == '-')) {
            let found = match e.kind {
                Kind::Vitest => vitest(e, line.as_str()),
                Kind::Jest => match groups(e, line.as_str(), "path", false) {
                    Some(p) => Some(Printed { path: p.path, project: p.project, title: jest_title(e, &ls, i + 1) }),
                    None => None,
                },
                Kind::Custom => groups(e, line.as_str(), "file", true),
            };
            if let Some(p) = found {
                let printed = Printed {
                    path: p.path,
                    project: if p.project.is_some() { p.project } else { package },
                    title: p.title,
                };
                let ghost pv = printed_view(printed);
                let ghost before = out@.map_values(|p: Printed| printed_view(p));
                let mut seen = false;
                let mut k: usize = 0;
                while k < out.len()
                    invariant
                        k <= out.len(),
                        before == out@.map_values(|p: Printed| printed_view(p)),
                        pv == printed_view(printed),
                        seen == exists|q: int| 0 <= q < k && before[q] == pv,
                    decreases out.len() - k,
                {
                    if same_str(out[k].path.as_str(), printed.path.as_str()) && same_opt(&out[k].project, &printed.project)
                        && same_opt(&out[k].title, &printed.title) {
                        seen = true;
                    }
                    proof {
                        assert(before[k as int] == printed_view(out@[k as int]));
                    }
                    k = k + 1;
                }
                proof {
                    assert(seen == before.contains(pv));
                }
                if !seen {
                    out.push(printed);
                    proof {
                        assert(out@.map_values(|p: Printed| printed_view(p)) =~= before.push(pv));
                    }
                }
            }
        }
        i = i + 1;
    }
    out
}


proof fn lemma_extract_keeps(e: Extractor, ls: Seq<Seq<char>>, m: int, n: int)
    requires
        0 <= m < n <= ls.len(),
    ensures
        found_at(e, ls, m) matches Some(v) ==> extract_upto(e, ls, n).contains(v),
    decreases n,
{
    if let Some(v) = found_at(e, ls, m) {
        if m < n - 1 {
            lemma_extract_keeps(e, ls, m, n - 1);
            let before = extract_upto(e, ls, n - 1);
            let k = choose|k: int| 0 <= k < before.len() && before[k] == v;
            match found_at(e, ls, n - 1) {
                Some(q) => if !before.contains(q) {
                    assert(before.push(q)[k] == v);
                },
                None => {},
            }
        } else {
            let before = extract_upto(e, ls, n - 1);
            if !before.contains(v) {
                assert(before.push(v)[before.len() as int] == v);
            }
        }
    }
}

/// Law: a Vitest `FAIL` line that the line pattern matches names its
/// path, with the project between the bars (`|effect|`), trimmed, or else
/// the bare one before two spaces, among what `extract` returns; a diff
/// line (`+`/`-`) names nothing.
pub proof fn lemma_vitest_names_its_project(e: Extractor, ls: Seq<Seq<char>>, i: int, path: Seq<char>, x: Seq<char>)
    requires
        e.kind == Kind::Vitest,
        0 <= i < ls.len(),
        ({
            let line = split_prefix_spec(e, ls[i]).1;
            let t = trim_start(line);
            &&& !(t.len() > 0 && (t[0] == '+' || t[0] == '-'))
            &&& regex_finds(e.line.source(), line)
            &&& regex_group(e.line.source(), line, "path"@) == Some(path)
            &&& (regex_group(e.line.source(), line, "pipe"@) == Some(x)
                || (regex_group(e.line.source(), line, "pipe"@) is None
                    && regex_group(e.line.source(), line, "bare"@) == Some(x)))
        }),
    ensures
        exists|k: int| 0 <= k < extract_upto(e, ls, ls.len() as int).len() && {
            let r = #[trigger] extract_upto(e, ls, ls.len() as int)[k];
            let line = split_prefix_spec(e, ls[i]).1;
            let title = regex_group(e.line.source(), line, "title"@);
            &&& r.0 == path
            &&& r.1 == Some(trim(x))
            &&& title is None ==> r.2 is None
            &&& title matches Some(t) ==> (rfind_sub(t, " > "@) is None && trim(t).len() > 0 ==> r.2 == Some(trim(t)))
        },
{
    lemma_extract_keeps(e, ls, i, ls.len() as int);
    let v = found_at(e, ls, i).unwrap();
    assert(v.0 == path && v.1 == Some(trim(x)));
    let r = extract_upto(e, ls, ls.len() as int);
    let k = choose|k: int| 0 <= k < r.len() && r[k] == v;
    assert(r[k] == v);
    let line = split_prefix_spec(e, ls[i]).1;
    if let Some(t) = regex_group(e.line.source(), line, "title"@) {
        if rfind_sub(t, " > "@) is None {
            assert(t.skip(0) =~= t);
        }
    }
}

/// Law: a diff line (`+`/`-`, after white space) names no test file.
pub proof fn lemma_diff_lines_name_nothing(e: Extractor, ls: Seq<Seq<char>>, i: int)
    requires
        0 <= i < ls.len(),
        ({
            let t = trim_start(split_prefix_spec(e, ls[i]).1);
            t.len() > 0 && (t[0] == '+' || t[0] == '-')
        }),
    ensures
        found_at(e, ls, i) is None,
{
}

} // verus!
