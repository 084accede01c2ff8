//! Regular expressions from the configuration: job names, step names and
//! deny rules. Compiling and searching are the regex crate's.
use vstd::prelude::*;

verus! {

#[verifier::external_type_specification]
#[verifier::external_body]
pub struct ExRegex(regex::Regex);

/// What the regex crate says is wrong with `pattern`, if anything.
pub uninterp spec fn regex_problem(pattern: Seq<char>) -> Option<Seq<char>>;

/// Whether `pattern` matches anywhere in `text`.
pub uninterp spec fn regex_finds(pattern: Seq<char>, text: Seq<char>) -> bool;

/// `regex::Regex::new`. The contract claims only that the error, when there
/// is one, is the crate's message for this pattern.
#[verifier::external_body]
fn compile_regex(pattern: &str) -> (r: Result<regex::Regex, String>)
    ensures
        match r {
            Ok(_) => regex_problem(pattern@) is None,
            Err(e) => regex_problem(pattern@) == Some(e@),
        },
{
    regex::Regex::new(pattern).map_err(|e| e.to_string())
}

/// A compiled regular expression, with its source.
#[derive(Debug)]
pub struct Matcher {
    source: String,
    re: regex::Regex,
}

/// `regex::Regex::is_match`. The regex was compiled from `m.source` by
/// `Matcher::new`, the only way to make one, so the contract states the
/// answer for that source.
#[verifier::external_body]
fn regex_is_match(m: &Matcher, text: &str) -> (r: bool)
    ensures
        r == regex_finds(m.source@, text@),
{
    m.re.is_match(text)
}

impl Matcher {
    pub closed spec fn source(&self) -> Seq<char> {
        self.source@
    }

    pub fn new(pattern: &str) -> (r: Result<Matcher, String>)
        ensures
            match r {
                Ok(m) => m.source() == pattern@ && regex_problem(pattern@) is None,
                Err(e) => regex_problem(pattern@) == Some(e@),
            },
    {
        match compile_regex(pattern) {
            Ok(re) => Ok(Matcher { source: pattern.to_owned(), re }),
            Err(e) => Err(e),
        }
    }

    /// Whether the expression matches anywhere in `text`.
    pub fn is_match(&self, text: &str) -> (r: bool)
        ensures
            r == regex_finds(self.source(), text@),
    {
        regex_is_match(self, text)
    }
}

/// The text of the group `group` in the first match of `pattern` in
/// `text`, if the group took part in it.
pub uninterp spec fn regex_group(pattern: Seq<char>, text: Seq<char>, group: Seq<char>) -> Option<Seq<char>>;

/// The capture groups of `pattern`, in order, with their names: the whole
/// match first, which has none, then each group, named or not.
pub uninterp spec fn regex_capture_names(pattern: Seq<char>) -> Seq<Option<Seq<char>>>;

/// Whether `pattern` has a group named `group`.
pub open spec fn regex_has_group(pattern: Seq<char>, group: Seq<char>) -> bool {
    regex_capture_names(pattern).contains(Some(group))
}

/// `text` with the first match of `pattern` removed.
pub uninterp spec fn regex_cut_first(pattern: Seq<char>, text: Seq<char>) -> Seq<char>;

/// `text` with every match of `pattern`, left to right and not
/// overlapping, removed.
pub uninterp spec fn regex_cut_all(pattern: Seq<char>, text: Seq<char>) -> Seq<char>;

/// `regex::Regex::captures`, then `Captures::name`: none when the regex
/// does not match, else the group's text if it took part.
#[verifier::external_body]
pub(crate) fn regex_group_of(m: &Matcher, text: &str, group: &str) -> (r: Option<Option<String>>)
    ensures
        r is None <==> !regex_finds(m.source(), text@),
        r matches Some(g) ==> match g {
            Some(t) => regex_group(m.source(), text@, group@) == Some(t@),
            None => regex_group(m.source(), text@, group@) is None,
        },
{
    m.re.captures(text).map(|c| c.name(group).map(|g| g.as_str().to_string()))
}

/// The text of the first match of `pattern` in `text`, if any.
pub uninterp spec fn regex_first(pattern: Seq<char>, text: Seq<char>) -> Option<Seq<char>>;

/// `regex::Regex::find`: the text of the leftmost-first match, which there
/// is exactly when the regex matches.
#[verifier::external_body]
pub(crate) fn regex_find(m: &Matcher, text: &str) -> (r: Option<String>)
    ensures
        r is Some <==> regex_finds(m.source(), text@),
        match r {
            Some(t) => regex_first(m.source(), text@) == Some(t@),
            None => regex_first(m.source(), text@) is None,
        },
{
    m.re.find(text).map(|x| x.as_str().to_string())
}

/// Each match of `pattern` in `text`, left to right and not overlapping:
/// its start and end byte and its text.
pub uninterp spec fn regex_matches(pattern: Seq<char>, text: Seq<char>) -> Seq<(usize, usize, Seq<char>)>;

/// `regex::Regex::find_iter`, each match as its start, end and text; the
/// contract names the list.
#[verifier::external_body]
pub(crate) fn regex_find_all(m: &Matcher, text: &str) -> (r: Vec<(usize, usize, String)>)
    ensures
        r@.map_values(|x: (usize, usize, String)| (x.0, x.1, x.2@)) == regex_matches(m.source(), text@),
{
    m.re.find_iter(text).map(|x| (x.start(), x.end(), x.as_str().to_string())).collect()
}

/// Each match of `pattern` in `text`, left to right: its start and end
/// byte, the text of its group 1 if that took part, whether group 2 took
/// part, and the text after the match.
pub uninterp spec fn regex_captures(pattern: Seq<char>, text: Seq<char>) -> Seq<(usize, usize, Option<Seq<char>>, bool, Seq<char>)>;

/// `regex::Regex::captures_iter`, each match as its span, group 1, whether
/// group 2 took part, and the rest of the text after it; the contract names
/// the list.
#[verifier::external_body]
pub(crate) fn regex_captures_all(m: &Matcher, text: &str) -> (r: Vec<(usize, usize, Option<String>, bool, String)>)
    ensures
        r@.map_values(|x: (usize, usize, Option<String>, bool, String)| (x.0, x.1, match x.2 {
            Some(g) => Some(g@),
            None => None,
        }, x.3, x.4@)) == regex_captures(m.source(), text@),
{
    m.re.captures_iter(text).map(|c| { let all = c.get(0).unwrap();
        (all.start(), all.end(), c.get(1).map(|g| g.as_str().to_string()), c.get(2).is_some(), text[all.end()..].to_string()) }).collect()
}

/// The characters with a meaning in a regular expression (as
/// `regex_syntax::is_meta_character` lists them).
pub open spec fn is_meta(c: char) -> bool {
    c == '\\' || c == '.' || c == '+' || c == '*' || c == '?' || c == '(' || c == ')' || c == '|' || c == '['
        || c == ']' || c == '{' || c == '}' || c == '^' || c == '$' || c == '#' || c == '&' || c == '-' || c == '~'
}

/// `text` with a backslash before every regular expression meta character,
/// as `regex::escape` writes it.
pub open spec fn regex_escaped(text: Seq<char>) -> Seq<char>
    decreases text.len(),
{
    if text.len() == 0 {
        Seq::empty()
    } else {
        let c = text.last();
        regex_escaped(text.drop_last()) + if is_meta(c) { seq!['\\', c] } else { seq![c] }
    }
}

/// Escapes every regular expression meta character of `text`.
pub(crate) fn regex_escape(text: &str) -> (r: String)
    ensures
        r@ == regex_escaped(text@),
{
    let v = crate::text::chars_of(text);
    let mut out: Vec<char> = Vec::new();
    let mut i: usize = 0;
    while i < v.len()
        invariant
            i <= v.len(),
            v@ == text@,
            out@ == regex_escaped(v@.take(i as int)),
        decreases v.len() - i,
    {
        let c = v[i];
        if c == '\\' || c == '.' || c == '+' || c == '*' || c == '?' || c == '(' || c == ')' || c == '|' || c == '['
            || c == ']' || c == '{' || c == '}' || c == '^' || c == '$' || c == '#' || c == '&' || c == '-' || c == '~' {
            out.push('\\');
        }
        out.push(c);
        proof {
            assert(v@.take(i + 1).drop_last() =~= v@.take(i as int));
            assert(v@.take(i + 1).last() == c);
            assert(out@ =~= regex_escaped(v@.take(i + 1)));
        }
        i = i + 1;
    }
    proof {
        assert(v@.take(i as int) =~= v@);
    }
    crate::text::string_of(&out)
}

pub open spec fn names_view(v: Seq<Option<String>>) -> Seq<Option<Seq<char>>> {
    v.map_values(|n: Option<String>| match n {
        Some(s) => Some(s@),
        None => None,
    })
}

/// `regex::Regex::capture_names`, each name as an owned string.
#[verifier::external_body]
fn regex_names(m: &Matcher) -> (r: Vec<Option<String>>)
    ensures
        names_view(r@) == regex_capture_names(m.source()),
{
    m.re.capture_names().map(|n| n.map(|s| s.to_string())).collect()
}

/// Whether the expression has a group named `group`.
pub(crate) fn regex_names_group(m: &Matcher, group: &str) -> (r: bool)
    ensures
        r == regex_has_group(m.source(), group@),
{
    let names = regex_names(m);
    let ghost nv = names_view(names@);
    let mut i: usize = 0;
    while i < names.len()
        invariant
            i <= names.len(),
            nv == names_view(names@),
            nv == regex_capture_names(m.source()),
            forall|j: int| 0 <= j < i ==> nv[j] != Some(group@),
        decreases names.len() - i,
    {
        match &names[i] {
            Some(n) => {
                if crate::text::same_str(n.as_str(), group) {
                    proof {
                        assert(nv[i as int] == Some(group@));
                        assert(nv.contains(Some(group@)));
                    }
                    return true;
                }
            },
            None => {},
        }
        proof {
            assert(nv[i as int] != Some(group@));
        }
        i = i + 1;
    }
    proof {
        if nv.contains(Some(group@)) {
            let j = choose|j: int| 0 <= j < nv.len() && nv[j] == Some(group@);
        }
    }
    false
}

/// `regex::Regex::replace` with an empty replacement.
#[verifier::external_body]
pub(crate) fn regex_replace_first(m: &Matcher, text: &str) -> (r: String)
    ensures
        r@ == regex_cut_first(m.source(), text@),
{
    m.re.replace(text, "").into_owned()
}

/// `regex::Regex::replace_all` with an empty replacement.
#[verifier::external_body]
pub(crate) fn regex_replace_all(m: &Matcher, text: &str) -> (r: String)
    ensures
        r@ == regex_cut_all(m.source(), text@),
{
    m.re.replace_all(text, "").into_owned()
}

} // verus!
