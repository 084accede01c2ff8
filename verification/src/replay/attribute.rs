//! Matching a printed path to a file in the repository at the failing
//! commit. Runners print paths relative to a project or package, so the
//! match tries, in order: the path as it stands, the path under the named
//! project (a workspace package's name or folder), a unique suffix, then
//! the suffix candidates whose source contains the failing test's title.
//! Anything still ambiguous is unattributed, never guessed.
use vstd::prelude::*;

use crate::replay::extract::Printed;
use crate::text::{
    byte_len, byte_len_upto, chars_of, ends_with_lit, find_from, find_sub, push_str, same_str, starts_with_lit,
    string_range, strip_all, starts_with_at,
};

verus! {

#[derive(Debug, Clone, PartialEq, Eq)]
pub enum Attribution {
    File(String),
    /// No file matched, or several did; the candidates, if any.
    Unattributed(Vec<String>),
}

/// The files at the commit, and its workspace packages as (name, folder).
pub struct Repo<'a> {
    pub files: &'a [String],
    pub packages: &'a [(String, String)],
}

/// An attribution as text.
pub enum AttributionView {
    File(Seq<char>),
    Unattributed(Seq<Seq<char>>),
}

pub open spec fn view_of(a: Attribution) -> AttributionView {
    match a {
        Attribution::File(f) => AttributionView::File(f@),
        Attribution::Unattributed(c) => AttributionView::Unattributed(c@.map_values(|s: String| s@)),
    }
}

/// The repository holds `p`.
pub open spec fn has(files: Seq<String>, p: Seq<char>) -> bool {
    exists|i: int| 0 <= i < files.len() && (#[trigger] files[i])@ == p
}

/// `path` under `dir`.
pub open spec fn under(dir: Seq<char>, path: Seq<char>) -> Seq<char> {
    if dir.len() == 0 { path } else { dir + seq!['/'] + path }
}

/// The first package, from the `k`th on, named or placed at `project`.
pub open spec fn package_named(packages: Seq<(String, String)>, project: Seq<char>, k: int) -> Option<Seq<char>>
    decreases packages.len() - k,
{
    if k >= packages.len() || k < 0 {
        None
    } else if packages[k].0@ == project || packages[k].1@ == project {
        Some(packages[k].1@)
    } else {
        package_named(packages, project, k + 1)
    }
}

/// The folder a printed project names: a package's folder, or the project
/// itself where some file sits under it.
pub open spec fn project_dir(repo_files: Seq<String>, packages: Seq<(String, String)>, project: Seq<char>) -> Option<Seq<char>> {
    match package_named(packages, project, 0) {
        Some(d) => Some(d),
        None => if exists|i: int| 0 <= i < repo_files.len() && (project + seq!['/']).is_prefix_of(#[trigger] repo_files[i]@) {
            Some(project)
        } else {
            None
        },
    }
}

/// The files ending in `/path`, in order, among the first `k`.
pub open spec fn suffixed(files: Seq<String>, path: Seq<char>, k: int) -> Seq<Seq<char>>
    decreases k,
{
    if k <= 0 {
        Seq::empty()
    } else if (seq!['/'] + path).is_suffix_of(files[k - 1]@) {
        suffixed(files, path, k - 1).push(files[k - 1]@)
    } else {
        suffixed(files, path, k - 1)
    }
}

/// `title` occurs in `text`.
#[verifier::opaque]
pub open spec fn text_holds(text: Seq<char>, title: Seq<char>) -> bool {
    find_sub(text, title) is Some
}

/// The candidates among `cands` whose text, where there is one, holds
/// `title`, among the first `k`.
pub open spec fn titled(cands: Seq<Seq<char>>, texts: Seq<Option<String>>, title: Seq<char>, k: int) -> Seq<Seq<char>>
    decreases k,
{
    if k <= 0 {
        Seq::empty()
    } else {
        let t = if k - 1 < texts.len() { texts[k - 1] } else { None };
        if t matches Some(text) && text_holds(text@, title) {
            titled(cands, texts, title, k - 1).push(cands[k - 1])
        } else {
            titled(cands, texts, title, k - 1)
        }
    }
}

/// The path as printed, less any leading `./`.
pub open spec fn printed_path(printed: Printed) -> Seq<char> {
    strip_all(printed.path@, "./"@)
}

/// The candidates by suffix for `printed`, which `attribute` reads the
/// title in when it has to.
pub open spec fn candidates_of(printed: Printed, files: Seq<String>) -> Seq<Seq<char>> {
    suffixed(files, printed_path(printed), files.len() as int)
}

/// Where the printed path is, given the text of each suffix candidate in
/// `texts` (none for one that couldn't be read).
pub open spec fn attribution(printed: Printed, files: Seq<String>, packages: Seq<(String, String)>, texts: Seq<Option<String>>) -> AttributionView {
    let path = printed_path(printed);
    let cands = candidates_of(printed, files);
    let joined = match printed.project {
        Some(p) => match project_dir(files, packages, p@) {
            Some(d) => if has(files, under(d, path)) { Some(under(d, path)) } else { None },
            None => None,
        },
        None => None,
    };
    let named = match printed.title {
        Some(t) => if byte_len(t@) >= 8 { titled(cands, texts, t@, cands.len() as int) } else { Seq::empty() },
        None => Seq::empty(),
    };
    if has(files, path) {
        AttributionView::File(path)
    } else if joined is Some {
        AttributionView::File(joined.unwrap())
    } else if cands.len() == 1 {
        AttributionView::File(cands[0])
    } else if named.len() == 1 {
        AttributionView::File(named[0])
    } else {
        AttributionView::Unattributed(cands)
    }
}

pub(crate) fn has_file(files: &[String], p: &str) -> (r: bool)
    ensures
        r == has(files@, p@),
{
    let mut i: usize = 0;
    while i < files.len()
        invariant
            i <= files.len(),
            forall|j: int| 0 <= j < i ==> (#[trigger] files@[j])@ != p@,
        decreases files.len() - i,
    {
        if same_str(files[i].as_str(), p) {
            return true;
        }
        i = i + 1;
    }
    false
}

fn strip_dot_slash(s: &str) -> (r: String)
    ensures
        r@ == strip_all(s@, "./"@),
{
    let v = chars_of(s);
    let mut i: usize = 0;
    proof {
        reveal_strlit("./");
        assert(v@.skip(0) =~= v@);
    }
    while i < v.len() && v.len() - i >= 2 && v[i] == '.' && v[i + 1] == '/'
        invariant
            i <= v.len(),
            v@ == s@,
            strip_all(s@, "./"@) == strip_all(v@.skip(i as int), "./"@),
        decreases v.len() - i,
    {
        proof {
            reveal_strlit("./");
            assert(v@.skip(i as int).take(2) =~= "./"@);
            assert(v@.skip(i as int).skip(2) =~= v@.skip(i as int + 2));
        }
        i = i + 2;
    }
    proof {
        reveal_strlit("./");
        if i + 2 <= v.len() {
            assert(v@.skip(i as int).take(2) != "./"@) by {
                assert(v@.skip(i as int).take(2)[0] == v@[i as int]);
                assert(v@.skip(i as int).take(2)[1] == v@[i as int + 1]);
            }
        }
    }
    string_range(&v, i, v.len())
}

fn under_exec(dir: &str, path: &str) -> (r: String)
    ensures
        r@ == under(dir@, path@),
{
    if dir.unicode_len() == 0 {
        path.to_owned()
    } else {
        let mut s = dir.to_owned();
        push_str(&mut s, "/");
        push_str(&mut s, path);
        proof {
            reveal_strlit("/");
        }
        s
    }
}

fn project_dir_exec(files: &[String], packages: &[(String, String)], project: &str) -> (r: Option<String>)
    ensures
        match project_dir(files@, packages@, project@) {
            Some(d) => r matches Some(x) && x@ == d,
            None => r is None,
        },
{
    let mut k: usize = 0;
    while k < packages.len()
        invariant
            k <= packages.len(),
            package_named(packages@, project@, 0) == package_named(packages@, project@, k as int),
        decreases packages.len() - k,
    {
        if same_str(packages[k].0.as_str(), project) || same_str(packages[k].1.as_str(), project) {
            return Some(packages[k].1.clone());
        }
        k = k + 1;
    }
    let mut prefix = project.to_owned();
    push_str(&mut prefix, "/");
    let mut i: usize = 0;
    while i < files.len()
        invariant
            i <= files.len(),
            prefix@ == project@ + "/"@,
            package_named(packages@, project@, 0) is None,
            forall|j: int| 0 <= j < i ==> !(project@ + seq!['/']).is_prefix_of(#[trigger] files@[j]@),
        decreases files.len() - i,
    {
        proof {
            reveal_strlit("/");
            assert(project@ + "/"@ =~= project@ + seq!['/']);
        }
        let f = chars_of(files[i].as_str());
        if starts_with_lit(&f, prefix.as_str()) {
            proof {
                assert((project@ + seq!['/']).is_prefix_of(files@[i as int]@));
            }
            return Some(project.to_owned());
        }
        i = i + 1;
    }
    None
}

/// The files that end in `/` and the printed path, in order: the
/// candidates whose text `attribute` may need.
pub fn candidates(printed: &Printed, repo: &Repo) -> (r: Vec<String>)
    ensures
        r@.map_values(|s: String| s@) == candidates_of(*printed, repo.files@),
{
    let path = strip_dot_slash(printed.path.as_str());
    suffix_candidates(repo.files, path.as_str())
}

fn suffix_candidates(files: &[String], path: &str) -> (r: Vec<String>)
    ensures
        r@.map_values(|s: String| s@) == suffixed(files@, path@, files@.len() as int),
{
    let mut suffix = String::new();
    push_str(&mut suffix, "/");
    push_str(&mut suffix, path);
    proof {
        reveal_strlit("/");
        assert(suffix@ =~= seq!['/'] + path@);
    }
    let mut out: Vec<String> = Vec::new();
    let mut i: usize = 0;
    while i < files.len()
        invariant
            i <= files.len(),
            suffix@ == seq!['/'] + path@,
            out@.map_values(|s: String| s@) == suffixed(files@, path@, i as int),
        decreases files.len() - i,
    {
        let f = chars_of(files[i].as_str());
        if ends_with_lit(&f, suffix.as_str()) {
            let ghost before = out@;
            out.push(files[i].clone());
            proof {
                assert(out@.map_values(|s: String| s@) =~= before.map_values(|s: String| s@).push(files@[i as int]@));
            }
        }
        i = i + 1;
    }
    out
}

fn holds_title(text: &str, t: &Vec<char>) -> (r: bool)
    ensures
        r == text_holds(text@, t@),
{
    let v = chars_of(text);
    proof {
        reveal(text_holds);
        assert(v@.skip(0) =~= v@);
    }
    find_from(&v, t, 0).is_some()
}

fn titled_exec(cands: &Vec<String>, texts: &[Option<String>], title: &str) -> (r: Vec<String>)
    ensures
        r@.map_values(|s: String| s@) == titled(cands@.map_values(|s: String| s@), texts@, title@, cands@.len() as int),
{
    let ghost cv = cands@.map_values(|s: String| s@);
    let t = chars_of(title);
    let mut out: Vec<String> = Vec::new();
    let mut k: usize = 0;
    while k < cands.len()
        invariant
            k <= cands.len(),
            cv == cands@.map_values(|s: String| s@),
            t@ == title@,
            out@.map_values(|s: String| s@) == titled(cv, texts@, title@, k as int),
        decreases cands.len() - k,
    {
        let holds = if k < texts.len() {
            match &texts[k] {
                Some(text) => holds_title(text.as_str(), &t),
                None => false,
            }
        } else {
            false
        };
        if holds {
            let ghost before = out@;
            out.push(cands[k].clone());
            proof {
                assert(out@.map_values(|s: String| s@) =~= before.map_values(|s: String| s@).push(cv[k as int]));
            }
        }
        k = k + 1;
    }
    out
}

/// Where the printed path is. `texts` holds the text of each of
/// `candidates(printed, repo)`, in order, or none for one that can't be
/// read; it is looked at only when the suffix leaves more than one.
pub fn attribute(printed: &Printed, repo: &Repo, texts: &[Option<String>]) -> (r: Attribution)
    ensures
        view_of(r) == attribution(*printed, repo.files@, repo.packages@, texts@),
{
    let path = strip_dot_slash(printed.path.as_str());
    if has_file(repo.files, path.as_str()) {
        return Attribution::File(path);
    }
    if let Some(project) = &printed.project {
        if let Some(dir) = project_dir_exec(repo.files, repo.packages, project.as_str()) {
            let joined = under_exec(dir.as_str(), path.as_str());
            if has_file(repo.files, joined.as_str()) {
                return Attribution::File(joined);
            }
        }
    }
    let cands = suffix_candidates(repo.files, path.as_str());
    proof {
        let cv = cands@.map_values(|s: String| s@);
        if cands.len() >= 1 {
            assert(cv[0] == cands@[0]@);
        }
    }
    if cands.len() == 1 {
        return Attribution::File(cands[0].clone());
    }
    if let Some(title) = &printed.title {
        if byte_len_upto(title.as_str(), 8) >= 8 {
            let named = titled_exec(&cands, texts, title.as_str());
            proof {
                let nv = named@.map_values(|s: String| s@);
                if named.len() >= 1 {
                    assert(nv[0] == named@[0]@);
                }
            }
            if named.len() == 1 {
                return Attribution::File(named[0].clone());
            }
        }
    }
    Attribution::Unattributed(cands)
}


proof fn lemma_suffix_tail(x: Seq<char>, y: Seq<char>, z: Seq<char>)
    requires
        (x + y).is_suffix_of(z),
    ensures
        y.is_suffix_of(z),
{
    let xy = x + y;
    assert forall|i: int| 0 <= i < y.len() implies y[i] == z.subrange(z.len() - y.len(), z.len() as int)[i] by {
        assert(xy[x.len() + i] == y[i]);
        assert(xy[x.len() + i] == z.subrange(z.len() - xy.len(), z.len() as int)[x.len() + i]);
    }
    assert(y =~= z.subrange(z.len() - y.len(), z.len() as int));
}

proof fn lemma_suffixed_files(files: Seq<String>, path: Seq<char>, k: int)
    requires
        k <= files.len(),
    ensures
        forall|i: int| 0 <= i < suffixed(files, path, k).len() ==> has(files, #[trigger] suffixed(files, path, k)[i])
            && (seq!['/'] + path).is_suffix_of(suffixed(files, path, k)[i]),
    decreases k,
{
    if k > 0 {
        lemma_suffixed_files(files, path, k - 1);
        let before = suffixed(files, path, k - 1);
        assert forall|i: int| 0 <= i < suffixed(files, path, k).len() implies has(files, #[trigger] suffixed(files, path, k)[i])
            && (seq!['/'] + path).is_suffix_of(suffixed(files, path, k)[i]) by {
            if i < before.len() {
                assert(suffixed(files, path, k)[i] == before[i]);
            } else {
                assert(files[k - 1]@ == suffixed(files, path, k)[i]);
            }
        }
    }
}

proof fn lemma_titled_from(cands: Seq<Seq<char>>, texts: Seq<Option<String>>, title: Seq<char>, k: int)
    requires
        k <= cands.len(),
    ensures
        forall|i: int| 0 <= i < titled(cands, texts, title, k).len() ==> cands.contains(#[trigger] titled(cands, texts, title, k)[i]),
    decreases k,
{
    if k > 0 {
        lemma_titled_from(cands, texts, title, k - 1);
        let before = titled(cands, texts, title, k - 1);
        assert forall|i: int| 0 <= i < titled(cands, texts, title, k).len() implies cands.contains(#[trigger] titled(cands, texts, title, k)[i]) by {
            if i < before.len() {
                assert(titled(cands, texts, title, k)[i] == before[i]);
            } else {
                assert(cands[k - 1] == titled(cands, texts, title, k)[i]);
            }
        }
    }
}

/// Law: a file that attribution names is a file of the repository, and
/// the printed path (less `./`) ends it.
pub proof fn lemma_attribution_names_a_file(printed: Printed, files: Seq<String>, packages: Seq<(String, String)>, texts: Seq<Option<String>>)
    ensures
        attribution(printed, files, packages, texts) matches AttributionView::File(f)
            ==> has(files, f) && printed_path(printed).is_suffix_of(f),
{
    let path = printed_path(printed);
    let cands = candidates_of(printed, files);
    lemma_suffixed_files(files, path, files.len() as int);
    assert(path.is_suffix_of(path)) by {
        assert(path =~= path.subrange(0, path.len() as int));
    }
    if let Some(p) = printed.project {
        if let Some(d) = project_dir(files, packages, p@) {
            if d.len() == 0 {
                assert(under(d, path) == path);
            } else {
                lemma_suffix_tail(d + seq!['/'], path, under(d, path));
                assert((d + seq!['/']) + path == under(d, path));
                assert((d + seq!['/'] + path).is_suffix_of(under(d, path))) by {
                    assert(under(d, path).subrange(0, under(d, path).len() as int) =~= under(d, path));
                }
            }
        }
    }
    if cands.len() == 1 {
        assert(has(files, cands[0]) && (seq!['/'] + path).is_suffix_of(cands[0]));
        lemma_suffix_tail(seq!['/'], path, cands[0]);
    }
    if let Some(t) = printed.title {
        if byte_len(t@) >= 8 {
            lemma_titled_from(cands, texts, t@, cands.len() as int);
            let named = titled(cands, texts, t@, cands.len() as int);
            if named.len() == 1 {
                assert(cands.contains(named[0]));
                let j = choose|j: int| 0 <= j < cands.len() && cands[j] == named[0];
                assert(has(files, cands[j]) && (seq!['/'] + path).is_suffix_of(cands[j]));
                lemma_suffix_tail(seq!['/'], path, cands[j]);
            }
        }
    }
}

} // verus!
