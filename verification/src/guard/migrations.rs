//! `[guard.migrations]`: a migration that already exists doesn't change,
//! move or go, since a database that ran it won't run it again; and each
//! one's leading number is unique, so the order they run in is clear.
use vstd::prelude::*;

use crate::config;
use crate::guard::finding::Finding;
use crate::guard::git::Change;
use crate::pattern::{any_matches, compile, first_problem, matches_any, texts, Pattern};
use crate::strset::{insert_str, lemma_sorted_texts, sorted_texts, str_set, str_sorted, views_of};
use crate::text::{
    chars_of, chars_range, join, join_chars, last_index, lemma_last_index, push_str, rfind_char, same_str,
    string_of, views,
};

verus! {

pub struct Migrations {
    files: Vec<Pattern>,
    immutable: bool,
    base: Option<String>,
    unique: bool,
    allow: Vec<Vec<String>>,
}

/// A finding as text: file, line, rule, message, anchor and measure.
pub open spec fn finding_view(f: Finding) -> (Seq<char>, u32, Seq<char>, Seq<char>, Seq<char>, Option<crate::guard::finding::Measure>) {
    (f.file@, f.line, f.rule@, f.message@, f.anchor@, f.measure)
}

pub open spec fn finding_views(fs: Seq<Finding>) -> Seq<(Seq<char>, u32, Seq<char>, Seq<char>, Seq<char>, Option<crate::guard::finding::Measure>)> {
    fs.map_values(|f: Finding| finding_view(f))
}

/// A whole-file finding of `rule` in `path`.
pub open spec fn file_finding(path: Seq<char>, rule: Seq<char>, message: Seq<char>) -> (Seq<char>, u32, Seq<char>, Seq<char>, Seq<char>, Option<crate::guard::finding::Measure>) {
    (path, 1, rule, message, Seq::empty(), None)
}

fn finding(path: &str, rule: &str, message: String) -> (r: Finding)
    ensures
        finding_view(r) == file_finding(path@, rule@, message@),
{
    Finding {
        file: path.to_owned(),
        line: 1,
        rule: rule.to_owned(),
        message,
        anchor: String::new(),
        measure: None,
    }
}

/// A path's file name.
pub open spec fn file_name(p: Seq<char>) -> Seq<char> {
    match last_index(p, '/') {
        Some(i) => p.skip(i + 1),
        None => p,
    }
}

/// How many leading characters of `s` are ASCII digits.
pub open spec fn lead_digits(s: Seq<char>) -> nat
    decreases s.len(),
{
    if s.len() > 0 && '0' <= s[0] <= '9' { 1 + lead_digits(s.drop_first()) } else { 0 }
}

/// A file name's leading digits, if it starts with any.
pub open spec fn number_of(p: Seq<char>) -> Option<Seq<char>> {
    let n = file_name(p);
    if lead_digits(n) > 0 { Some(n.take(lead_digits(n) as int)) } else { None }
}

proof fn lemma_lead_digits(s: Seq<char>)
    ensures
        lead_digits(s) <= s.len(),
        forall|i: int| 0 <= i < lead_digits(s) ==> '0' <= #[trigger] s[i] <= '9',
        lead_digits(s) < s.len() ==> !('0' <= s[lead_digits(s) as int] <= '9'),
    decreases s.len(),
{
    if s.len() > 0 && '0' <= s[0] <= '9' {
        lemma_lead_digits(s.drop_first());
        assert forall|i: int| 0 <= i < lead_digits(s) implies '0' <= #[trigger] s[i] <= '9' by {
            if i > 0 {
                assert(s[i] == s.drop_first()[i - 1]);
            }
        }
    }
}

fn file_name_exec(p: &str) -> (r: Vec<char>)
    ensures
        r@ == file_name(p@),
{
    let v = chars_of(p);
    match rfind_char(&v, '/') {
        Some(i) => {
            proof {
                crate::text::lemma_last_index(v@, '/');
            }
            let r = chars_range(&v, i + 1, v.len());
            proof {
                assert(r@ =~= v@.skip(i as int + 1));
            }
            r
        },
        None => v,
    }
}

fn number_exec(p: &str) -> (r: Option<String>)
    ensures
        match number_of(p@) {
            Some(n) => r matches Some(x) && x@ == n,
            None => r is None,
        },
{
    let n = file_name_exec(p);
    let mut e: usize = 0;
    proof {
        assert(n@.skip(0) =~= n@);
        lemma_lead_digits(n@);
    }
    while e < n.len() && '0' <= n[e] && n[e] <= '9'
        invariant
            e <= n.len(),
            lead_digits(n@) == e + lead_digits(n@.skip(e as int)),
        decreases n.len() - e,
    {
        proof {
            assert(n@.skip(e as int).drop_first() =~= n@.skip(e as int + 1));
        }
        e = e + 1;
    }
    proof {
        if e < n.len() {
            assert(n@.skip(e as int)[0] == n@[e as int]);
        }
    }
    if e == 0 {
        return None;
    }
    let d = chars_range(&n, 0, e);
    proof {
        assert(d@ =~= n@.take(e as int));
    }
    Some(string_of(&d))
}

/// The paths among `paths` that any of `globs` matches.
pub open spec fn covered(globs: Seq<Seq<char>>, paths: Seq<Seq<char>>) -> Seq<Seq<char>> {
    paths.filter(|p: Seq<char>| any_matches(globs, p))
}

/// The numbers the covered paths start with.
pub open spec fn numbers(cov: Seq<Seq<char>>) -> Set<Seq<char>> {
    Set::new(|n: Seq<char>| exists|i: int| 0 <= i < cov.len() && number_of(#[trigger] cov[i]) == Some(n))
}

/// The covered paths numbered `n`, in order.
pub open spec fn group(cov: Seq<Seq<char>>, n: Seq<char>) -> Seq<Seq<char>> {
    cov.filter(|p: Seq<char>| number_of(p) == Some(n))
}

/// The texts of each group.
pub open spec fn groups_view(gs: Seq<Vec<String>>) -> Seq<Seq<Seq<char>>> {
    gs.map_values(|g: Vec<String>| views_of(g@))
}

fn copy_strings(v: &Vec<String>) -> (r: Vec<String>)
    ensures
        views_of(r@) == views_of(v@),
{
    let mut out: Vec<String> = Vec::new();
    let mut i: usize = 0;
    while i < v.len()
        invariant
            i <= v.len(),
            views_of(out@) == views_of(v@.take(i as int)),
        decreases v.len() - i,
    {
        let ghost before = out@;
        let x = crate::text::copy_str(v[i].as_str());
        out.push(x);
        proof {
            assert(out@ == before.push(x));
            assert(views_of(out@) =~= views_of(before).push(x@));
            assert(v@.take(i as int + 1) =~= v@.take(i as int).push(v@[i as int]));
            assert(views_of(v@.take(i as int + 1)) =~= views_of(v@.take(i as int)).push(v@[i as int]@));
        }
        i = i + 1;
    }
    proof {
        assert(v@.take(i as int) =~= v@);
    }
    out
}

fn copy_groups(v: &Vec<Vec<String>>) -> (r: Vec<Vec<String>>)
    ensures
        groups_view(r@) == groups_view(v@),
{
    let mut out: Vec<Vec<String>> = Vec::new();
    let mut i: usize = 0;
    while i < v.len()
        invariant
            i <= v.len(),
            groups_view(out@) == groups_view(v@.take(i as int)),
        decreases v.len() - i,
    {
        let ghost before = out@;
        let x = copy_strings(&v[i]);
        out.push(x);
        proof {
            assert(out@ == before.push(x));
            assert(groups_view(out@) =~= groups_view(before).push(views_of(x@)));
            assert(v@.take(i as int + 1) =~= v@.take(i as int).push(v@[i as int]));
            assert(groups_view(v@.take(i as int + 1)) =~= groups_view(v@.take(i as int)).push(views_of(v@[i as int]@)));
        }
        i = i + 1;
    }
    proof {
        assert(v@.take(i as int) =~= v@);
    }
    out
}

/// Some allowed group holds every one of `names`.
pub open spec fn allowed(allow: Seq<Seq<Seq<char>>>, names: Set<Seq<char>>) -> bool {
    exists|k: int| 0 <= k < allow.len() && names.subset_of((#[trigger] allow[k]).to_set())
}

/// The findings for a shared number: one per file in the group.
pub open spec fn shared(n: Seq<char>, g: Seq<Seq<char>>) -> Seq<(Seq<char>, u32, Seq<char>, Seq<char>, Seq<char>, Option<crate::guard::finding::Measure>)> {
    g.map_values(|p: Seq<char>| file_finding(p, "migration-prefix"@,
        "shares its number "@ + n + " with "@ + join(g.filter(|q: Seq<char>| q != p).map_values(|q: Seq<char>| file_name(q)), ", "@)))
}

pub open spec fn number_findings(allow: Seq<Seq<Seq<char>>>, cov: Seq<Seq<char>>, n: Seq<char>) -> Seq<(Seq<char>, u32, Seq<char>, Seq<char>, Seq<char>, Option<crate::guard::finding::Measure>)> {
    let g = group(cov, n);
    if g.len() > 1 && !allowed(allow, g.map_values(|p: Seq<char>| file_name(p)).to_set()) {
        shared(n, g)
    } else {
        Seq::empty()
    }
}

/// What `prefix_findings` reports for `paths`.
pub open spec fn prefix_spec(m: Migrations, paths: Seq<Seq<char>>) -> Seq<(Seq<char>, u32, Seq<char>, Seq<char>, Seq<char>, Option<crate::guard::finding::Measure>)> {
    if !m.is_unique() {
        Seq::empty()
    } else {
        let cov = covered(m.globs(), paths);
        sorted_texts(numbers(cov)).map_values(|n: Seq<char>| number_findings(m.allow_groups(), cov, n)).flatten()
    }
}

/// The path an edited migration had.
pub open spec fn old_path(c: Change) -> Seq<char> {
    match c.before {
        Some(b) => b@,
        None => c.path@,
    }
}

/// An edit that touches a migration that existed.
pub open spec fn edits(status: char) -> bool {
    status == 'M' || status == 'R' || status == 'D' || status == 'T'
}

pub open spec fn edit_message(c: Change, base: Seq<char>) -> Seq<char> {
    if c.status == 'R' {
        "moves "@ + old_path(c) + " away from where it existed at "@ + base
    } else if c.status == 'D' {
        "deletes a migration that existed at "@ + base
    } else {
        "changes a migration that existed at "@ + base
    }
}

/// What `edit_findings` reports for `changes`.
pub open spec fn edit_spec(m: Migrations, changes: Seq<Change>, existed: Seq<Seq<char>>, base: Seq<char>) -> Seq<(Seq<char>, u32, Seq<char>, Seq<char>, Seq<char>, Option<crate::guard::finding::Measure>)> {
    if !m.is_immutable() {
        Seq::empty()
    } else {
        changes.filter(|c: Change| edits(c.status) && any_matches(m.globs(), old_path(c)) && existed.contains(old_path(c)))
            .map_values(|c: Change| file_finding(c.path@, "migration-edit"@, edit_message(c, base)))
    }
}

impl Migrations {
    pub closed spec fn globs(&self) -> Seq<Seq<char>> {
        texts(self.files@)
    }

    pub closed spec fn is_unique(&self) -> bool {
        self.unique
    }

    pub closed spec fn is_immutable(&self) -> bool {
        self.immutable
    }

    pub closed spec fn allow_groups(&self) -> Seq<Seq<Seq<char>>> {
        groups_view(self.allow@)
    }

    pub closed spec fn base_view(&self) -> Option<Seq<char>> {
        match self.base {
            Some(b) => Some(b@),
            None => None,
        }
    }

    pub fn new(c: &config::Migrations) -> (r: Result<Migrations, String>)
        ensures
            match r {
                Ok(m) => first_problem(c.files.view_items().map_values(|g: String| g@)) is None
                    && m.globs() == c.files.view_items().map_values(|g: String| g@)
                    && m.is_immutable() == c.immutable && m.is_unique() == (c.unique_prefix is Some)
                    && m.base_view() == match c.base { Some(b) => Some(b@), None => None }
                    && m.allow_groups() == match c.unique_prefix { Some(u) => groups_view(u.allow@), None => Seq::empty() },
                Err(e) => first_problem(c.files.view_items().map_values(|g: String| g@)) == Some(e@),
            },
    {
        let allow = match &c.unique_prefix {
            Some(u) => copy_groups(&u.allow),
            None => Vec::new(),
        };
        proof {
            assert(groups_view(Seq::<Vec<String>>::empty()) =~= Seq::empty());
        }
        let files = match compile(c.files.items()) {
            Ok(f) => f,
            Err(e) => return Err(e),
        };
        Ok(Migrations {
            files,
            immutable: c.immutable,
            base: match &c.base {
                Some(b) => Some(b.clone()),
                None => None,
            },
            unique: c.unique_prefix.is_some(),
            allow,
        })
    }

    pub fn base(&self) -> (r: Option<&str>)
        ensures
            match self.base_view() {
                Some(b) => r matches Some(x) && x@ == b,
                None => r is None,
            },
    {
        match &self.base {
            Some(b) => Some(b.as_str()),
            None => None,
        }
    }

    pub fn immutable(&self) -> (r: bool)
        ensures
            r == self.is_immutable(),
    {
        self.immutable
    }

    pub fn covers(&self, path: &str) -> (r: bool)
        ensures
            r == any_matches(self.globs(), path@),
    {
        matches_any(&self.files, path)
    }
}


/// The paths any of `ps` matches.
fn covered_exec(ps: &Vec<Pattern>, paths: &[String]) -> (r: Vec<String>)
    ensures
        views_of(r@) == covered(texts(ps@), views_of(paths@)),
{
    let ghost globs = texts(ps@);
    let ghost all = views_of(paths@);
    let ghost pred = |p: Seq<char>| any_matches(globs, p);
    let mut out: Vec<String> = Vec::new();
    let mut i: usize = 0;
    proof {
        reveal(Seq::filter);
        assert(all.take(0).filter(pred) =~= Seq::<Seq<char>>::empty());
        assert(views_of(out@) =~= Seq::<Seq<char>>::empty());
    }
    while i < paths.len()
        invariant
            i <= paths.len(),
            globs == texts(ps@),
            all == views_of(paths@),
            pred == |p: Seq<char>| any_matches(globs, p),
            views_of(out@) == all.take(i as int).filter(pred),
        decreases paths.len() - i,
    {
        let ghost before = out@;
        proof {
            reveal(Seq::filter);
            assert(all.take(i as int + 1).drop_last() =~= all.take(i as int));
            assert(all.take(i as int + 1).last() == paths@[i as int]@);
        }
        if matches_any(ps, paths[i].as_str()) {
            let x = crate::text::copy_str(paths[i].as_str());
            out.push(x);
            proof {
                assert(views_of(out@) =~= views_of(before).push(x@));
            }
        }
        i = i + 1;
    }
    proof {
        assert(all.take(i as int) =~= all);
    }
    out
}

/// The paths of `cov` numbered `n`.
fn group_exec(cov: &Vec<String>, n: &str) -> (r: Vec<String>)
    ensures
        views_of(r@) == group(views_of(cov@), n@),
{
    let ghost all = views_of(cov@);
    let ghost pred = |p: Seq<char>| number_of(p) == Some(n@);
    let mut out: Vec<String> = Vec::new();
    let mut i: usize = 0;
    proof {
        reveal(Seq::filter);
        assert(all.take(0).filter(pred) =~= Seq::<Seq<char>>::empty());
        assert(views_of(out@) =~= Seq::<Seq<char>>::empty());
    }
    while i < cov.len()
        invariant
            i <= cov.len(),
            all == views_of(cov@),
            pred == |p: Seq<char>| number_of(p) == Some(n@),
            views_of(out@) == all.take(i as int).filter(pred),
        decreases cov.len() - i,
    {
        let ghost before = out@;
        proof {
            reveal(Seq::filter);
            assert(all.take(i as int + 1).drop_last() =~= all.take(i as int));
            assert(all.take(i as int + 1).last() == cov@[i as int]@);
        }
        let hit = match number_exec(cov[i].as_str()) {
            Some(x) => same_str(x.as_str(), n),
            None => false,
        };
        if hit {
            let x = crate::text::copy_str(cov[i].as_str());
            out.push(x);
            proof {
                assert(views_of(out@) =~= views_of(before).push(x@));
            }
        }
        i = i + 1;
    }
    proof {
        assert(all.take(i as int) =~= all);
    }
    out
}

/// The numbers the paths of `cov` start with, each once, in order.
fn numbers_exec(cov: &Vec<String>) -> (r: Vec<String>)
    ensures
        str_sorted(r@),
        str_set(r@) == numbers(views_of(cov@)),
{
    let ghost all = views_of(cov@);
    let mut out: Vec<String> = Vec::new();
    let mut i: usize = 0;
    proof {
        assert(str_set(out@) =~= numbers(all.take(0)));
    }
    while i < cov.len()
        invariant
            i <= cov.len(),
            all == views_of(cov@),
            str_sorted(out@),
            str_set(out@) == numbers(all.take(i as int)),
        decreases cov.len() - i,
    {
        let ghost t0 = all.take(i as int);
        let ghost t1 = all.take(i as int + 1);
        match number_exec(cov[i].as_str()) {
            Some(x) => {
                insert_str(&mut out, x);
            },
            None => {},
        }
        proof {
            assert forall|m: Seq<char>| numbers(t1).contains(m) <==> numbers(t0).contains(m) || number_of(all[i as int]) == Some(m) by {
                if numbers(t1).contains(m) {
                    let j = choose|j: int| 0 <= j < t1.len() && number_of(#[trigger] t1[j]) == Some(m);
                    if j < i {
                        assert(t0[j] == t1[j]);
                    }
                }
                if numbers(t0).contains(m) {
                    let j = choose|j: int| 0 <= j < t0.len() && number_of(#[trigger] t0[j]) == Some(m);
                    assert(t1[j] == t0[j]);
                }
                if number_of(all[i as int]) == Some(m) {
                    assert(t1[i as int] == all[i as int]);
                }
            }
            assert(str_set(out@) =~= numbers(t1));
        }
        i = i + 1;
    }
    proof {
        assert(all.take(i as int) =~= all);
    }
    out
}

/// The file names of `g`.
fn names_of(g: &Vec<String>) -> (r: Vec<String>)
    ensures
        views_of(r@) == views_of(g@).map_values(|p: Seq<char>| file_name(p)),
{
    let mut out: Vec<String> = Vec::new();
    let mut i: usize = 0;
    while i < g.len()
        invariant
            i <= g.len(),
            views_of(out@) == views_of(g@.take(i as int)).map_values(|p: Seq<char>| file_name(p)),
        decreases g.len() - i,
    {
        let ghost before = out@;
        let x = string_of(&file_name_exec(g[i].as_str()));
        out.push(x);
        proof {
            assert(views_of(out@) =~= views_of(before).push(x@));
            assert(g@.take(i as int + 1) =~= g@.take(i as int).push(g@[i as int]));
            assert(views_of(g@.take(i as int + 1)).map_values(|p: Seq<char>| file_name(p))
                =~= views_of(g@.take(i as int)).map_values(|p: Seq<char>| file_name(p)).push(file_name(g@[i as int]@)));
        }
        i = i + 1;
    }
    proof {
        assert(g@.take(i as int) =~= g@);
    }
    out
}

fn holds_text(v: &Vec<String>, x: &str) -> (r: bool)
    ensures
        r == views_of(v@).contains(x@),
{
    let mut i: usize = 0;
    while i < v.len()
        invariant
            i <= v.len(),
            forall|j: int| 0 <= j < i ==> v@[j]@ != x@,
        decreases v.len() - i,
    {
        if same_str(v[i].as_str(), x) {
            proof {
                assert(views_of(v@)[i as int] == x@);
            }
            return true;
        }
        i = i + 1;
    }
    proof {
        if views_of(v@).contains(x@) {
            let j = choose|j: int| 0 <= j < views_of(v@).len() && views_of(v@)[j] == x@;
            assert(v@[j]@ == x@);
        }
    }
    false
}

fn is_allowed(allow: &Vec<Vec<String>>, names: &Vec<String>) -> (r: bool)
    ensures
        r == allowed(groups_view(allow@), views_of(names@).to_set()),
{
    let ghost ns = views_of(names@);
    let mut k: usize = 0;
    while k < allow.len()
        invariant
            k <= allow.len(),
            ns == views_of(names@),
            forall|q: int| 0 <= q < k ==> !ns.to_set().subset_of((#[trigger] groups_view(allow@)[q]).to_set()),
        decreases allow.len() - k,
    {
        let mut all = true;
        let mut j: usize = 0;
        while j < names.len()
            invariant
                j <= names.len(),
                k < allow.len(),
                ns == views_of(names@),
                all == forall|t: int| 0 <= t < j ==> views_of(allow@[k as int]@).contains(#[trigger] ns[t]),
            decreases names.len() - j,
        {
            let here = holds_text(&allow[k], names[j].as_str());
            proof {
                assert(ns[j as int] == names@[j as int]@);
            }
            if !here {
                all = false;
            }
            j = j + 1;
        }
        proof {
            assert(groups_view(allow@)[k as int] == views_of(allow@[k as int]@));
            if all {
                assert forall|x: Seq<char>| ns.to_set().contains(x) implies groups_view(allow@)[k as int].to_set().contains(x) by {
                    let t = choose|t: int| 0 <= t < ns.len() && ns[t] == x;
                    assert(views_of(allow@[k as int]@).contains(ns[t]));
                }
            } else {
                let t = choose|t: int| 0 <= t < names.len() && !views_of(allow@[k as int]@).contains(#[trigger] ns[t]);
                assert(ns.to_set().contains(ns[t]));
            }
        }
        if all {
            return true;
        }
        k = k + 1;
    }
    false
}

/// The file names of the others in `g`.
fn others_of(g: &Vec<String>, p: &str) -> (r: Vec<Vec<char>>)
    ensures
        views(r@) == views_of(g@).filter(|q: Seq<char>| q != p@).map_values(|q: Seq<char>| file_name(q)),
{
    let ghost all = views_of(g@);
    let ghost pred = |q: Seq<char>| q != p@;
    let mut out: Vec<Vec<char>> = Vec::new();
    let mut i: usize = 0;
    proof {
        reveal(Seq::filter);
        assert(all.take(0).filter(pred) =~= Seq::<Seq<char>>::empty());
        assert(views(out@) =~= Seq::<Seq<char>>::empty().map_values(|q: Seq<char>| file_name(q)));
    }
    while i < g.len()
        invariant
            i <= g.len(),
            all == views_of(g@),
            pred == |q: Seq<char>| q != p@,
            views(out@) == all.take(i as int).filter(pred).map_values(|q: Seq<char>| file_name(q)),
        decreases g.len() - i,
    {
        let ghost before = out@;
        proof {
            reveal(Seq::filter);
            assert(all.take(i as int + 1).drop_last() =~= all.take(i as int));
            assert(all.take(i as int + 1).last() == g@[i as int]@);
        }
        if !same_str(g[i].as_str(), p) {
            let x = file_name_exec(g[i].as_str());
            out.push(x);
            proof {
                assert(views(out@) =~= views(before).push(x@));
                assert(all.take(i as int + 1).filter(pred) == all.take(i as int).filter(pred).push(all[i as int]));
                assert(all.take(i as int + 1).filter(pred).map_values(|q: Seq<char>| file_name(q))
                    =~= all.take(i as int).filter(pred).map_values(|q: Seq<char>| file_name(q)).push(file_name(all[i as int])));
            }
        }
        i = i + 1;
    }
    proof {
        assert(all.take(i as int) =~= all);
    }
    out
}

/// One finding per file of `g`, which shares the number `n`.
fn shared_exec(n: &str, g: &Vec<String>) -> (r: Vec<Finding>)
    ensures
        finding_views(r@) == shared(n@, views_of(g@)),
{
    let sep = chars_of(", ");
    let mut out: Vec<Finding> = Vec::new();
    let mut i: usize = 0;
    while i < g.len()
        invariant
            i <= g.len(),
            sep@ == ", "@,
            finding_views(out@) == shared(n@, views_of(g@)).take(i as int),
        decreases g.len() - i,
    {
        let others = others_of(g, g[i].as_str());
        let joined = join_chars(&others, &sep);
        let mut msg = "shares its number ".to_owned();
        push_str(&mut msg, n);
        push_str(&mut msg, " with ");
        push_str(&mut msg, string_of(&joined).as_str());
        let f = finding(g[i].as_str(), "migration-prefix", msg);
        let ghost before = out@;
        out.push(f);
        proof {
            assert(finding_views(out@) =~= finding_views(before).push(finding_view(f)));
            assert(shared(n@, views_of(g@)).take(i as int + 1) =~= shared(n@, views_of(g@)).take(i as int).push(shared(n@, views_of(g@))[i as int]));
            assert(views_of(g@)[i as int] == g@[i as int]@);
        }
        i = i + 1;
    }
    proof {
        assert(shared(n@, views_of(g@)).take(i as int) =~= shared(n@, views_of(g@)));
    }
    out
}

impl Migrations {
    /// Each migration that shares its number with another, unless every
    /// file sharing it is in one allowed group; by number, then in the
    /// order the paths came.
    pub fn prefix_findings(&self, paths: &[String]) -> (r: Vec<Finding>)
        ensures
            finding_views(r@) == prefix_spec(*self, views_of(paths@)),
    {
        if !self.unique {
            return Vec::new();
        }
        let cov = covered_exec(&self.files, paths);
        let nums = numbers_exec(&cov);
        let ghost cv = views_of(cov@);
        let ghost f = |n: Seq<char>| number_findings(self.allow_groups(), cv, n);
        proof {
            lemma_sorted_texts(nums@);
        }
        let mut out: Vec<Finding> = Vec::new();
        let mut k: usize = 0;
        proof {
            assert(views_of(nums@).take(0).map_values(f) =~= Seq::<Seq<(Seq<char>, u32, Seq<char>, Seq<char>, Seq<char>, Option<crate::guard::finding::Measure>)>>::empty());
            assert(finding_views(out@) =~= Seq::empty());
        }
        while k < nums.len()
            invariant
                k <= nums.len(),
                cv == views_of(cov@),
                f == |n: Seq<char>| number_findings(self.allow_groups(), cv, n),
                finding_views(out@) == views_of(nums@).take(k as int).map_values(f).flatten(),
            decreases nums.len() - k,
        {
            let g = group_exec(&cov, nums[k].as_str());
            let ghost before = finding_views(out@);
            if g.len() > 1 {
                let names = names_of(&g);
                if !is_allowed(&self.allow, &names) {
                    let found = shared_exec(nums[k].as_str(), &g);
                    let mut j: usize = 0;
                    while j < found.len()
                        invariant
                            j <= found.len(),
                            finding_views(out@) == before + finding_views(found@.take(j as int)),
                        decreases found.len() - j,
                    {
                        let ghost b2 = out@;
                        let x = found[j].duplicate();
                        out.push(x);
                        proof {
                            assert(finding_views(out@) =~= finding_views(b2).push(finding_view(x)));
                            assert(finding_views(found@.take(j as int + 1)) =~= finding_views(found@.take(j as int)).push(finding_view(found@[j as int])));
                        }
                        j = j + 1;
                    }
                    proof {
                        assert(found@.take(j as int) =~= found@);
                    }
                }
            }
            proof {
                let s = views_of(nums@).take(k as int).map_values(f);
                assert(views_of(nums@).take(k as int + 1).map_values(f) =~= s.push(f(nums@[k as int]@)));
                s.lemma_flatten_push(f(nums@[k as int]@));
                if !(g.len() > 1 && !allowed(self.allow_groups(), views_of(g@).map_values(|p: Seq<char>| file_name(p)).to_set())) {
                    assert(before + Seq::empty() =~= before);
                }
                assert(finding_views(out@) =~= views_of(nums@).take(k as int + 1).map_values(f).flatten());
            }
            k = k + 1;
        }
        proof {
            assert(views_of(nums@).take(k as int) =~= views_of(nums@));
        }
        out
    }

    /// Each change to a migration that existed at the base: `existed`.
    pub fn edit_findings(&self, changes: &[Change], existed: &[String], base: &str) -> (r: Vec<Finding>)
        ensures
            finding_views(r@) == edit_spec(*self, changes@, views_of(existed@), base@),
    {
        if !self.immutable {
            return Vec::new();
        }
        let ghost globs = self.globs();
        let ghost ex = views_of(existed@);
        let ghost pred = |c: Change| edits(c.status) && any_matches(globs, old_path(c)) && ex.contains(old_path(c));
        let ghost fv = |c: Change| file_finding(c.path@, "migration-edit"@, edit_message(c, base@));
        let ex_vec = copy_strings_slice(existed);
        let mut out: Vec<Finding> = Vec::new();
        let mut i: usize = 0;
        proof {
            reveal(Seq::filter);
            assert(changes@.take(0).filter(pred) =~= Seq::<Change>::empty());
            assert(finding_views(out@) =~= Seq::empty());
        }
        while i < changes.len()
            invariant
                i <= changes.len(),
                globs == self.globs(),
                ex == views_of(existed@),
                views_of(ex_vec@) == ex,
                pred == |c: Change| edits(c.status) && any_matches(globs, old_path(c)) && ex.contains(old_path(c)),
                fv == |c: Change| file_finding(c.path@, "migration-edit"@, edit_message(c, base@)),
                finding_views(out@) == changes@.take(i as int).filter(pred).map_values(fv),
            decreases changes.len() - i,
        {
            let c = &changes[i];
            let ghost before = out@;
            proof {
                reveal(Seq::filter);
                assert(changes@.take(i as int + 1).drop_last() =~= changes@.take(i as int));
                assert(changes@.take(i as int + 1).last() == changes@[i as int]);
            }
            let old = match &c.before {
                Some(b) => b.as_str(),
                None => c.path.as_str(),
            };
            let edit = c.status == 'M' || c.status == 'R' || c.status == 'D' || c.status == 'T';
            if edit && matches_any(&self.files, old) && holds_text(&ex_vec, old) {
                let mut what = if c.status == 'R' {
                    let mut m = "moves ".to_owned();
                    push_str(&mut m, old);
                    push_str(&mut m, " away from where it existed at ");
                    m
                } else if c.status == 'D' {
                    "deletes a migration that existed at ".to_owned()
                } else {
                    "changes a migration that existed at ".to_owned()
                };
                push_str(&mut what, base);
                let f = finding(c.path.as_str(), "migration-edit", what);
                out.push(f);
                proof {
                    assert(finding_views(out@) =~= finding_views(before).push(finding_view(f)));
                    assert(changes@.take(i as int + 1).filter(pred).map_values(fv)
                        =~= changes@.take(i as int).filter(pred).map_values(fv).push(fv(*c)));
                }
            }
            i = i + 1;
        }
        proof {
            assert(changes@.take(i as int) =~= changes@);
        }
        out
    }
}

fn copy_strings_slice(v: &[String]) -> (r: Vec<String>)
    ensures
        views_of(r@) == views_of(v@),
{
    let mut out: Vec<String> = Vec::new();
    let mut i: usize = 0;
    while i < v.len()
        invariant
            i <= v.len(),
            views_of(out@) == views_of(v@.take(i as int)),
        decreases v.len() - i,
    {
        let ghost before = out@;
        let x = crate::text::copy_str(v[i].as_str());
        out.push(x);
        proof {
            assert(views_of(out@) =~= views_of(before).push(x@));
            assert(v@.take(i as int + 1) =~= v@.take(i as int).push(v@[i as int]));
            assert(views_of(v@.take(i as int + 1)) =~= views_of(v@.take(i as int)).push(v@[i as int]@));
        }
        i = i + 1;
    }
    proof {
        assert(v@.take(i as int) =~= v@);
    }
    out
}


proof fn lemma_flatten_member<A>(s: Seq<Seq<A>>, j: int)
    requires
        0 <= j < s.flatten().len(),
    ensures
        exists|i: int, k: int| 0 <= i < s.len() && 0 <= k < s[i].len() && s.flatten()[j] == #[trigger] s[i][k],
    decreases s.len(),
{
    if s.len() == 0 {
        assert(s.flatten().len() == 0);
    } else {
        let rest = s.drop_first();
        assert(s.flatten() == s.first() + rest.flatten());
        if j < s.first().len() {
            assert(s.flatten()[j] == s[0][j]);
        } else {
            lemma_flatten_member(rest, j - s.first().len());
            let (i, k) = choose|i: int, k: int| 0 <= i < rest.len() && 0 <= k < rest[i].len()
                && rest.flatten()[j - s.first().len()] == #[trigger] rest[i][k];
            assert(s[i + 1][k] == rest[i][k]);
        }
    }
}

/// Law: each finding of `prefix_findings` is a whole-file finding of the
/// `migration-prefix` rule for a covered migration whose number at least
/// one other covered migration shares, in a group no allowed set holds;
/// a configuration without `unique_prefix` finds nothing.
pub proof fn lemma_prefix_findings_shape(m: Migrations, paths: Seq<Seq<char>>, j: int)
    requires
        0 <= j < prefix_spec(m, paths).len(),
    ensures
        m.is_unique(),
        prefix_spec(m, paths)[j].1 == 1,
        prefix_spec(m, paths)[j].2 == "migration-prefix"@,
        exists|n: Seq<char>| {
            let g = #[trigger] group(covered(m.globs(), paths), n);
            g.len() > 1 && g.contains(prefix_spec(m, paths)[j].0)
                && !allowed(m.allow_groups(), g.map_values(|p: Seq<char>| file_name(p)).to_set())
        },
{
    let cov = covered(m.globs(), paths);
    let nums = sorted_texts(numbers(cov));
    let s = nums.map_values(|n: Seq<char>| number_findings(m.allow_groups(), cov, n));
    lemma_flatten_member(s, j);
    let (i, k) = choose|i: int, k: int| 0 <= i < s.len() && 0 <= k < s[i].len() && s.flatten()[j] == #[trigger] s[i][k];
    let n = nums[i];
    let g = group(cov, n);
    assert(s[i] == number_findings(m.allow_groups(), cov, n));
    assert(g.len() > 1 && !allowed(m.allow_groups(), g.map_values(|p: Seq<char>| file_name(p)).to_set()));
    assert(s[i][k] == shared(n, g)[k]);
    assert(g.contains(g[k]));
}


/// Law: a migration's number is all the ASCII digits its file name starts
/// with, and it has one exactly when the name starts with a digit.
pub proof fn lemma_number_is_leading_digits(p: Seq<char>)
    ensures
        number_of(p) matches Some(n) ==> {
            &&& n.len() > 0
            &&& n.is_prefix_of(file_name(p))
            &&& forall|i: int| 0 <= i < n.len() ==> '0' <= #[trigger] n[i] <= '9'
            &&& n.len() < file_name(p).len() ==> !('0' <= file_name(p)[n.len() as int] <= '9')
        },
        number_of(p) is None <==> (file_name(p).len() == 0 || !('0' <= file_name(p)[0] <= '9')),
{
    let f = file_name(p);
    lemma_lead_digits(f);
    if let Some(n) = number_of(p) {
        assert(n =~= f.take(lead_digits(f) as int));
        assert forall|i: int| 0 <= i < n.len() implies '0' <= #[trigger] n[i] <= '9' by {
            assert(n[i] == f[i]);
        }
    }
}

} // verus!
