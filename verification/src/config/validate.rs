//! Rules the types can't express: unique ids, placeholders that exist, and
//! references between sections.
use vstd::prelude::*;

use crate::config::{Config, List};
use crate::pattern::{glob_problem, Pattern};
use crate::strset::{
    contains_str, insert_str, lemma_sorted_texts, sorted_texts, str_set, str_sorted, views_of,
};
use crate::text::{
    chars_of, decimal, first_index, is_blank, lemma_first_index, parse_u64, parse_u64_chars, push_decimal,
    push_str, same_str, split, split_chars, string_range, trim, views,
};

verus! {

#[derive(Debug, Clone, PartialEq, Eq)]
pub struct Problem {
    pub key: String,
    pub message: String,
}

/// A problem as text: its key and its message.
pub open spec fn pview(p: Problem) -> (Seq<char>, Seq<char>) {
    (p.key@, p.message@)
}

pub open spec fn pviews(ps: Seq<Problem>) -> Seq<(Seq<char>, Seq<char>)> {
    ps.map_values(|p: Problem| pview(p))
}

/// The `{name}` style placeholders in `s`, in order, repeats kept: the text
/// between each `{` and the next `}`, unless it is empty or holds a comma
/// (a brace glob like `{ts,tsx}`).
pub open spec fn brace_names(s: Seq<char>) -> Seq<Seq<char>>
    decreases s.len(),
{
    match first_index(s, '{') {
        None => Seq::empty(),
        Some(o) => {
            let after = s.skip(o + 1);
            match first_index(after, '}') {
                None => Seq::empty(),
                Some(c) => {
                    proof {
                        lemma_first_index(s, '{');
                        lemma_first_index(after, '}');
                    }
                    let inner = after.take(c);
                    let here: Seq<Seq<char>> = if inner.len() > 0 && !inner.contains(',') {
                        seq![inner]
                    } else {
                        Seq::empty()
                    };
                    here + brace_names(after.skip(c + 1))
                },
            }
        },
    }
}

/// The placeholders of a pattern, as a set.
pub open spec fn placeholder_set(s: Seq<char>) -> Set<Seq<char>> {
    brace_names(s).to_set()
}

/// The `{name}` style placeholders in a pattern, each once, in order.
pub fn placeholders(pattern: &str) -> (r: Vec<String>)
    ensures
        str_sorted(r@),
        str_set(r@) == placeholder_set(pattern@),
{
    let v = chars_of(pattern);
    let mut found: Vec<String> = Vec::new();
    let mut at: usize = 0;
    proof {
        assert(v@.skip(0) =~= v@);
        assert(str_set(found@) =~= Set::<Seq<char>>::empty());
        assert(Seq::<Seq<char>>::empty().to_set() =~= Set::<Seq<char>>::empty());
    }
    while at <= v.len()
        invariant
            at <= v.len(),
            v@ == pattern@,
            str_sorted(found@),
            brace_names(pattern@).to_set() == str_set(found@) + brace_names(v@.skip(at as int)).to_set(),
        decreases v.len() - at,
    {
        let ghost rest = v@.skip(at as int);
        // the next `{`
        let mut o = at;
        while o < v.len() && v[o] != '{'
            invariant
                at <= o <= v.len(),
                forall|j: int| at <= j < o ==> v@[j] != '{',
            decreases v.len() - o,
        {
            o = o + 1;
        }
        proof {
            lemma_first_index(rest, '{');
        }
        if o == v.len() {
            proof {
                assert(first_index(rest, '{') is None) by {
                    if let Some(k) = first_index(rest, '{') {
                        assert(rest[k] == v@[at + k]);
                    }
                }
                assert(brace_names(rest) =~= Seq::<Seq<char>>::empty());
                assert(brace_names(rest).to_set() =~= Set::<Seq<char>>::empty());
                assert(str_set(found@) + Set::<Seq<char>>::empty() =~= str_set(found@));
            }
            return found;
        }
        proof {
            crate::text::lemma_first_index_at(rest, '{', (o - at) as int);
        }
        let ghost after = rest.skip((o - at) as int + 1);
        proof {
            assert(after =~= v@.skip(o as int + 1));
        }
        let mut c = o + 1;
        while c < v.len() && v[c] != '}'
            invariant
                o < c <= v.len(),
                forall|j: int| o < j < c ==> v@[j] != '}',
            decreases v.len() - c,
        {
            c = c + 1;
        }
        proof {
            lemma_first_index(after, '}');
        }
        if c == v.len() {
            proof {
                assert(first_index(after, '}') is None) by {
                    if let Some(k) = first_index(after, '}') {
                        assert(after[k] == v@[o + 1 + k]);
                    }
                }
                assert(brace_names(rest) =~= Seq::<Seq<char>>::empty());
                assert(brace_names(rest).to_set() =~= Set::<Seq<char>>::empty());
                assert(str_set(found@) + Set::<Seq<char>>::empty() =~= str_set(found@));
            }
            return found;
        }
        proof {
            crate::text::lemma_first_index_at(after, '}', (c - o - 1) as int);
        }
        let inner = string_range(&v, o + 1, c);
        let inner_chars = chars_of(inner.as_str());
        let mut comma = false;
        let mut k: usize = 0;
        while k < inner_chars.len()
            invariant
                k <= inner_chars.len(),
                comma == exists|j: int| 0 <= j < k && inner_chars@[j] == ',',
            decreases inner_chars.len() - k,
        {
            if inner_chars[k] == ',' {
                comma = true;
            }
            k = k + 1;
        }
        let ghost before = found@;
        proof {
            assert(inner@ =~= after.take((c - o - 1) as int));
            assert(after.skip((c - o - 1) as int + 1) =~= v@.skip(c as int + 1));
            assert(comma == inner@.contains(',')) by {
                if comma {
                    let j = choose|j: int| 0 <= j < k && inner_chars@[j] == ',';
                    assert(inner@[j] == ',');
                }
                if inner@.contains(',') {
                    let j = choose|j: int| 0 <= j < inner@.len() && inner@[j] == ',';
                    assert(inner_chars@[j] == ',');
                }
            }
        }
        if inner_chars.len() > 0 && !comma {
            insert_str(&mut found, inner);
            proof {
                let tail = brace_names(v@.skip(c as int + 1));
                assert(brace_names(rest) =~= seq![inner@] + tail);
                assert((seq![inner@] + tail).to_set() =~= tail.to_set().insert(inner@)) by {
                    assert forall|x: Seq<char>| (seq![inner@] + tail).to_set().contains(x) <==> tail.to_set().insert(inner@).contains(x) by {
                        if (seq![inner@] + tail).contains(x) {
                            let j = choose|j: int| 0 <= j < (seq![inner@] + tail).len() && (seq![inner@] + tail)[j] == x;
                            if j > 0 {
                                assert(tail[j - 1] == x);
                            }
                        }
                        if tail.contains(x) {
                            let j = choose|j: int| 0 <= j < tail.len() && tail[j] == x;
                            assert((seq![inner@] + tail)[j + 1] == x);
                        }
                        if x == inner@ {
                            assert((seq![inner@] + tail)[0] == x);
                        }
                    }
                }
                assert(str_set(before) + brace_names(rest).to_set() =~= str_set(found@) + tail.to_set());
            }
        } else {
            proof {
                let tail = brace_names(v@.skip(c as int + 1));
                assert(brace_names(rest) =~= Seq::<Seq<char>>::empty() + tail);
                assert(Seq::<Seq<char>>::empty() + tail =~= tail);
            }
        }
        at = c + 1;
    }
    found
}

/// The ids that occur more than once.
pub open spec fn repeated(ids: Seq<Seq<char>>) -> Set<Seq<char>> {
    Set::new(|x: Seq<char>| exists|i: int, j: int| 0 <= i < j < ids.len() && ids[i] == x && ids[j] == x)
}

/// Every id used more than once, each once, in order.
pub fn duplicates(ids: &[&str]) -> (r: Vec<String>)
    ensures
        str_sorted(r@),
        str_set(r@) == repeated(ids@.map_values(|s: &str| s@)),
{
    let ghost all = ids@.map_values(|s: &str| s@);
    let mut seen: Vec<String> = Vec::new();
    let mut dups: Vec<String> = Vec::new();
    let mut i: usize = 0;
    proof {
        assert(str_set(seen@) =~= Set::<Seq<char>>::empty());
        assert(str_set(dups@) =~= Set::<Seq<char>>::empty());
        assert(repeated(all.take(0)) =~= Set::<Seq<char>>::empty());
    }
    while i < ids.len()
        invariant
            i <= ids.len(),
            all == ids@.map_values(|s: &str| s@),
            str_sorted(seen@),
            str_sorted(dups@),
            str_set(seen@) == all.take(i as int).to_set(),
            str_set(dups@) == repeated(all.take(i as int)),
        decreases ids.len() - i,
    {
        let id = ids[i];
        let was = contains_str(&seen, id);
        let ghost t0 = all.take(i as int);
        let ghost t1 = all.take(i as int + 1);
        proof {
            assert(t1 =~= t0.push(id@));
        }
        if was {
            insert_str(&mut dups, id.to_owned());
        }
        insert_str(&mut seen, id.to_owned());
        proof {
            assert(t0.push(id@).to_set() =~= t0.to_set().insert(id@)) by {
                t0.lemma_push_to_set_commute(id@);
            }
            assert forall|x: Seq<char>| repeated(t1).contains(x) <==> (repeated(t0).contains(x) || (x == id@ && t0.contains(id@))) by {
                if repeated(t1).contains(x) {
                    let (a, b) = choose|a: int, b: int| 0 <= a < b < t1.len() && t1[a] == x && t1[b] == x;
                    if b < i {
                        assert(t0[a] == x && t0[b] == x);
                    } else {
                        assert(t0[a] == x);
                    }
                }
                if repeated(t0).contains(x) {
                    let (a, b) = choose|a: int, b: int| 0 <= a < b < t0.len() && t0[a] == x && t0[b] == x;
                    assert(t1[a] == x && t1[b] == x);
                }
                if x == id@ && t0.contains(id@) {
                    let a = choose|a: int| 0 <= a < t0.len() && t0[a] == id@;
                    assert(t1[a] == x && t1[i as int] == x);
                }
            }
            if was {
                assert(str_set(dups@) =~= repeated(t1));
            } else {
                assert(!t0.contains(id@)) by {
                    if t0.contains(id@) {
                        let a = choose|a: int| 0 <= a < t0.len() && t0[a] == id@;
                        assert(t0.to_set().contains(id@));
                    }
                }
                assert(str_set(dups@) =~= repeated(t1));
            }
        }
        i = i + 1;
    }
    proof {
        assert(all.take(i as int) =~= all);
    }
    dups
}

/// `name[i]`.
pub open spec fn indexed(name: Seq<char>, i: nat) -> Seq<char> {
    name + "["@ + decimal(i) + "]"@
}

fn key_at(name: &str, i: usize) -> (r: String)
    ensures
        r@ == indexed(name@, i as nat),
{
    let mut s = name.to_owned();
    push_str(&mut s, "[");
    push_decimal(&mut s, i as u64);
    push_str(&mut s, "]");
    s
}

fn problem(key: String, message: String) -> (r: Problem)
    ensures
        pview(r) == (key@, message@),
{
    Problem { key, message }
}

fn push_problem(problems: &mut Vec<Problem>, key: String, message: String)
    ensures
        pviews(final(problems)@) == pviews(old(problems)@).push((key@, message@)),
{
    let ghost before = problems@;
    problems.push(Problem { key, message });
    proof {
        assert(pviews(problems@) =~= pviews(before).push((key@, message@)));
    }
}

// ---- [modules.define] ----

pub open spec fn define_problems(i: int, pattern: Seq<char>) -> Seq<(Seq<char>, Seq<char>)> {
    if placeholder_set(pattern).contains("name"@) {
        Seq::empty()
    } else {
        seq![(indexed("modules.define"@, i as nat) + ".pattern"@, "must contain `{name}`"@)]
    }
}

// ---- [[tests.runners]] ----

pub open spec fn runner_problems(i: int, r: crate::config::Runner) -> Seq<(Seq<char>, Seq<char>)> {
    let key = indexed("tests.runners"@, i as nat);
    let command: Seq<(Seq<char>, Seq<char>)> = if r.command@.len() == 0 { seq![(key + ".command"@, "is empty"@)] } else { Seq::empty() };
    let matches: Seq<(Seq<char>, Seq<char>)> = if r.matches@.len() == 0 { seq![(key + ".match"@, "is empty"@)] } else { Seq::empty() };
    command + matches
}

// ---- [[checks]] ----

pub open spec fn check_problems(i: int, c: crate::config::Check) -> Seq<(Seq<char>, Seq<char>)> {
    let key = indexed("checks"@, i as nat);
    let command: Seq<(Seq<char>, Seq<char>)> = if c.command@.len() == 0 { seq![(key + ".command"@, "is empty"@)] } else { Seq::empty() };
    let never: Seq<(Seq<char>, Seq<char>)> = if c.paths@.len() == 0 && c.modules@.len() == 0 {
        seq![(key, "needs `paths` or `modules`, or it never runs"@)]
    } else {
        Seq::empty()
    };
    command + never
}

/// The problems `f` gives each item, in order, flattened.
pub open spec fn each<T>(items: Seq<T>, f: spec_fn(int, T) -> Seq<(Seq<char>, Seq<char>)>) -> Seq<(Seq<char>, Seq<char>)> {
    Seq::new(items.len(), |i: int| f(i, items[i])).flatten()
}

proof fn lemma_each_step<T>(items: Seq<T>, f: spec_fn(int, T) -> Seq<(Seq<char>, Seq<char>)>, i: int)
    requires
        0 <= i < items.len(),
    ensures
        each(items.take(i + 1), f) == each(items.take(i), f) + f(i, items[i]),
{
    let a = Seq::new(items.take(i + 1).len(), |k: int| f(k, items.take(i + 1)[k]));
    let b = Seq::new(items.take(i).len(), |k: int| f(k, items.take(i)[k]));
    assert(a =~= b.push(f(i, items[i])));
    b.lemma_flatten_push(f(i, items[i]));
}

fn define_section(config: &Config, problems: &mut Vec<Problem>)
    ensures
        pviews(final(problems)@) == pviews(old(problems)@) + each(config.modules.define.view_items(),
            |i: int, d: crate::config::ModuleDef| define_problems(i, d.pattern@)),
{
    let defs = config.modules.define.items();
    let ghost f = |i: int, d: crate::config::ModuleDef| define_problems(i, d.pattern@);
    let ghost start = pviews(problems@);
    let mut i: usize = 0;
    proof {
        assert(each(defs@.take(0), f) =~= Seq::<(Seq<char>, Seq<char>)>::empty()) by {
            assert(Seq::new(0, |k: int| f(k, defs@.take(0)[k])) =~= Seq::<Seq<(Seq<char>, Seq<char>)>>::empty());
        }
        assert(start + Seq::<(Seq<char>, Seq<char>)>::empty() =~= start);
    }
    while i < defs.len()
        invariant
            i <= defs.len(),
            defs@ == config.modules.define.view_items(),
            f == |i: int, d: crate::config::ModuleDef| define_problems(i, d.pattern@),
            pviews(problems@) == start + each(defs@.take(i as int), f),
        decreases defs.len() - i,
    {
        let names = placeholders(defs[i].pattern.as_str());
        let has_name = contains_str(&names, "name");
        proof {
            lemma_each_step(defs@, f, i as int);
        }
        if !has_name {
            let key = key_at("modules.define", i);
            let mut k = key;
            push_str(&mut k, ".pattern");
            push_problem(problems, k, "must contain `{name}`".to_owned());
            proof {
                assert(pviews(problems@) =~= start + each(defs@.take(i as int + 1), f));
            }
        } else {
            proof {
                assert(f(i as int, defs@[i as int]) =~= Seq::<(Seq<char>, Seq<char>)>::empty());
                assert(pviews(problems@) =~= start + each(defs@.take(i as int + 1), f));
            }
        }
        i = i + 1;
    }
    proof {
        assert(defs@.take(i as int) =~= defs@);
    }
}


/// Pushes `(key, before + id + after)` for each of `ids`, in order.
fn push_each(problems: &mut Vec<Problem>, key: &str, ids: &Vec<String>, before: &str, after: &str)
    ensures
        pviews(final(problems)@) == pviews(old(problems)@) + views_of(ids@).map_values(
            |id: Seq<char>| (key@, before@ + id + after@)),
{
    let ghost start = pviews(problems@);
    let ghost f = |id: Seq<char>| (key@, before@ + id + after@);
    let mut k: usize = 0;
    proof {
        assert(views_of(ids@).take(0).map_values(f) =~= Seq::<(Seq<char>, Seq<char>)>::empty());
        assert(start + Seq::<(Seq<char>, Seq<char>)>::empty() =~= start);
    }
    while k < ids.len()
        invariant
            k <= ids.len(),
            f == |id: Seq<char>| (key@, before@ + id + after@),
            pviews(problems@) == start + views_of(ids@).take(k as int).map_values(f),
        decreases ids.len() - k,
    {
        let mut m = before.to_owned();
        push_str(&mut m, ids[k].as_str());
        push_str(&mut m, after);
        push_problem(problems, key.to_owned(), m);
        proof {
            assert(views_of(ids@).take(k as int + 1).map_values(f)
                =~= views_of(ids@).take(k as int).map_values(f).push(f(ids@[k as int]@)));
            assert(pviews(problems@) =~= start + views_of(ids@).take(k as int + 1).map_values(f));
        }
        k = k + 1;
    }
    proof {
        assert(views_of(ids@).take(k as int) =~= views_of(ids@));
    }
}

/// The strings of `names` that `drop` doesn't hold, in order.
fn without(names: &Vec<String>, drop: &Vec<String>) -> (r: Vec<String>)
    requires
        str_sorted(names@),
        str_sorted(drop@),
    ensures
        str_sorted(r@),
        str_set(r@) == str_set(names@).difference(str_set(drop@)),
{
    let mut out: Vec<String> = Vec::new();
    let mut k: usize = 0;
    proof {
        assert(str_set(out@) =~= Set::<Seq<char>>::empty());
        assert(str_set(names@.take(0)) =~= Set::<Seq<char>>::empty());
    }
    while k < names.len()
        invariant
            k <= names.len(),
            str_sorted(names@),
            str_sorted(drop@),
            str_sorted(out@),
            str_set(out@) == str_set(names@.take(k as int)).difference(str_set(drop@)),
        decreases names.len() - k,
    {
        proof {
            assert(views_of(names@.take(k as int + 1)) =~= views_of(names@.take(k as int)).push(names@[k as int]@));
            views_of(names@.take(k as int)).lemma_push_to_set_commute(names@[k as int]@);
        }
        if !contains_str(drop, names[k].as_str()) {
            insert_str(&mut out, names[k].clone());
        }
        proof {
            assert(str_set(out@) =~= str_set(names@.take(k as int + 1)).difference(str_set(drop@)));
        }
        k = k + 1;
    }
    proof {
        assert(names@.take(k as int) =~= names@);
    }
    out
}

/// `pieces` of text as one list of strings, each once, in order.
fn strings_of(items: &[&str]) -> (r: Vec<String>)
    ensures
        str_sorted(r@),
        str_set(r@) == items@.map_values(|s: &str| s@).to_set(),
{
    let mut out: Vec<String> = Vec::new();
    let mut k: usize = 0;
    proof {
        assert(str_set(out@) =~= Set::<Seq<char>>::empty());
        assert(items@.map_values(|s: &str| s@).take(0).to_set() =~= Set::<Seq<char>>::empty());
    }
    while k < items.len()
        invariant
            k <= items.len(),
            str_sorted(out@),
            str_set(out@) == items@.map_values(|s: &str| s@).take(k as int).to_set(),
        decreases items.len() - k,
    {
        insert_str(&mut out, items[k].to_owned());
        proof {
            let all = items@.map_values(|s: &str| s@);
            assert(all.take(k as int + 1) =~= all.take(k as int).push(items@[k as int]@));
            all.take(k as int).lemma_push_to_set_commute(items@[k as int]@);
        }
        k = k + 1;
    }
    proof {
        assert(items@.map_values(|s: &str| s@).take(k as int) =~= items@.map_values(|s: &str| s@));
    }
    out
}

// ---- fairlead: the version pin ----

/// This version of Fairlead.
pub const FAIRLEAD_VERSION: &'static str = "0.2.0";

/// A dotted version's numbers, if each part is one.
pub open spec fn parse_version(v: Seq<char>) -> Option<Seq<int>> {
    let parts = split(v, '.');
    if forall|i: int| 0 <= i < parts.len() ==> (#[trigger] parse_u64(parts[i])) is Some {
        Some(parts.map_values(|p: Seq<char>| parse_u64(p).unwrap()))
    } else {
        None
    }
}

/// `a < b` as `Vec<u64>` compares: item by item, a prefix first.
pub open spec fn lex_lt(a: Seq<int>, b: Seq<int>) -> bool
    decreases a.len(),
{
    if a.len() == 0 {
        b.len() > 0
    } else if b.len() == 0 {
        false
    } else if a[0] != b[0] {
        a[0] < b[0]
    } else {
        lex_lt(a.drop_first(), b.drop_first())
    }
}

pub open spec fn version_problems(pin: Option<String>, have_text: Seq<char>) -> Seq<(Seq<char>, Seq<char>)> {
    match pin {
        None => Seq::empty(),
        Some(pin) => match (parse_version(pin@), parse_version(have_text)) {
            (Some(want), Some(have)) => {
                let m = if want.len() < have.len() { want.len() } else { have.len() };
                if lex_lt(have.take(m as int), want) {
                    seq![("fairlead"@, "this config needs Fairlead "@ + pin@ + " or later; this is "@ + have_text)]
                } else {
                    Seq::empty()
                }
            },
            (None, _) => seq![("fairlead"@, "`"@ + pin@ + "` isn't a version like \"0.2\""@)],
            _ => Seq::empty(),
        },
    }
}

fn parse_version_exec(v: &str) -> (r: Option<Vec<u64>>)
    ensures
        match parse_version(v@) {
            Some(ns) => r matches Some(x) && x@.len() == ns.len() && forall|i: int| 0 <= i < ns.len() ==> x@[i] as int == #[trigger] ns[i],
            None => r is None,
        },
{
    let chars = chars_of(v);
    let parts = split_chars(&chars, '.');
    let ghost ps = split(v@, '.');
    let mut out: Vec<u64> = Vec::new();
    let mut i: usize = 0;
    while i < parts.len()
        invariant
            i <= parts.len(),
            ps == split(v@, '.'),
            views(parts@) == ps,
            out.len() == i,
            forall|j: int| 0 <= j < i ==> (#[trigger] parse_u64(ps[j])) is Some && out@[j] as int == parse_u64(ps[j]).unwrap(),
        decreases parts.len() - i,
    {
        proof {
            assert(views(parts@)[i as int] == parts@[i as int]@);
        }
        let ghost before = out@;
        match parse_u64_chars(&parts[i]) {
            Some(x) => out.push(x),
            None => return None,
        }
        proof {
            assert forall|j: int| 0 <= j < i + 1 implies (#[trigger] parse_u64(ps[j])) is Some && out@[j] as int == parse_u64(ps[j]).unwrap() by {
                if j < i {
                    assert(out@[j] == before[j]);
                } else {
                    let q = ps[j];
                    let body = if q.len() > 0 && q[0] == '+' { q.drop_first() } else { q };
                    if parse_u64(q) is Some {
                        crate::text::lemma_digits_value_nonneg(body);
                    }
                }
            }
        }
        i = i + 1;
    }
    Some(out)
}

fn lex_lt_exec(a: &Vec<u64>, b: &Vec<u64>, m: usize) -> (r: bool)
    requires
        m <= a.len(),
    ensures
        r == lex_lt(a@.take(m as int).map_values(|x: u64| x as int), b@.map_values(|x: u64| x as int)),
{
    let ghost sa = a@.take(m as int).map_values(|x: u64| x as int);
    let ghost sb = b@.map_values(|x: u64| x as int);
    let mut i: usize = 0;
    proof {
        assert(sa.skip(0) =~= sa);
        assert(sb.skip(0) =~= sb);
    }
    while i < m && i < b.len()
        invariant
            i <= m <= a.len(),
            i <= b.len(),
            sa == a@.take(m as int).map_values(|x: u64| x as int),
            sb == b@.map_values(|x: u64| x as int),
            lex_lt(sa, sb) == lex_lt(sa.skip(i as int), sb.skip(i as int)),
        decreases m - i,
    {
        proof {
            assert(sa.skip(i as int)[0] == a@[i as int] as int);
            assert(sb.skip(i as int)[0] == b@[i as int] as int);
            assert(sa.skip(i as int).drop_first() =~= sa.skip(i as int + 1));
            assert(sb.skip(i as int).drop_first() =~= sb.skip(i as int + 1));
        }
        if a[i] != b[i] {
            return a[i] < b[i];
        }
        i = i + 1;
    }
    i < b.len() && i == m
}

fn version_section(pin: &Option<String>, problems: &mut Vec<Problem>)
    ensures
        pviews(final(problems)@) == pviews(old(problems)@) + version_problems(*pin, FAIRLEAD_VERSION@),
{
    let ghost start = pviews(problems@);
    let pin = match pin {
        Some(p) => p,
        None => {
            proof {
                assert(start + Seq::<(Seq<char>, Seq<char>)>::empty() =~= start);
            }
            return;
        },
    };
    let want = parse_version_exec(pin.as_str());
    let have = parse_version_exec(FAIRLEAD_VERSION);
    match (want, have) {
        (Some(want), Some(have)) => {
            let m = if want.len() < have.len() { want.len() } else { have.len() };
            let later = lex_lt_exec(&have, &want, m);
            proof {
                let w = parse_version(pin@).unwrap();
                let h = parse_version(FAIRLEAD_VERSION@).unwrap();
                assert(have@.take(m as int).map_values(|x: u64| x as int) =~= h.take(m as int));
                assert(want@.map_values(|x: u64| x as int) =~= w);
            }
            if later {
                let mut msg = "this config needs Fairlead ".to_owned();
                push_str(&mut msg, pin.as_str());
                push_str(&mut msg, " or later; this is ");
                push_str(&mut msg, FAIRLEAD_VERSION);
                push_problem(problems, "fairlead".to_owned(), msg);
                proof {
                    assert(pviews(problems@) =~= start + version_problems(Some(*pin), FAIRLEAD_VERSION@));
                }
            } else {
                proof {
                    assert(start + Seq::<(Seq<char>, Seq<char>)>::empty() =~= start);
                }
            }
        },
        (None, _) => {
            let mut msg = "`".to_owned();
            push_str(&mut msg, pin.as_str());
            push_str(&mut msg, "` isn't a version like \"0.2\"");
            push_problem(problems, "fairlead".to_owned(), msg);
            proof {
                assert(pviews(problems@) =~= start + version_problems(Some(*pin), FAIRLEAD_VERSION@));
            }
        },
        _ => {
            proof {
                assert(start + Seq::<(Seq<char>, Seq<char>)>::empty() =~= start);
            }
        },
    }
}


// ---- [[tests.runners]], [[checks]]: ids used twice ----

pub open spec fn dup_problems(ids: Seq<Seq<char>>, key: Seq<char>, what: Seq<char>) -> Seq<(Seq<char>, Seq<char>)> {
    sorted_texts(repeated(ids)).map_values(|id: Seq<char>| (key, what + " id `"@ + id + "` is used more than once"@))
}

fn dup_section(ids: &[&str], key: &str, what: &str, problems: &mut Vec<Problem>)
    ensures
        pviews(final(problems)@) == pviews(old(problems)@) + dup_problems(ids@.map_values(|s: &str| s@), key@, what@),
{
    let dups = duplicates(ids);
    let mut before = what.to_owned();
    push_str(&mut before, " id `");
    push_each(problems, key, &dups, before.as_str(), "` is used more than once");
    proof {
        lemma_sorted_texts(dups@);
        let f = |id: Seq<char>| (key@, before@ + id + "` is used more than once"@);
        let g = |id: Seq<char>| (key@, what@ + " id `"@ + id + "` is used more than once"@);
        assert forall|id: Seq<char>| #[trigger] f(id) == g(id) by {
            assert(before@ + id + "` is used more than once"@ =~= what@ + " id `"@ + id + "` is used more than once"@);
        }
        assert(views_of(dups@).map_values(f) =~= views_of(dups@).map_values(g));
    }
}

pub open spec fn cwd_names() -> Set<Seq<char>> {
    Set::empty().insert("module"@).insert("module.id"@)
}

pub open spec fn cwd_problems(i: int, r: crate::config::Runner) -> Seq<(Seq<char>, Seq<char>)> {
    match r.cwd {
        None => Seq::empty(),
        Some(cwd) => sorted_texts(placeholder_set(cwd@).difference(cwd_names())).map_values(
            |n: Seq<char>| (indexed("tests.runners"@, i as nat) + ".cwd"@, "unknown placeholder `{"@ + n + "}`"@)),
    }
}

pub open spec fn runner_ids(c: Config) -> Seq<Seq<char>> {
    c.tests.runners.view_items().map_values(|r: crate::config::Runner| r.id@)
}

pub open spec fn runners_problems(c: Config) -> Seq<(Seq<char>, Seq<char>)> {
    dup_problems(runner_ids(c), "tests.runners"@, "runner"@)
        + each(c.tests.runners.view_items(), |i: int, r: crate::config::Runner| runner_problems(i, r) + cwd_problems(i, r))
}

fn runners_section(config: &Config, problems: &mut Vec<Problem>)
    ensures
        pviews(final(problems)@) == pviews(old(problems)@) + runners_problems(*config),
{
    let runners = config.tests.runners.items();
    let mut ids: Vec<&str> = Vec::new();
    let mut i: usize = 0;
    while i < runners.len()
        invariant
            i <= runners.len(),
            ids@.map_values(|s: &str| s@) == runners@.take(i as int).map_values(|r: crate::config::Runner| r.id@),
        decreases runners.len() - i,
    {
        let ghost before = ids@;
        let id = runners[i].id.as_str();
        ids.push(id);
        proof {
            assert(ids@ == before.push(id));
            assert(ids@.map_values(|s: &str| s@) =~= before.map_values(|s: &str| s@).push(runners@[i as int].id@));
            assert(runners@.take(i as int + 1) =~= runners@.take(i as int).push(runners@[i as int]));
            assert(ids@.map_values(|s: &str| s@) =~= runners@.take(i as int + 1).map_values(|r: crate::config::Runner| r.id@));
        }
        i = i + 1;
    }
    proof {
        assert(runners@.take(i as int) =~= runners@);
    }
    let ghost start = pviews(problems@);
    dup_section(ids.as_slice(), "tests.runners", "runner", problems);
    let ghost mid = pviews(problems@);
    let ghost f = |i: int, r: crate::config::Runner| runner_problems(i, r) + cwd_problems(i, r);
    let mut allowed: Vec<String> = Vec::new();
    proof {
        assert(str_set(allowed@) =~= Set::<Seq<char>>::empty());
    }
    insert_str(&mut allowed, "module".to_owned());
    insert_str(&mut allowed, "module.id".to_owned());
    let mut i: usize = 0;
    proof {
        assert(each(runners@.take(0), f) =~= Seq::<(Seq<char>, Seq<char>)>::empty()) by {
            assert(Seq::new(0, |k: int| f(k, runners@.take(0)[k])) =~= Seq::<Seq<(Seq<char>, Seq<char>)>>::empty());
        }
        assert(mid + Seq::<(Seq<char>, Seq<char>)>::empty() =~= mid);
    }
    while i < runners.len()
        invariant
            i <= runners.len(),
            runners@ == config.tests.runners.view_items(),
            f == |i: int, r: crate::config::Runner| runner_problems(i, r) + cwd_problems(i, r),
            str_sorted(allowed@),
            str_set(allowed@) == cwd_names(),
            pviews(problems@) == mid + each(runners@.take(i as int), f),
        decreases runners.len() - i,
    {
        let r = &runners[i];
        let ghost here = pviews(problems@);
        let key = key_at("tests.runners", i);
        if r.command.len() == 0 {
            let mut k = key.clone();
            push_str(&mut k, ".command");
            push_problem(problems, k, "is empty".to_owned());
        }
        if r.matches.len() == 0 {
            let mut k = key.clone();
            push_str(&mut k, ".match");
            push_problem(problems, k, "is empty".to_owned());
        }
        proof {
            assert(pviews(problems@) =~= here + runner_problems(i as int, *r));
        }
        let ghost here2 = pviews(problems@);
        match &r.cwd {
            Some(cwd) => {
                let names = placeholders(cwd.as_str());
                let unknown = without(&names, &allowed);
                let mut k = key.clone();
                push_str(&mut k, ".cwd");
                push_each(problems, k.as_str(), &unknown, "unknown placeholder `{", "}`");
                proof {
                    lemma_sorted_texts(unknown@);
                }
            },
            None => {
                proof {
                    assert(here2 + Seq::<(Seq<char>, Seq<char>)>::empty() =~= here2);
                }
            },
        }
        proof {
            lemma_each_step(runners@, f, i as int);
            assert(pviews(problems@) =~= mid + each(runners@.take(i as int + 1), f));
        }
        i = i + 1;
    }
    proof {
        assert(runners@.take(i as int) =~= runners@);
        assert(ids@.map_values(|s: &str| s@) == runner_ids(*config));
    }
}


/// No problems.
pub open spec fn none() -> Seq<(Seq<char>, Seq<char>)> {
    Seq::empty()
}

proof fn lemma_each_empty<T>(items: Seq<T>, f: spec_fn(int, T) -> Seq<(Seq<char>, Seq<char>)>)
    ensures
        each(items.take(0), f) == none(),
{
    assert(Seq::new(0, |k: int| f(k, items.take(0)[k])) =~= Seq::<Seq<(Seq<char>, Seq<char>)>>::empty());
}

// ---- [[tests.owners]] ----

pub open spec fn cover_problems(i: int, captured: Set<Seq<char>>, j: int, cover: Seq<char>) -> Seq<(Seq<char>, Seq<char>)> {
    sorted_texts(placeholder_set(cover).difference(captured)).map_values(
        |n: Seq<char>| (indexed(indexed("tests.owners"@, i as nat) + ".covers"@, j as nat), "`{"@ + n + "}` isn't captured by `match`"@))
}

pub open spec fn owner_problems(i: int, o: crate::config::Owner) -> Seq<(Seq<char>, Seq<char>)> {
    each(o.covers@, |j: int, c: String| cover_problems(i, placeholder_set(o.matches@), j, c@))
}

fn owners_section(config: &Config, problems: &mut Vec<Problem>)
    ensures
        pviews(final(problems)@) == pviews(old(problems)@) + each(config.tests.owners.view_items(),
            |i: int, o: crate::config::Owner| owner_problems(i, o)),
{
    let owners = config.tests.owners.items();
    let ghost f = |i: int, o: crate::config::Owner| owner_problems(i, o);
    let ghost start = pviews(problems@);
    let mut i: usize = 0;
    proof {
        lemma_each_empty(owners@, f);
        assert(start + none() =~= start);
    }
    while i < owners.len()
        invariant
            i <= owners.len(),
            owners@ == config.tests.owners.view_items(),
            f == |i: int, o: crate::config::Owner| owner_problems(i, o),
            pviews(problems@) == start + each(owners@.take(i as int), f),
        decreases owners.len() - i,
    {
        let o = &owners[i];
        let captured = placeholders(o.matches.as_str());
        let ghost g = |j: int, c: String| cover_problems(i as int, placeholder_set(o.matches@), j, c@);
        let ghost here = pviews(problems@);
        let mut j: usize = 0;
        proof {
            lemma_each_empty(o.covers@, g);
            assert(here + none() =~= here);
        }
        while j < o.covers.len()
            invariant
                j <= o.covers.len(),
                str_sorted(captured@),
                str_set(captured@) == placeholder_set(o.matches@),
                g == |j: int, c: String| cover_problems(i as int, placeholder_set(o.matches@), j, c@),
                pviews(problems@) == here + each(o.covers@.take(j as int), g),
            decreases o.covers.len() - j,
        {
            let names = placeholders(o.covers[j].as_str());
            let loose = without(&names, &captured);
            let mut key = key_at("tests.owners", i);
            push_str(&mut key, ".covers");
            let key = key_at(key.as_str(), j);
            let ghost mid = pviews(problems@);
            push_each(problems, key.as_str(), &loose, "`{", "}` isn't captured by `match`");
            proof {
                lemma_sorted_texts(loose@);
                lemma_each_step(o.covers@, g, j as int);
                assert(pviews(problems@) =~= here + each(o.covers@.take(j as int + 1), g));
            }
            j = j + 1;
        }
        proof {
            assert(o.covers@.take(j as int) =~= o.covers@);
            lemma_each_step(owners@, f, i as int);
            assert(pviews(problems@) =~= start + each(owners@.take(i as int + 1), f));
        }
        i = i + 1;
    }
    proof {
        assert(owners@.take(i as int) =~= owners@);
    }
}

// ---- [[checks]] ----

pub open spec fn check_ids(c: Config) -> Seq<Seq<char>> {
    c.checks.view_items().map_values(|k: crate::config::Check| k.id@)
}

pub open spec fn checks_problems(c: Config) -> Seq<(Seq<char>, Seq<char>)> {
    dup_problems(check_ids(c), "checks"@, "check"@) + each(c.checks.view_items(), |i: int, k: crate::config::Check| check_problems(i, k))
}

fn checks_section(config: &Config, problems: &mut Vec<Problem>)
    ensures
        pviews(final(problems)@) == pviews(old(problems)@) + checks_problems(*config),
{
    let checks = config.checks.items();
    let mut ids: Vec<&str> = Vec::new();
    let mut i: usize = 0;
    while i < checks.len()
        invariant
            i <= checks.len(),
            ids@.map_values(|s: &str| s@) == checks@.take(i as int).map_values(|k: crate::config::Check| k.id@),
        decreases checks.len() - i,
    {
        let ghost before = ids@;
        let id = checks[i].id.as_str();
        ids.push(id);
        proof {
            assert(ids@ == before.push(id));
            assert(ids@.map_values(|s: &str| s@) =~= before.map_values(|s: &str| s@).push(checks@[i as int].id@));
            assert(checks@.take(i as int + 1) =~= checks@.take(i as int).push(checks@[i as int]));
            assert(ids@.map_values(|s: &str| s@) =~= checks@.take(i as int + 1).map_values(|k: crate::config::Check| k.id@));
        }
        i = i + 1;
    }
    proof {
        assert(checks@.take(i as int) =~= checks@);
    }
    dup_section(ids.as_slice(), "checks", "check", problems);
    let ghost mid = pviews(problems@);
    let ghost f = |i: int, k: crate::config::Check| check_problems(i, k);
    let mut i: usize = 0;
    proof {
        lemma_each_empty(checks@, f);
        assert(mid + none() =~= mid);
    }
    while i < checks.len()
        invariant
            i <= checks.len(),
            checks@ == config.checks.view_items(),
            f == |i: int, k: crate::config::Check| check_problems(i, k),
            pviews(problems@) == mid + each(checks@.take(i as int), f),
        decreases checks.len() - i,
    {
        let c = &checks[i];
        let ghost here = pviews(problems@);
        let key = key_at("checks", i);
        if c.command.len() == 0 {
            let mut k = key.clone();
            push_str(&mut k, ".command");
            push_problem(problems, k, "is empty".to_owned());
        }
        if c.paths.len() == 0 && c.modules.len() == 0 {
            push_problem(problems, key, "needs `paths` or `modules`, or it never runs".to_owned());
        }
        proof {
            assert(pviews(problems@) =~= here + check_problems(i as int, *c));
            lemma_each_step(checks@, f, i as int);
            assert(pviews(problems@) =~= mid + each(checks@.take(i as int + 1), f));
        }
        i = i + 1;
    }
    proof {
        assert(checks@.take(i as int) =~= checks@);
        assert(ids@.map_values(|s: &str| s@) == check_ids(*config));
    }
}

// ---- [replay] ----

pub open spec fn extractors() -> Set<Seq<char>> {
    Set::empty().insert("vitest"@).insert("jest"@).insert("bun"@).insert("regex"@)
}

pub open spec fn failure_problems(i: int, f: crate::config::FailureSource, runners: Set<Seq<char>>) -> Seq<(Seq<char>, Seq<char>)> {
    let key = indexed("replay.failures"@, i as nat);
    let ext: Seq<(Seq<char>, Seq<char>)> = if !extractors().contains(f.extractor@) {
        seq![(key + ".extractor"@, "`"@ + f.extractor@ + "` isn't one of vitest, jest, bun, regex"@)]
    } else {
        none()
    };
    let pat: Seq<(Seq<char>, Seq<char>)> = if f.extractor@ == "regex"@ && f.pattern is None {
        seq![(key + ".pattern"@, "is required with `extractor = \"regex\"`"@)]
    } else {
        none()
    };
    let run: Seq<(Seq<char>, Seq<char>)> = if !runners.contains(f.runner@) {
        seq![(key + ".runner"@, "no runner has id `"@ + f.runner@ + "`"@)]
    } else {
        none()
    };
    ext + pat + run
}

/// `YYYY-MM-DD`.
pub open spec fn is_date(s: Seq<char>) -> bool {
    s.len() == 10 && forall|j: int| 0 <= j < 10 ==> if j == 4 || j == 7 {
        #[trigger] s[j] == '-'
    } else {
        '0' <= s[j] <= '9'
    }
}

/// Every character of `t` is an ASCII digit.
pub open spec fn all_digits(t: Seq<char>) -> bool {
    forall|i: int| 0 <= i < t.len() ==> '0' <= #[trigger] t[i] <= '9'
}

/// Law: a date is exactly four digits, a dash, two digits, a dash and two
/// digits: every such text is one (`2026-12-31`), and a date splits so.
pub proof fn lemma_dates_are_year_month_day(y: Seq<char>, m: Seq<char>, d: Seq<char>, s: Seq<char>)
    ensures
        y.len() == 4 && m.len() == 2 && d.len() == 2 && all_digits(y) && all_digits(m) && all_digits(d)
            ==> is_date(y + seq!['-'] + m + seq!['-'] + d),
        is_date(s) ==> s == s.take(4) + seq!['-'] + s.subrange(5, 7) + seq!['-'] + s.subrange(8, 10)
            && all_digits(s.take(4)) && all_digits(s.subrange(5, 7)) && all_digits(s.subrange(8, 10)),
{
    if y.len() == 4 && m.len() == 2 && d.len() == 2 && all_digits(y) && all_digits(m) && all_digits(d) {
        let t = y + seq!['-'] + m + seq!['-'] + d;
        assert forall|j: int| 0 <= j < 10 implies if j == 4 || j == 7 {
            #[trigger] t[j] == '-'
        } else {
            '0' <= t[j] <= '9'
        } by {
            if j < 4 {
                assert(t[j] == y[j]);
            } else if 4 < j < 7 {
                assert(t[j] == m[j - 5]);
            } else if j > 7 {
                assert(t[j] == d[j - 8]);
            }
        }
    }
    if is_date(s) {
        assert(s =~= s.take(4) + seq!['-'] + s.subrange(5, 7) + seq!['-'] + s.subrange(8, 10)) by {
            assert(s[4] == '-' && s[7] == '-');
        }
        assert forall|i: int| 0 <= i < 4 implies '0' <= #[trigger] s.take(4)[i] <= '9' by {
            assert(s[i] == s.take(4)[i]);
        }
        assert forall|i: int| 0 <= i < 2 implies '0' <= #[trigger] s.subrange(5, 7)[i] <= '9' by {
            assert(s[i + 5] == s.subrange(5, 7)[i]);
        }
        assert forall|i: int| 0 <= i < 2 implies '0' <= #[trigger] s.subrange(8, 10)[i] <= '9' by {
            assert(s[i + 8] == s.subrange(8, 10)[i]);
        }
    }
}

pub open spec fn quarantine_problems(i: int, q: crate::config::Quarantine) -> Seq<(Seq<char>, Seq<char>)> {
    let key = indexed("replay.quarantine"@, i as nat);
    let until: Seq<(Seq<char>, Seq<char>)> = if !is_date(q.until@) {
        seq![(key + ".until"@, "must be a date, YYYY-MM-DD"@)]
    } else {
        none()
    };
    let reason: Seq<(Seq<char>, Seq<char>)> = if trim(q.reason@).len() == 0 {
        seq![(key + ".reason"@, "must give the evidence"@)]
    } else {
        none()
    };
    let path: Seq<(Seq<char>, Seq<char>)> = if trim(q.path@).len() == 0 || q.path@.contains('*') {
        seq![(key + ".path"@, "must name one test file, not a pattern"@)]
    } else {
        none()
    };
    until + reason + path
}

pub open spec fn step_problems(i: int, s: crate::config::CheckStep, checks: Set<Seq<char>>) -> Seq<(Seq<char>, Seq<char>)> {
    if !checks.contains(s.check@) {
        seq![(indexed("replay.checks"@, i as nat) + ".check"@, "no check has id `"@ + s.check@ + "`"@)]
    } else {
        none()
    }
}

pub open spec fn replay_problems(c: Config) -> Seq<(Seq<char>, Seq<char>)> {
    each(c.replay.failures.view_items(), |i: int, f: crate::config::FailureSource| failure_problems(i, f, runner_ids(c).to_set()))
        + each(c.replay.quarantine.view_items(), |i: int, q: crate::config::Quarantine| quarantine_problems(i, q))
        + each(c.replay.checks.view_items(), |i: int, s: crate::config::CheckStep| step_problems(i, s, check_ids(c).to_set()))
}

fn is_date_exec(s: &str) -> (r: bool)
    ensures
        r == is_date(s@),
{
    let v = chars_of(s);
    if v.len() != 10 {
        return false;
    }
    let mut j: usize = 0;
    while j < 10
        invariant
            j <= 10,
            v@ == s@,
            v@.len() == 10,
            forall|k: int| 0 <= k < j ==> if k == 4 || k == 7 { #[trigger] v@[k] == '-' } else { '0' <= v@[k] <= '9' },
        decreases 10 - j,
    {
        let ok = if j == 4 || j == 7 { v[j] == '-' } else { '0' <= v[j] && v[j] <= '9' };
        if !ok {
            return false;
        }
        j = j + 1;
    }
    true
}

fn has_char(s: &str, c: char) -> (r: bool)
    ensures
        r == s@.contains(c),
{
    let v = chars_of(s);
    let mut j: usize = 0;
    while j < v.len()
        invariant
            j <= v.len(),
            v@ == s@,
            forall|k: int| 0 <= k < j ==> v@[k] != c,
        decreases v.len() - j,
    {
        if v[j] == c {
            return true;
        }
        j = j + 1;
    }
    false
}

/// The texts of `ids`, as a sorted set.
fn id_set(ids: &[&str]) -> (r: Vec<String>)
    ensures
        str_sorted(r@),
        str_set(r@) == ids@.map_values(|s: &str| s@).to_set(),
{
    strings_of(ids)
}

fn replay_section(config: &Config, problems: &mut Vec<Problem>)
    ensures
        pviews(final(problems)@) == pviews(old(problems)@) + replay_problems(*config),
{
    // the runner ids and check ids, as sets
    let runners = config.tests.runners.items();
    let mut rids: Vec<String> = Vec::new();
    let mut i: usize = 0;
    proof {
        assert(str_set(rids@) =~= Set::<Seq<char>>::empty());
        assert(runners@.take(0).map_values(|r: crate::config::Runner| r.id@).to_set() =~= Set::<Seq<char>>::empty());
    }
    while i < runners.len()
        invariant
            i <= runners.len(),
            str_sorted(rids@),
            str_set(rids@) == runners@.take(i as int).map_values(|r: crate::config::Runner| r.id@).to_set(),
        decreases runners.len() - i,
    {
        insert_str(&mut rids, runners[i].id.clone());
        proof {
            let all = runners@.map_values(|r: crate::config::Runner| r.id@);
            assert(runners@.take(i as int + 1).map_values(|r: crate::config::Runner| r.id@)
                =~= runners@.take(i as int).map_values(|r: crate::config::Runner| r.id@).push(runners@[i as int].id@));
            runners@.take(i as int).map_values(|r: crate::config::Runner| r.id@).lemma_push_to_set_commute(runners@[i as int].id@);
        }
        i = i + 1;
    }
    proof {
        assert(runners@.take(i as int) =~= runners@);
    }
    let checks = config.checks.items();
    let mut cids: Vec<String> = Vec::new();
    let mut i: usize = 0;
    proof {
        assert(str_set(cids@) =~= Set::<Seq<char>>::empty());
        assert(checks@.take(0).map_values(|k: crate::config::Check| k.id@).to_set() =~= Set::<Seq<char>>::empty());
    }
    while i < checks.len()
        invariant
            i <= checks.len(),
            str_sorted(cids@),
            str_set(cids@) == checks@.take(i as int).map_values(|k: crate::config::Check| k.id@).to_set(),
        decreases checks.len() - i,
    {
        insert_str(&mut cids, checks[i].id.clone());
        proof {
            assert(checks@.take(i as int + 1).map_values(|k: crate::config::Check| k.id@)
                =~= checks@.take(i as int).map_values(|k: crate::config::Check| k.id@).push(checks@[i as int].id@));
            checks@.take(i as int).map_values(|k: crate::config::Check| k.id@).lemma_push_to_set_commute(checks@[i as int].id@);
        }
        i = i + 1;
    }
    proof {
        assert(checks@.take(i as int) =~= checks@);
    }
    let ghost start = pviews(problems@);
    // [[replay.failures]]
    let sources = config.replay.failures.items();
    let ghost f1 = |i: int, f: crate::config::FailureSource| failure_problems(i, f, runner_ids(*config).to_set());
    let mut i: usize = 0;
    proof {
        lemma_each_empty(sources@, f1);
        assert(start + none() =~= start);
    }
    while i < sources.len()
        invariant
            i <= sources.len(),
            sources@ == config.replay.failures.view_items(),
            str_sorted(rids@),
            str_set(rids@) == runner_ids(*config).to_set(),
            f1 == |i: int, f: crate::config::FailureSource| failure_problems(i, f, runner_ids(*config).to_set()),
            pviews(problems@) == start + each(sources@.take(i as int), f1),
        decreases sources.len() - i,
    {
        let src = &sources[i];
        let ghost here = pviews(problems@);
        let key = key_at("replay.failures", i);
        let e = src.extractor.as_str();
        let known = same_str(e, "vitest") || same_str(e, "jest") || same_str(e, "bun") || same_str(e, "regex");
        proof {
            assert(known == extractors().contains(src.extractor@));
        }
        if !known {
            let mut k = key.clone();
            push_str(&mut k, ".extractor");
            let mut m = "`".to_owned();
            push_str(&mut m, e);
            push_str(&mut m, "` isn't one of vitest, jest, bun, regex");
            push_problem(problems, k, m);
        }
        if same_str(e, "regex") && src.pattern.is_none() {
            let mut k = key.clone();
            push_str(&mut k, ".pattern");
            push_problem(problems, k, "is required with `extractor = \"regex\"`".to_owned());
        }
        if !contains_str(&rids, src.runner.as_str()) {
            let mut k = key.clone();
            push_str(&mut k, ".runner");
            let mut m = "no runner has id `".to_owned();
            push_str(&mut m, src.runner.as_str());
            push_str(&mut m, "`");
            push_problem(problems, k, m);
        }
        proof {
            assert(pviews(problems@) =~= here + failure_problems(i as int, *src, runner_ids(*config).to_set()));
            lemma_each_step(sources@, f1, i as int);
            assert(pviews(problems@) =~= start + each(sources@.take(i as int + 1), f1));
        }
        i = i + 1;
    }
    proof {
        assert(sources@.take(i as int) =~= sources@);
    }
    let ghost mid1 = pviews(problems@);
    // [[replay.quarantine]]
    let entries = config.replay.quarantine.items();
    let ghost f2 = |i: int, q: crate::config::Quarantine| quarantine_problems(i, q);
    let mut i: usize = 0;
    proof {
        lemma_each_empty(entries@, f2);
        assert(mid1 + none() =~= mid1);
    }
    while i < entries.len()
        invariant
            i <= entries.len(),
            entries@ == config.replay.quarantine.view_items(),
            f2 == |i: int, q: crate::config::Quarantine| quarantine_problems(i, q),
            pviews(problems@) == mid1 + each(entries@.take(i as int), f2),
        decreases entries.len() - i,
    {
        let q = &entries[i];
        let ghost here = pviews(problems@);
        let key = key_at("replay.quarantine", i);
        if !is_date_exec(q.until.as_str()) {
            let mut k = key.clone();
            push_str(&mut k, ".until");
            push_problem(problems, k, "must be a date, YYYY-MM-DD".to_owned());
        }
        if is_blank(q.reason.as_str()) {
            let mut k = key.clone();
            push_str(&mut k, ".reason");
            push_problem(problems, k, "must give the evidence".to_owned());
        }
        if is_blank(q.path.as_str()) || has_char(q.path.as_str(), '*') {
            let mut k = key.clone();
            push_str(&mut k, ".path");
            push_problem(problems, k, "must name one test file, not a pattern".to_owned());
        }
        proof {
            assert(pviews(problems@) =~= here + quarantine_problems(i as int, *q));
            lemma_each_step(entries@, f2, i as int);
            assert(pviews(problems@) =~= mid1 + each(entries@.take(i as int + 1), f2));
        }
        i = i + 1;
    }
    proof {
        assert(entries@.take(i as int) =~= entries@);
    }
    let ghost mid2 = pviews(problems@);
    // [[replay.checks]]
    let steps = config.replay.checks.items();
    let ghost f3 = |i: int, s: crate::config::CheckStep| step_problems(i, s, check_ids(*config).to_set());
    let mut i: usize = 0;
    proof {
        lemma_each_empty(steps@, f3);
        assert(mid2 + none() =~= mid2);
    }
    while i < steps.len()
        invariant
            i <= steps.len(),
            steps@ == config.replay.checks.view_items(),
            str_sorted(cids@),
            str_set(cids@) == check_ids(*config).to_set(),
            f3 == |i: int, s: crate::config::CheckStep| step_problems(i, s, check_ids(*config).to_set()),
            pviews(problems@) == mid2 + each(steps@.take(i as int), f3),
        decreases steps.len() - i,
    {
        let st = &steps[i];
        let ghost here = pviews(problems@);
        if !contains_str(&cids, st.check.as_str()) {
            let mut k = key_at("replay.checks", i);
            push_str(&mut k, ".check");
            let mut m = "no check has id `".to_owned();
            push_str(&mut m, st.check.as_str());
            push_str(&mut m, "`");
            push_problem(problems, k, m);
        }
        proof {
            assert(pviews(problems@) =~= here + step_problems(i as int, *st, check_ids(*config).to_set()));
            lemma_each_step(steps@, f3, i as int);
            assert(pviews(problems@) =~= mid2 + each(steps@.take(i as int + 1), f3));
        }
        i = i + 1;
    }
    proof {
        assert(steps@.take(i as int) =~= steps@);
        assert(pviews(problems@) =~= start + replay_problems(*config));
    }
}


// ---- [graph]: rule edges and the barrier ----

/// `{name}` is a whole path segment of `glob`.
pub open spec fn whole(glob: Seq<char>, name: Seq<char>) -> bool {
    split(glob, '/').contains(seq!['{'] + name + seq!['}'])
}

/// A `to` glob that names placeholders.
pub open spec fn binds(t: String) -> bool {
    placeholder_set(t@) != Set::<Seq<char>>::empty()
}

/// Every placeholder of `from` is a whole segment there.
pub open spec fn from_side(rule: crate::config::EdgeRule) -> bool {
    forall|n: Seq<char>| #[trigger] placeholder_set(rule.from@).contains(n) ==> whole(rule.from@, n)
}

/// Every placeholder of `from` is a whole segment in every `to` that names
/// any, and one does.
pub open spec fn to_side(rule: crate::config::EdgeRule) -> bool {
    &&& forall|n: Seq<char>, j: int| #[trigger] placeholder_set(rule.from@).contains(n) && 0 <= j < rule.to@.len()
        && binds(#[trigger] rule.to@[j]) ==> whole(rule.to@[j]@, n)
    &&& exists|j: int| 0 <= j < rule.to@.len() && binds(#[trigger] rule.to@[j])
}

pub open spec fn glob_errors(key: Seq<char>, globs: Seq<Seq<char>>) -> Seq<(Seq<char>, Seq<char>)> {
    each(globs, |j: int, g: Seq<char>| match glob_problem(g) {
        Some(e) => seq![(key, e)],
        None => none(),
    })
}

pub open spec fn edge_problems(i: int, rule: crate::config::EdgeRule) -> Seq<(Seq<char>, Seq<char>)> {
    let key = indexed("graph.edges"@, i as nat);
    let names = placeholder_set(rule.from@);
    let a: Seq<(Seq<char>, Seq<char>)> = if rule.to@.len() == 0 { seq![(key + ".to"@, "needs at least one glob"@)] } else { none() };
    let b = each(rule.to@, |j: int, t: String| if binds(t) && placeholder_set(t@) != names {
        seq![(indexed(key + ".to"@, j as nat), "must use the same `{name}`s as `from`, or none"@)]
    } else {
        none()
    });
    let c: Seq<(Seq<char>, Seq<char>)> = if names != Set::<Seq<char>>::empty() && !from_side(rule) && !to_side(rule) {
        seq![(key, "each `{name}` must be a whole path segment in `from`, or in every `to` that uses it"@)]
    } else {
        none()
    };
    a + b + c + glob_errors(key, seq![rule.from@] + rule.to@.map_values(|t: String| t@))
}

pub open spec fn graph_problems(c: Config) -> Seq<(Seq<char>, Seq<char>)> {
    each(c.graph.edges.view_items(), |i: int, r: crate::config::EdgeRule| edge_problems(i, r))
        + each(c.graph.barrier.view_items(), |i: int, g: String| match glob_problem(g@) {
            Some(e) => seq![(indexed("graph.barrier"@, i as nat), e)],
            None => none(),
        })
}

fn whole_exec(glob: &str, name: &str) -> (r: bool)
    ensures
        r == whole(glob@, name@),
{
    let v = chars_of(glob);
    let pieces = split_chars(&v, '/');
    let mut want = "{".to_owned();
    push_str(&mut want, name);
    push_str(&mut want, "}");
    proof {
        reveal_strlit("{");
        reveal_strlit("}");
        assert(want@ =~= seq!['{'] + name@ + seq!['}']);
    }
    let mut k: usize = 0;
    while k < pieces.len()
        invariant
            k <= pieces.len(),
            views(pieces@) == split(glob@, '/'),
            want@ == seq!['{'] + name@ + seq!['}'],
            forall|j: int| 0 <= j < k ==> split(glob@, '/')[j] != want@,
        decreases pieces.len() - k,
    {
        proof {
            assert(views(pieces@)[k as int] == pieces@[k as int]@);
        }
        if crate::text::eq_lit(&pieces[k], want.as_str()) {
            return true;
        }
        k = k + 1;
    }
    false
}

/// Whether two sorted lists hold the same strings.
fn same_set(a: &Vec<String>, b: &Vec<String>) -> (r: bool)
    requires
        str_sorted(a@),
        str_sorted(b@),
    ensures
        r == (str_set(a@) == str_set(b@)),
{
    proof {
        if str_set(a@) == str_set(b@) {
            lemma_sorted_texts(a@);
            lemma_sorted_texts(b@);
        }
    }
    if a.len() != b.len() {
        proof {
            if str_set(a@) == str_set(b@) {
                lemma_sorted_texts(a@);
                lemma_sorted_texts(b@);
                assert(views_of(a@).len() == views_of(b@).len());
            }
        }
        return false;
    }
    let mut k: usize = 0;
    while k < a.len()
        invariant
            k <= a.len() == b.len(),
            str_sorted(a@),
            str_sorted(b@),
            forall|j: int| 0 <= j < k ==> a@[j]@ == b@[j]@,
        decreases a.len() - k,
    {
        if !same_str(a[k].as_str(), b[k].as_str()) {
            proof {
                if str_set(a@) == str_set(b@) {
                    lemma_sorted_texts(a@);
                    lemma_sorted_texts(b@);
                    assert(views_of(a@)[k as int] == views_of(b@)[k as int]);
                }
            }
            return false;
        }
        k = k + 1;
    }
    proof {
        assert(views_of(a@) =~= views_of(b@));
    }
    true
}

fn push_glob_error(problems: &mut Vec<Problem>, key: &str, glob: &str) -> (ok: bool)
    ensures
        pviews(final(problems)@) == pviews(old(problems)@) + match glob_problem(glob@) {
            Some(e) => seq![(key@, e)],
            None => none(),
        },
{
    match Pattern::new(glob) {
        Ok(_) => {
            proof {
                assert(pviews(problems@) + none() =~= pviews(problems@));
            }
            true
        },
        Err(e) => {
            push_problem(problems, key.to_owned(), e);
            false
        },
    }
}

fn edge_section(i: usize, rule: &crate::config::EdgeRule, problems: &mut Vec<Problem>)
    ensures
        pviews(final(problems)@) == pviews(old(problems)@) + edge_problems(i as int, *rule),
{
    let ghost start = pviews(problems@);
    let key = key_at("graph.edges", i);
    let names = placeholders(rule.from.as_str());
    proof {
        if names.len() == 0 {
            assert(str_set(names@) =~= Set::<Seq<char>>::empty());
        } else {
            assert(views_of(names@)[0] == names@[0]@);
            assert(str_set(names@).contains(names@[0]@));
        }
    }
    let mut to_key = key.clone();
    push_str(&mut to_key, ".to");
    if rule.to.len() == 0 {
        push_problem(problems, to_key.clone(), "needs at least one glob".to_owned());
    }
    proof {
        assert(pviews(problems@) =~= start + if rule.to@.len() == 0 { seq![(key@ + ".to"@, "needs at least one glob"@)] } else { none() });
    }
    let ghost after_a = pviews(problems@);
    let ghost fb = |j: int, t: String| if binds(t) && placeholder_set(t@) != placeholder_set(rule.from@) {
        seq![(indexed(key@ + ".to"@, j as nat), "must use the same `{name}`s as `from`, or none"@)]
    } else {
        none()
    };
    let mut j: usize = 0;
    proof {
        lemma_each_empty(rule.to@, fb);
        assert(after_a + none() =~= after_a);
    }
    while j < rule.to.len()
        invariant
            j <= rule.to.len(),
            str_sorted(names@),
            str_set(names@) == placeholder_set(rule.from@),
            to_key@ == key@ + ".to"@,
            fb == |j: int, t: String| if binds(t) && placeholder_set(t@) != placeholder_set(rule.from@) {
                seq![(indexed(key@ + ".to"@, j as nat), "must use the same `{name}`s as `from`, or none"@)]
            } else {
                none()
            },
            pviews(problems@) == after_a + each(rule.to@.take(j as int), fb),
        decreases rule.to.len() - j,
    {
        let here = placeholders(rule.to[j].as_str());
        let ghost before = pviews(problems@);
        proof {
            if here.len() == 0 {
                assert(str_set(here@) =~= Set::<Seq<char>>::empty());
            } else {
                assert(views_of(here@)[0] == here@[0]@);
                assert(str_set(here@).contains(here@[0]@));
            }
        }
        if here.len() > 0 && !same_set(&here, &names) {
            push_problem(problems, key_at(to_key.as_str(), j), "must use the same `{name}`s as `from`, or none".to_owned());
        }
        proof {
            assert(pviews(problems@) =~= before + fb(j as int, rule.to@[j as int]));
            lemma_each_step(rule.to@, fb, j as int);
            assert(pviews(problems@) =~= after_a + each(rule.to@.take(j as int + 1), fb));
        }
        j = j + 1;
    }
    proof {
        assert(rule.to@.take(j as int) =~= rule.to@);
    }
    // which side the placeholders are read from
    let mut from_ok = true;
    let mut k: usize = 0;
    while k < names.len()
        invariant
            k <= names.len(),
            from_ok == forall|q: int| 0 <= q < k ==> whole(rule.from@, (#[trigger] names@[q])@),
        decreases names.len() - k,
    {
        if !whole_exec(rule.from.as_str(), names[k].as_str()) {
            from_ok = false;
        }
        k = k + 1;
    }
    let mut any_bound = false;
    let mut to_ok = true;
    let mut t: usize = 0;
    while t < rule.to.len()
        invariant
            t <= rule.to.len(),
            str_set(names@) == placeholder_set(rule.from@),
            any_bound == exists|q: int| 0 <= q < t && binds(#[trigger] rule.to@[q]),
            to_ok == forall|n: int, q: int| 0 <= n < names.len() && 0 <= q < t && binds(#[trigger] rule.to@[q])
                ==> whole(rule.to@[q]@, (#[trigger] names@[n])@),
        decreases rule.to.len() - t,
    {
        let here = placeholders(rule.to[t].as_str());
        proof {
            if here.len() == 0 {
                assert(str_set(here@) =~= Set::<Seq<char>>::empty());
            } else {
                assert(views_of(here@)[0] == here@[0]@);
                assert(str_set(here@).contains(here@[0]@));
            }
        }
        if here.len() > 0 {
            any_bound = true;
            let mut k: usize = 0;
            let ghost ok_before = to_ok;
            while k < names.len()
                invariant
                    k <= names.len(),
                    t < rule.to.len(),
                    binds(rule.to@[t as int]),
                    to_ok == (ok_before && forall|n: int| 0 <= n < k ==> whole(rule.to@[t as int]@, (#[trigger] names@[n])@)),
                decreases names.len() - k,
            {
                if !whole_exec(rule.to[t].as_str(), names[k].as_str()) {
                    to_ok = false;
                }
                k = k + 1;
            }
        }
        t = t + 1;
    }
    proof {
        let vs = views_of(names@);
        assert(from_ok == from_side(*rule)) by {
            if from_ok {
                assert forall|n: Seq<char>| #[trigger] placeholder_set(rule.from@).contains(n) implies whole(rule.from@, n) by {
                    let q = choose|q: int| 0 <= q < vs.len() && vs[q] == n;
                    assert(names@[q]@ == n);
                }
            } else {
                let q = choose|q: int| 0 <= q < names.len() && !whole(rule.from@, (#[trigger] names@[q])@);
                assert(vs[q] == names@[q]@);
                assert(placeholder_set(rule.from@).contains(names@[q]@));
            }
        }
        assert((to_ok && any_bound) == to_side(*rule)) by {
            if to_ok && any_bound {
                assert forall|n: Seq<char>, q: int| #[trigger] placeholder_set(rule.from@).contains(n) && 0 <= q < rule.to@.len()
                    && binds(#[trigger] rule.to@[q]) implies whole(rule.to@[q]@, n) by {
                    let p = choose|p: int| 0 <= p < vs.len() && vs[p] == n;
                    assert(names@[p]@ == n);
                }
            }
            if !to_ok {
                let (n, q) = choose|n: int, q: int| 0 <= n < names.len() && 0 <= q < rule.to@.len() && binds(#[trigger] rule.to@[q])
                    && !whole(rule.to@[q]@, (#[trigger] names@[n])@);
                assert(vs[n] == names@[n]@);
                assert(placeholder_set(rule.from@).contains(names@[n]@));
            }
        }
    }
    let ghost after_b = pviews(problems@);
    if names.len() > 0 && !from_ok && !(to_ok && any_bound) {
        push_problem(problems, key.clone(),
            "each `{name}` must be a whole path segment in `from`, or in every `to` that uses it".to_owned());
    }
    proof {
        assert(pviews(problems@) =~= after_b + if placeholder_set(rule.from@) != Set::<Seq<char>>::empty() && !from_side(*rule) && !to_side(*rule) {
            seq![(key@, "each `{name}` must be a whole path segment in `from`, or in every `to` that uses it"@)]
        } else {
            none()
        });
    }
    // each glob compiles
    let ghost after_c = pviews(problems@);
    let ghost globs = seq![rule.from@] + rule.to@.map_values(|t: String| t@);
    let ghost fd = |j: int, g: Seq<char>| match glob_problem(g) {
        Some(e) => seq![(key@, e)],
        None => none(),
    };
    push_glob_error(problems, key.as_str(), rule.from.as_str());
    proof {
        lemma_each_empty(globs, fd);
        lemma_each_step(globs, fd, 0);
        assert(globs.take(1) =~= seq![rule.from@]);
        assert(pviews(problems@) =~= after_c + each(globs.take(1), fd));
    }
    let mut j: usize = 0;
    while j < rule.to.len()
        invariant
            j <= rule.to.len(),
            globs == seq![rule.from@] + rule.to@.map_values(|t: String| t@),
            fd == |j: int, g: Seq<char>| match glob_problem(g) {
                Some(e) => seq![(key@, e)],
                None => none(),
            },
            pviews(problems@) == after_c + each(globs.take(j as int + 1), fd),
        decreases rule.to.len() - j,
    {
        push_glob_error(problems, key.as_str(), rule.to[j].as_str());
        proof {
            assert(globs[j as int + 1] == rule.to@[j as int]@);
            lemma_each_step(globs, fd, j as int + 1);
            assert(pviews(problems@) =~= after_c + each(globs.take(j as int + 2), fd));
        }
        j = j + 1;
    }
    proof {
        assert(globs.take(j as int + 1) =~= globs);
        assert(pviews(problems@) =~= start + edge_problems(i as int, *rule));
    }
}

fn graph_section(config: &Config, problems: &mut Vec<Problem>)
    ensures
        pviews(final(problems)@) == pviews(old(problems)@) + graph_problems(*config),
{
    let ghost start = pviews(problems@);
    let rules = config.graph.edges.items();
    let ghost f = |i: int, r: crate::config::EdgeRule| edge_problems(i, r);
    let mut i: usize = 0;
    proof {
        lemma_each_empty(rules@, f);
        assert(start + none() =~= start);
    }
    while i < rules.len()
        invariant
            i <= rules.len(),
            rules@ == config.graph.edges.view_items(),
            f == |i: int, r: crate::config::EdgeRule| edge_problems(i, r),
            pviews(problems@) == start + each(rules@.take(i as int), f),
        decreases rules.len() - i,
    {
        edge_section(i, &rules[i], problems);
        proof {
            lemma_each_step(rules@, f, i as int);
            assert(pviews(problems@) =~= start + each(rules@.take(i as int + 1), f));
        }
        i = i + 1;
    }
    proof {
        assert(rules@.take(i as int) =~= rules@);
    }
    let ghost mid = pviews(problems@);
    let barrier = config.graph.barrier.items();
    let ghost g = |i: int, b: String| match glob_problem(b@) {
        Some(e) => seq![(indexed("graph.barrier"@, i as nat), e)],
        None => none(),
    };
    let mut i: usize = 0;
    proof {
        lemma_each_empty(barrier@, g);
        assert(mid + none() =~= mid);
    }
    while i < barrier.len()
        invariant
            i <= barrier.len(),
            barrier@ == config.graph.barrier.view_items(),
            g == |i: int, b: String| match glob_problem(b@) {
                Some(e) => seq![(indexed("graph.barrier"@, i as nat), e)],
                None => none(),
            },
            pviews(problems@) == mid + each(barrier@.take(i as int), g),
        decreases barrier.len() - i,
    {
        let key = key_at("graph.barrier", i);
        push_glob_error(problems, key.as_str(), barrier[i].as_str());
        proof {
            lemma_each_step(barrier@, g, i as int);
            assert(pviews(problems@) =~= mid + each(barrier@.take(i as int + 1), g));
        }
        i = i + 1;
    }
    proof {
        assert(barrier@.take(i as int) =~= barrier@);
    }
}

// ---- [guard] ----

pub open spec fn glob_list(key: Seq<char>, globs: Seq<String>) -> Seq<(Seq<char>, Seq<char>)> {
    each(globs, |i: int, g: String| match glob_problem(g@) {
        Some(e) => seq![(indexed(key, i as nat), e)],
        None => none(),
    })
}

pub open spec fn size_problems(sz: crate::config::SizeRules) -> Seq<(Seq<char>, Seq<char>)> {
    let empty: Seq<(Seq<char>, Seq<char>)> = if sz.files.view_items().len() == 0 {
        seq![("guard.size.files"@, "needs at least one glob"@)]
    } else {
        none()
    };
    let limit: Seq<(Seq<char>, Seq<char>)> = match sz.file_lines {
        None => seq![("guard.size"@, "sets no limit, such as `file_lines`"@)],
        Some(n) => if n == 0 { seq![("guard.size.file_lines"@, "must be at least 1"@)] } else { none() },
    };
    empty + glob_list("guard.size.files"@, sz.files.view_items()) + glob_list("guard.size.exclude"@, sz.exclude.view_items()) + limit
}

pub open spec fn guard_problems(g: crate::config::Guard) -> Seq<(Seq<char>, Seq<char>)> {
    let base: Seq<(Seq<char>, Seq<char>)> = if trim(g.baseline@).len() == 0 { seq![("guard.baseline"@, "must name a file"@)] } else { none() };
    let size: Seq<(Seq<char>, Seq<char>)> = match g.size {
        None => none(),
        Some(sz) => size_problems(sz),
    };
    base + glob_list("guard.exclude"@, g.exclude.view_items()) + size
}

fn glob_list_section(key: &str, globs: &[String], problems: &mut Vec<Problem>)
    ensures
        pviews(final(problems)@) == pviews(old(problems)@) + glob_list(key@, globs@),
{
    let ghost start = pviews(problems@);
    let ghost g = |i: int, b: String| match glob_problem(b@) {
        Some(e) => seq![(indexed(key@, i as nat), e)],
        None => none(),
    };
    let mut i: usize = 0;
    proof {
        lemma_each_empty(globs@, g);
        assert(start + none() =~= start);
    }
    while i < globs.len()
        invariant
            i <= globs.len(),
            g == |i: int, b: String| match glob_problem(b@) {
                Some(e) => seq![(indexed(key@, i as nat), e)],
                None => none(),
            },
            pviews(problems@) == start + each(globs@.take(i as int), g),
        decreases globs.len() - i,
    {
        let k = key_at(key, i);
        push_glob_error(problems, k.as_str(), globs[i].as_str());
        proof {
            lemma_each_step(globs@, g, i as int);
            assert(pviews(problems@) =~= start + each(globs@.take(i as int + 1), g));
        }
        i = i + 1;
    }
    proof {
        assert(globs@.take(i as int) =~= globs@);
    }
}

fn size_section(size: &crate::config::SizeRules, problems: &mut Vec<Problem>)
    ensures
        pviews(final(problems)@) == pviews(old(problems)@) + size_problems(*size),
{
    let ghost start = pviews(problems@);
    if size.files.items().len() == 0 {
        push_problem(problems, "guard.size.files".to_owned(), "needs at least one glob".to_owned());
    }
    let ghost a = pviews(problems@);
    glob_list_section("guard.size.files", size.files.items(), problems);
    let ghost b = pviews(problems@);
    glob_list_section("guard.size.exclude", size.exclude.items(), problems);
    let ghost c = pviews(problems@);
    match size.file_lines {
        None => push_problem(problems, "guard.size".to_owned(), "sets no limit, such as `file_lines`".to_owned()),
        Some(n) => {
            if n == 0 {
                push_problem(problems, "guard.size.file_lines".to_owned(), "must be at least 1".to_owned());
            }
        },
    }
    proof {
        assert(pviews(problems@) =~= start + size_problems(*size));
    }
}

fn guard_section(config: &Config, problems: &mut Vec<Problem>)
    ensures
        pviews(final(problems)@) == pviews(old(problems)@) + guard_problems(config.guard),
{
    let ghost start = pviews(problems@);
    let g = &config.guard;
    if is_blank(g.baseline.as_str()) {
        push_problem(problems, "guard.baseline".to_owned(), "must name a file".to_owned());
    }
    let ghost a = pviews(problems@);
    glob_list_section("guard.exclude", g.exclude.items(), problems);
    let ghost b = pviews(problems@);
    match &g.size {
        Some(size) => size_section(size, problems),
        None => {},
    }
    proof {
        assert(pviews(problems@) =~= start + guard_problems(config.guard));
    }
}

/// Everything in `config` its types let through but Fairlead can't use, in
/// the order the sections appear.
pub open spec fn problems_of(c: Config) -> Seq<(Seq<char>, Seq<char>)> {
    version_problems(c.fairlead, FAIRLEAD_VERSION@)
        + each(c.modules.define.view_items(), |i: int, d: crate::config::ModuleDef| define_problems(i, d.pattern@))
        + runners_problems(c)
        + each(c.tests.owners.view_items(), |i: int, o: crate::config::Owner| owner_problems(i, o))
        + checks_problems(c)
        + replay_problems(c)
        + graph_problems(c)
        + guard_problems(c.guard)
}

pub fn validate(config: &Config) -> (r: Vec<Problem>)
    ensures
        pviews(r@) == problems_of(*config),
{
    let mut problems: Vec<Problem> = Vec::new();
    proof {
        assert(pviews(problems@) =~= none());
    }
    version_section(&config.fairlead, &mut problems);
    define_section(config, &mut problems);
    runners_section(config, &mut problems);
    owners_section(config, &mut problems);
    checks_section(config, &mut problems);
    replay_section(config, &mut problems);
    graph_section(config, &mut problems);
    guard_section(config, &mut problems);
    proof {
        assert(pviews(problems@) =~= problems_of(*config));
    }
    problems
}

} // verus!
