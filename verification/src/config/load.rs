//! Finding and merging the config layers. Layers merge as plain values:
//! maps merge by key, lists append unless written as `{ replace = [...] }`,
//! and anything else is overridden. Each value remembers the layer that set
//! it. Reading the files, and parsing TOML and YAML, are the application's.
use vstd::prelude::*;
use crate::sorting::{lemma_insert_by_at, sort_by};
use crate::text::{
    chars_of, chars_range, compare_str, copy_str, find_char, first_index, join, lemma_first_index, lower_all,
    lower_chars, push_char, push_str, same_str, seq_order, starts_with_lit, string_of, trim, trimmed, views,
};

verus! {

pub const PROJECT_NAMES: [&'static str; 3] = ["fairlead.toml", "fairlead.yaml", "fairlead.yml"];

pub const LOCAL_NAMES: [&'static str; 3] = ["fairlead.local.toml", "fairlead.local.yaml", "fairlead.local.yml"];

/// What went wrong loading the config, and where.
#[derive(Debug, Clone, PartialEq)]
pub struct ConfigError {
    /// The file or layer the error came from.
    pub source: String,
    /// The dotted key, when the error is about one.
    pub key: Option<String>,
    pub message: String,
}

/// `source: key: message`, or `source: message` without a key worth naming.
pub open spec fn error_text(e: ConfigError) -> Seq<char> {
    match e.key {
        Some(k) if k@.len() > 0 && k@ != "."@ => e.source@ + ": "@ + k@ + ": "@ + e.message@,
        _ => e.source@ + ": "@ + e.message@,
    }
}

impl ConfigError {
    pub fn new(source: &str, key: Option<String>, message: String) -> (r: ConfigError)
        ensures
            r.source@ == source@,
            r.key == key,
            r.message == message,
    {
        ConfigError { source: copy_str(source), key, message }
    }

    /// The error as one line.
    pub fn to_string(&self) -> (r: String)
        ensures
            r@ == error_text(*self),
    {
        let mut out = copy_str(self.source.as_str());
        push_str(&mut out, ": ");
        match &self.key {
            Some(k) => {
                if k.unicode_len() > 0 && !same_str(k.as_str(), ".") {
                    push_str(&mut out, k.as_str());
                    push_str(&mut out, ": ");
                }
            },
            None => {},
        }
        push_str(&mut out, self.message.as_str());
        out
    }
}

/// What a directory on the walk up to the repository root decides.
#[derive(Debug, Clone, PartialEq, Eq)]
pub enum Found {
    /// Nothing here; look in the parent.
    Walk,
    /// The project file, or none: the repository root holds none.
    Stop(Option<String>),
}

/// `name` under `dir`, as `Path::join` puts it.
pub open spec fn joined(dir: Seq<char>, name: Seq<char>) -> Seq<char> {
    if dir.len() == 0 || dir.last() == '/' { dir + name } else { dir + seq!['/'] + name }
}

pub(crate) fn join_path(dir: &str, name: &str) -> (r: String)
    ensures
        r@ == joined(dir@, name@),
{
    let mut out = copy_str(dir);
    let n = dir.unicode_len();
    if n > 0 && dir.get_char(n - 1) != '/' {
        push_char(&mut out, '/');
    }
    push_str(&mut out, name);
    out
}

/// The names, joined with `, `.
pub open spec fn listed(names: Seq<Seq<char>>) -> Seq<char> {
    join(names, ", "@)
}

fn list_names(names: &[String]) -> (r: String)
    ensures
        r@ == listed(names@.map_values(|s: String| s@)),
{
    let mut pieces: Vec<Vec<char>> = Vec::new();
    let mut i: usize = 0;
    while i < names.len()
        invariant
            i <= names.len(),
            pieces.len() == i,
            forall|k: int| 0 <= k < i ==> pieces@[k]@ == names@[k]@,
        decreases names.len() - i,
    {
        pieces.push(chars_of(names[i].as_str()));
        i = i + 1;
    }
    let sep = chars_of(", ");
    let all = crate::text::join_chars(&pieces, &sep);
    proof {
        assert(views(pieces@) =~= names@.map_values(|s: String| s@));
    }
    string_of(&all)
}

/// What one directory decides, given which project file names it holds
/// and whether it is the repository root: one file is the config, none at
/// the root means there is none, and more than one is an error.
pub open spec fn find_spec(dir: Seq<char>, found: Seq<Seq<char>>, git: bool) -> Result<Option<Option<Seq<char>>>, (Seq<char>, Seq<char>)> {
    if found.len() == 0 {
        if git { Ok(Some(None)) } else { Ok(None) }
    } else if found.len() == 1 {
        Ok(Some(Some(joined(dir, found[0]))))
    } else {
        Err((dir, "more than one config file: "@ + listed(found)))
    }
}

/// One step of the walk from the start directory up to the repository
/// root: `found` holds the project file names present in `dir`, `git`
/// whether `dir` holds `.git`.
pub fn find_step(dir: &str, found: &[String], git: bool) -> (r: Result<Found, ConfigError>)
    ensures
        match find_spec(dir@, found@.map_values(|s: String| s@), git) {
            Ok(None) => r == Ok::<Found, ConfigError>(Found::Walk),
            Ok(Some(None)) => r == Ok::<Found, ConfigError>(Found::Stop(None)),
            Ok(Some(Some(p))) => r matches Ok(Found::Stop(Some(q))) && q@ == p,
            Err((s, m)) => r matches Err(e) && e.source@ == s && e.key is None && e.message@ == m,
        },
{
    if found.len() == 0 {
        if git { Ok(Found::Stop(None)) } else { Ok(Found::Walk) }
    } else if found.len() == 1 {
        Ok(Found::Stop(Some(join_path(dir, found[0].as_str()))))
    } else {
        let mut m = copy_str("more than one config file: ");
        let names = list_names(found);
        push_str(&mut m, names.as_str());
        Err(ConfigError::new(dir, None, m))
    }
}

/// The local file in the project's directory, given which local names it
/// holds; more than one is an error.
pub fn local_step(root: &str, found: &[String]) -> (r: Result<Option<String>, ConfigError>)
    ensures
        found.len() == 0 ==> r == Ok::<Option<String>, ConfigError>(None),
        found.len() == 1 ==> (r matches Ok(Some(p)) && p@ == joined(root@, found@[0]@)),
        found.len() > 1 ==> (r matches Err(e) && e.source@ == root@ && e.key is None
            && e.message@ == "more than one local config file: "@ + listed(found@.map_values(|s: String| s@))),
{
    if found.len() == 0 {
        Ok(None)
    } else if found.len() == 1 {
        Ok(Some(join_path(root, found[0].as_str())))
    } else {
        let mut m = copy_str("more than one local config file: ");
        let names = list_names(found);
        push_str(&mut m, names.as_str());
        Err(ConfigError::new(root, None, m))
    }
}

/// `s` cut at every `__`, left to right.
pub open spec fn pair_at(s: Seq<char>) -> Option<int>
    decreases s.len(),
{
    if s.len() < 2 {
        None
    } else if s[0] == '_' && s[1] == '_' {
        Some(0)
    } else {
        match pair_at(s.drop_first()) {
            Some(i) => Some(i + 1),
            None => None,
        }
    }
}

pub proof fn lemma_pair_at(s: Seq<char>)
    ensures
        pair_at(s) matches Some(i) ==> 0 <= i && i + 2 <= s.len() && s[i] == '_' && s[i + 1] == '_',
    decreases s.len(),
{
    if s.len() >= 2 && !(s[0] == '_' && s[1] == '_') {
        lemma_pair_at(s.drop_first());
    }
}

pub open spec fn split_pairs(s: Seq<char>) -> Seq<Seq<char>>
    decreases s.len(),
{
    match pair_at(s) {
        None => seq![s],
        Some(i) => {
            proof {
                lemma_pair_at(s);
            }
            seq![s.take(i)] + split_pairs(s.skip(i + 2))
        },
    }
}

/// The config key a `FAIRLEAD_` variable sets: the rest of its name cut at
/// each `__`, lower-cased, joined with `.`. A name without `__` isn't
/// config, which leaves room for other variables.
pub open spec fn env_key_spec(name: Seq<char>) -> Option<Seq<char>> {
    if "FAIRLEAD_"@.is_prefix_of(name) && pair_at(name.skip(9)) is Some {
        Some(join(split_pairs(name.skip(9)).map_values(|p: Seq<char>| lower_all(p)), "."@))
    } else {
        None
    }
}

/// Puts `c` in front of the first piece.
pub open spec fn prepend(c: Seq<char>, ps: Seq<Seq<char>>) -> Seq<Seq<char>> {
    ps.update(0, c + ps[0])
}

proof fn lemma_split_pairs_len(s: Seq<char>)
    ensures
        split_pairs(s).len() >= 1,
    decreases s.len(),
{
    if let Some(i) = pair_at(s) {
        lemma_pair_at(s);
        lemma_split_pairs_len(s.skip(i + 2));
    }
}

/// A first character that starts no `__` joins the first piece.
proof fn lemma_split_pairs_step(s: Seq<char>)
    requires
        s.len() > 0,
        !(s.len() >= 2 && s[0] == '_' && s[1] == '_'),
    ensures
        split_pairs(s) == prepend(seq![s[0]], split_pairs(s.drop_first())),
{
    lemma_split_pairs_len(s.drop_first());
    let d = s.drop_first();
    match pair_at(d) {
        None => {
            assert(pair_at(s) is None);
            assert(seq![s[0]] + d =~= s);
            assert(prepend(seq![s[0]], seq![d]) =~= seq![s]);
        },
        Some(i) => {
            lemma_pair_at(d);
            assert(pair_at(s) == Some(i + 1));
            assert(s.skip(i + 3) =~= d.skip(i + 2));
            assert(seq![s[0]] + d.take(i) =~= s.take(i + 1));
            assert(prepend(seq![s[0]], seq![d.take(i)] + split_pairs(d.skip(i + 2))) =~= seq![s.take(i + 1)]
                + split_pairs(s.skip(i + 3)));
        },
    }
}

pub fn env_key(name: &str) -> (r: Option<String>)
    ensures
        match r {
            Some(k) => env_key_spec(name@) == Some(k@),
            None => env_key_spec(name@) is None,
        },
{
    let v = chars_of(name);
    proof {
        reveal_strlit("FAIRLEAD_");
    }
    if !starts_with_lit(&v, "FAIRLEAD_") {
        return None;
    }
    let n = v.len();
    let rest = chars_range(&v, 9, n);
    proof {
        assert(rest@ =~= name@.skip(9));
    }
    let ghost rs = rest@;
    let mut pieces: Vec<Vec<char>> = Vec::new();
    let mut cur: Vec<char> = Vec::new();
    let mut found = false;
    let mut i: usize = 0;
    proof {
        lemma_split_pairs_len(rs);
        assert(rs.skip(0) =~= rs);
        assert(prepend(Seq::<char>::empty(), split_pairs(rs)) =~= split_pairs(rs));
    }
    while i < rest.len()
        invariant
            i <= rest.len(),
            rs == rest@,
            views(pieces@) + prepend(cur@, split_pairs(rs.skip(i as int))) == split_pairs(rs),
            found == (pair_at(rs) is Some) || (pair_at(rs.skip(i as int)) is Some),
            found ==> pair_at(rs) is Some,
            !found ==> (pair_at(rs) is Some <==> pair_at(rs.skip(i as int)) is Some),
        decreases rest.len() - i,
    {
        let ghost t = rs.skip(i as int);
        proof {
            lemma_split_pairs_len(t);
        }
        if i + 1 < rest.len() && rest[i] == '_' && rest[i + 1] == '_' {
            proof {
                assert(pair_at(t) == Some(0int));
                assert(t.skip(2) =~= rs.skip(i + 2));
                assert(t.take(0) =~= Seq::<char>::empty());
                assert(cur@ + Seq::<char>::empty() =~= cur@);
                assert(prepend(cur@, split_pairs(t)) =~= seq![cur@] + split_pairs(rs.skip(i + 2)));
                lemma_split_pairs_len(rs.skip(i + 2));
                assert(prepend(Seq::<char>::empty(), split_pairs(rs.skip(i + 2))) =~= split_pairs(rs.skip(i + 2)));
            }
            let ghost before = views(pieces@);
            pieces.push(cur);
            cur = Vec::new();
            proof {
                assert(views(pieces@) =~= before.push(pieces@[pieces.len() - 1]@));
                assert(views(pieces@) + prepend(cur@, split_pairs(rs.skip(i + 2))) =~= before
                    + prepend(pieces@[pieces.len() - 1]@, split_pairs(t)));
            }
            found = true;
            i = i + 2;
        } else {
            proof {
                lemma_split_pairs_step(t);
                assert(t.drop_first() =~= rs.skip(i + 1));
                assert(t[0] == rest@[i as int]);
                lemma_split_pairs_len(rs.skip(i + 1));
                let ps = split_pairs(rs.skip(i + 1));
                assert(cur@ + (seq![t[0]] + ps[0]) =~= cur@.push(t[0]) + ps[0]);
                assert(prepend(cur@, prepend(seq![t[0]], ps)) =~= prepend(cur@.push(t[0]), ps));
                if t.len() >= 2 {
                    assert(pair_at(t) == (match pair_at(t.drop_first()) {
                        Some(j) => Some(j + 1),
                        None => None::<int>,
                    }));
                }
            }
            cur.push(rest[i]);
            i = i + 1;
        }
    }
    proof {
        assert(rs.skip(i as int) =~= Seq::<char>::empty());
        assert(pair_at(Seq::<char>::empty()) is None);
        assert(split_pairs(Seq::<char>::empty()) =~= seq![Seq::<char>::empty()]);
        assert(pair_at(rs.skip(i as int)) is None);
    }
    if !found {
        return None;
    }
    let ghost before = views(pieces@);
    pieces.push(cur);
    proof {
        assert(views(pieces@) =~= split_pairs(rs));
    }
    let mut lowered: Vec<Vec<char>> = Vec::new();
    let mut k: usize = 0;
    while k < pieces.len()
        invariant
            k <= pieces.len(),
            lowered.len() == k,
            forall|q: int| 0 <= q < k ==> lowered@[q]@ == lower_all(pieces@[q]@),
        decreases pieces.len() - k,
    {
        lowered.push(lower_chars(&pieces[k]));
        k = k + 1;
    }
    let dot = chars_of(".");
    let key = crate::text::join_chars(&lowered, &dot);
    proof {
        assert(views(lowered@) =~= split_pairs(rs).map_values(|p: Seq<char>| lower_all(p)));
    }
    Some(string_of(&key))
}

/// A `--set key=value`, read as its key and raw value, each trimmed.
pub open spec fn set_spec(set: Seq<char>) -> Option<(Seq<char>, Seq<char>)> {
    match first_index(set, '=') {
        None => None,
        Some(i) => Some((trim(set.take(i)), trim(set.skip(i + 1)))),
    }
}

pub fn set_layer(set: &str) -> (r: Result<(String, String), ConfigError>)
    ensures
        match set_spec(set@) {
            Some((k, v)) => r matches Ok((a, b)) && a@ == k && b@ == v,
            None => r matches Err(e) && e.source@ == "--set"@ && e.key is None
                && e.message@ == "expected key=value, got `"@ + set@ + "`"@,
        },
{
    let v = chars_of(set);
    match find_char(&v, '=') {
        None => {
            let mut m = copy_str("expected key=value, got `");
            push_str(&mut m, set);
            push_str(&mut m, "`");
            Err(ConfigError::new("--set", None, m))
        },
        Some(i) => {
            proof {
                lemma_first_index(v@, '=');
            }
            let n = v.len();
            let key = trimmed(&chars_range(&v, 0, i));
            let raw = trimmed(&chars_range(&v, i + 1, n));
            proof {
                assert(v@.subrange(0, i as int) =~= set@.take(i as int));
                assert(v@.subrange(i + 1, n as int) =~= set@.skip(i + 1));
            }
            Ok((string_of(&key), string_of(&raw)))
        },
    }
}

/// Environment variables in order, as `(name, value)` pairs sort.
pub open spec fn env_order(env: Seq<(String, String)>) -> spec_fn(int, int) -> bool {
    |a: int, b: int| seq_order(env[a].0@, env[b].0@) < 0 || (seq_order(env[a].0@, env[b].0@) == 0 && seq_order(env[a].1@, env[b].1@) <= 0)
}

/// The indices `0..n`.
pub open spec fn upto(n: int) -> Seq<int> {
    Seq::new(n as nat, |i: int| i)
}

/// The layers the variables give, in the order given: (label, key, raw
/// value) for each whose name is config.
pub open spec fn env_layers_spec(env: Seq<(String, String)>, order: Seq<int>) -> Seq<(Seq<char>, Seq<char>, Seq<char>)>
    decreases order.len(),
{
    if order.len() == 0 {
        Seq::empty()
    } else {
        let before = env_layers_spec(env, order.drop_last());
        let (name, raw) = env[order.last()];
        match env_key_spec(name@) {
            Some(k) => before.push(("env "@ + name@, k, raw@)),
            None => before,
        }
    }
}

fn sorts_after(env: &[(String, String)], a: usize, b: usize) -> (r: bool)
    requires
        a < env.len(),
        b < env.len(),
    ensures
        r == !env_order(env@)(a as int, b as int),
{
    let c = compare_str(env[a].0.as_str(), env[b].0.as_str());
    c > 0 || (c == 0 && compare_str(env[a].1.as_str(), env[b].1.as_str()) > 0)
}

/// Each `FAIRLEAD_*__*` variable as a layer, the variables sorted: its
/// label `env NAME`, its dotted key and its raw value.
pub fn env_layers(env: &[(String, String)]) -> (r: Vec<(String, String, String)>)
    ensures
        r@.map_values(|x: (String, String, String)| (x.0@, x.1@, x.2@)) == env_layers_spec(env@, sort_by(upto(env.len() as int), env_order(env@))),
{
    let ghost le = env_order(env@);
    let mut order: Vec<usize> = Vec::new();
    let mut i: usize = 0;
    while i < env.len()
        invariant
            i <= env.len(),
            le == env_order(env@),
            order@.map_values(|x: usize| x as int) == sort_by(upto(i as int), le),
            forall|k: int| 0 <= k < order.len() ==> order@[k] < i,
        decreases env.len() - i,
    {
        let ghost s = order@.map_values(|x: usize| x as int);
        let mut j: usize = order.len();
        while j > 0 && sorts_after(env, order[j - 1], i)
            invariant
                j <= order.len(),
                i < env.len(),
                s == order@.map_values(|x: usize| x as int),
                le == env_order(env@),
                forall|k: int| 0 <= k < order.len() ==> order@[k] < i,
                forall|k: int| j <= k < order.len() ==> !le(#[trigger] s[k], i as int),
            decreases j,
        {
            proof {
                assert(s[j - 1] == order@[j - 1] as int);
            }
            j = j - 1;
        }
        proof {
            if j > 0 {
                assert(s[j - 1] == order@[j - 1] as int);
                assert(le(s[j - 1], i as int));
            }
            lemma_insert_by_at(s, i as int, le, j as int);
            assert(upto(i as int + 1).drop_last() =~= upto(i as int));
            assert(upto(i as int + 1).last() == i as int);
        }
        order.insert(j, i);
        proof {
            assert(order@.map_values(|x: usize| x as int) =~= s.insert(j as int, i as int));
        }
        i = i + 1;
    }
    let ghost ord = order@.map_values(|x: usize| x as int);
    let mut out: Vec<(String, String, String)> = Vec::new();
    let mut k: usize = 0;
    while k < order.len()
        invariant
            k <= order.len(),
            ord == order@.map_values(|x: usize| x as int),
            forall|q: int| 0 <= q < order.len() ==> order@[q] < env.len(),
            out@.map_values(|x: (String, String, String)| (x.0@, x.1@, x.2@)) == env_layers_spec(env@, ord.take(k as int)),
        decreases order.len() - k,
    {
        let (name, raw) = &env[order[k]];
        proof {
            assert(ord.take(k as int + 1).drop_last() =~= ord.take(k as int));
            assert(ord.take(k as int + 1).last() == order@[k as int] as int);
        }
        match env_key(name.as_str()) {
            Some(key) => {
                let mut label = copy_str("env ");
                push_str(&mut label, name.as_str());
                let ghost before = out@;
                out.push((label, key, copy_str(raw.as_str())));
                proof {
                    assert(out@.map_values(|x: (String, String, String)| (x.0@, x.1@, x.2@)) =~= before.map_values(
                        |x: (String, String, String)| (x.0@, x.1@, x.2@),
                    ).push(("env "@ + name@, key@, raw@)));
                }
            },
            None => {},
        }
        k = k + 1;
    }
    proof {
        assert(ord.take(k as int) =~= ord);
    }
    out
}

} // verus!

verus! {

/// One directory of the walk up from the start: its path, the project
/// file names it holds, and whether it holds `.git`.
pub struct Probe {
    pub dir: String,
    pub found: Vec<String>,
    pub git: bool,
}

pub open spec fn probe_found(p: Probe) -> Seq<Seq<char>> {
    p.found@.map_values(|s: String| s@)
}

/// The walk from the `i`th directory on: the first that decides, or none
/// when none does.
pub open spec fn walk_from(probes: Seq<Probe>, i: int) -> Result<Option<Seq<char>>, (Seq<char>, Seq<char>)>
    decreases probes.len() - i,
{
    if i < 0 || i >= probes.len() {
        Ok(None)
    } else {
        match find_spec(probes[i].dir@, probe_found(probes[i]), probes[i].git) {
            Ok(None) => walk_from(probes, i + 1),
            Ok(Some(x)) => Ok(x),
            Err(e) => Err(e),
        }
    }
}

/// A directory decides the walk: it holds a project file or is the
/// repository root.
pub open spec fn decides(p: Probe) -> bool {
    p.found.len() > 0 || p.git
}

proof fn lemma_walk_skip(probes: Seq<Probe>, i: int, j: int)
    requires
        0 <= i <= j <= probes.len(),
        forall|k: int| i <= k < j ==> !decides(#[trigger] probes[k]),
    ensures
        walk_from(probes, i) == walk_from(probes, j),
    decreases j - i,
{
    if i < j {
        assert(!decides(probes[i]));
        assert(probe_found(probes[i]).len() == 0);
        lemma_walk_skip(probes, i + 1, j);
    }
}

/// Law: the walk is settled by the nearest directory that holds a project
/// file or is the repository root, and by nothing beyond it; where no
/// directory does, there is no config.
pub proof fn lemma_walk_nearest(probes: Seq<Probe>)
    ensures
        (forall|k: int| 0 <= k < probes.len() ==> !decides(#[trigger] probes[k])) ==> walk_from(probes, 0) == Ok::<Option<Seq<char>>, (Seq<char>, Seq<char>)>(None),
        forall|j: int| 0 <= j < probes.len() && decides(#[trigger] probes[j])
            && (forall|k: int| 0 <= k < j ==> !decides(#[trigger] probes[k])) ==>
            walk_from(probes, 0) == match find_spec(probes[j].dir@, probe_found(probes[j]), probes[j].git) {
                Ok(Some(x)) => Ok(x),
                Err(e) => Err(e),
                Ok(None) => Ok::<Option<Seq<char>>, (Seq<char>, Seq<char>)>(None),
            },
{
    if forall|k: int| 0 <= k < probes.len() ==> !decides(#[trigger] probes[k]) {
        lemma_walk_skip(probes, 0, probes.len() as int);
    }
    assert forall|j: int| 0 <= j < probes.len() && decides(#[trigger] probes[j])
        && (forall|k: int| 0 <= k < j ==> !decides(#[trigger] probes[k])) implies
        walk_from(probes, 0) == match find_spec(probes[j].dir@, probe_found(probes[j]), probes[j].git) {
            Ok(Some(x)) => Ok(x),
            Err(e) => Err(e),
            Ok(None) => Ok::<Option<Seq<char>>, (Seq<char>, Seq<char>)>(None),
        } by {
        lemma_walk_skip(probes, 0, j);
        assert(probe_found(probes[j]).len() == probes[j].found.len());
    }
}

/// The nearest directory holding a project file, walking up from the
/// start (`probes`, nearest first) and stopping at the repository root, so
/// a config outside the repository is never read. Two project files in one
/// directory is an error.
pub fn find_config(probes: &[Probe]) -> (r: Result<Option<String>, ConfigError>)
    ensures
        match walk_from(probes@, 0) {
            Ok(None) => r matches Ok(None),
            Ok(Some(p)) => r matches Ok(Some(q)) && q@ == p,
            Err((s, m)) => r matches Err(e) && e.source@ == s && e.key is None && e.message@ == m,
        },
{
    let mut i: usize = 0;
    while i < probes.len()
        invariant
            i <= probes.len(),
            walk_from(probes@, 0) == walk_from(probes@, i as int),
        decreases probes.len() - i,
    {
        match find_step(probes[i].dir.as_str(), probes[i].found.as_slice(), probes[i].git) {
            Ok(Found::Walk) => {},
            Ok(Found::Stop(p)) => return Ok(p),
            Err(e) => return Err(e),
        }
        i = i + 1;
    }
    Ok(None)
}

/// What loading reads besides the files: `--set` pairs, applied last; the
/// environment, for `FAIRLEAD_*` layers; and whether this is CI, where the
/// local file is ignored.
pub struct LoadOptions {
    pub sets: Vec<String>,
    pub env: Vec<(String, String)>,
    pub ci: bool,
}

/// `CI` is set to something other than empty, `0` or `false`.
pub open spec fn in_ci(env: Seq<(String, String)>) -> bool {
    exists|i: int| 0 <= i < env.len() && (#[trigger] env[i]).0@ == "CI"@ && env[i].1@ != ""@ && env[i].1@ != "0"@
        && env[i].1@ != "false"@
}

impl LoadOptions {
    /// The options for `sets` and an environment.
    pub fn new(sets: Vec<String>, env: Vec<(String, String)>) -> (r: LoadOptions)
        ensures
            r.sets == sets,
            r.env == env,
            r.ci == in_ci(env@),
    {
        let mut ci = false;
        let mut i: usize = 0;
        while i < env.len()
            invariant
                i <= env.len(),
                ci == exists|k: int| 0 <= k < i && (#[trigger] env@[k]).0@ == "CI"@ && env@[k].1@ != ""@ && env@[k].1@ != "0"@
                    && env@[k].1@ != "false"@,
            decreases env.len() - i,
        {
            let (k, v) = (env[i].0.as_str(), env[i].1.as_str());
            if same_str(k, "CI") && !same_str(v, "") && !same_str(v, "0") && !same_str(v, "false") {
                ci = true;
            }
            i = i + 1;
        }
        LoadOptions { sets, env, ci }
    }
}

} // verus!
