//! Rule edges from `[[graph.edges]]`: every file matching `from` depends on
//! every file matching a `to`. A `{name}` standing as a whole path segment
//! takes that segment of a matching path, and fills the same placeholder on
//! the other side, so `services/{name}/client.ts` can point at
//! `services/{name}/server/**`.
use vstd::prelude::*;

use crate::config::validate::{placeholder_set, placeholders};
use crate::config::EdgeRule;
use crate::pattern::{glob_matches, glob_problem, Pattern};
use crate::text::{chars_of, first_index, split, split_chars, string_of, views};

verus! {

/// What a path's placeholders were bound to, by name, in order.
pub type Binding = Vec<(String, String)>;

pub open spec fn bview(b: Binding) -> Seq<(Seq<char>, Seq<char>)> {
    b@.map_values(|p: (String, String)| (p.0@, p.1@))
}

/// The name of the placeholder `seg` is, when the whole segment is one:
/// `{` and `}` around a name with no comma or brace in it.
pub open spec fn hole(seg: Seq<char>) -> Option<Seq<char>> {
    let inner = seg.subrange(1, seg.len() - 1);
    if seg.len() >= 3 && seg[0] == '{' && seg.last() == '}' && !inner.contains(',') && !inner.contains('{')
        && !inner.contains('}') {
        Some(inner)
    } else {
        None
    }
}

pub open spec fn is_globstar(seg: Seq<char>) -> bool {
    seg == seq!['*', '*']
}

/// Matching path segments `ps` against glob segments `gs`: `**` takes any
/// number of segments (as few as will do), a placeholder takes exactly one
/// and records it, any other segment is a glob for one segment.
pub open spec fn seg_capture(gs: Seq<Seq<char>>, ps: Seq<Seq<char>>) -> Option<Seq<(Seq<char>, Seq<char>)>>
    decreases gs.len() + ps.len(),
{
    if gs.len() == 0 {
        if ps.len() == 0 { Some(Seq::empty()) } else { None }
    } else if is_globstar(gs[0]) {
        match seg_capture(gs.drop_first(), ps) {
            Some(b) => Some(b),
            None => if ps.len() > 0 { seg_capture(gs, ps.drop_first()) } else { None },
        }
    } else if ps.len() == 0 {
        None
    } else {
        match hole(gs[0]) {
            Some(name) => match seg_capture(gs.drop_first(), ps.drop_first()) {
                Some(b) => Some(seq![(name, ps[0])] + b),
                None => None,
            },
            None => if glob_matches(gs[0], ps[0]) { seg_capture(gs.drop_first(), ps.drop_first()) } else { None },
        }
    }
}

/// The placeholder values `path` gives `glob`, if it matches.
pub open spec fn capture(glob: Seq<char>, path: Seq<char>) -> Option<Seq<(Seq<char>, Seq<char>)>> {
    seg_capture(split(glob, '/'), split(path, '/'))
}

/// The glob segments that are matched as globs (neither `**` nor a
/// placeholder), in order.
pub open spec fn plain_segments(gs: Seq<Seq<char>>) -> Seq<Seq<char>>
    decreases gs.len(),
{
    if gs.len() == 0 {
        Seq::empty()
    } else {
        let rest = plain_segments(gs.drop_last());
        if is_globstar(gs.last()) || hole(gs.last()) is Some { rest } else { rest.push(gs.last()) }
    }
}

/// One glob segment, ready to match.
pub enum Segment {
    Globstar,
    Hole(String),
    Plain(Pattern),
}

pub open spec fn seg_is(s: Segment, text: Seq<char>) -> bool {
    match s {
        Segment::Globstar => is_globstar(text),
        Segment::Hole(name) => hole(text) == Some(name@),
        Segment::Plain(p) => !is_globstar(text) && hole(text) is None && p.text() == text,
    }
}

/// A glob cut into segments, each ready to match.
pub struct Capturer {
    pub segs: Vec<Segment>,
    pub texts: Ghost<Seq<Seq<char>>>,
}

impl Capturer {
    pub open spec fn wf(&self) -> bool {
        &&& self.segs.len() == self.texts@.len()
        &&& forall|i: int| 0 <= i < self.segs.len() ==> seg_is(#[trigger] self.segs@[i], self.texts@[i])
    }
}

fn seg_kind(v: &Vec<char>) -> (r: Option<Option<String>>)
    ensures
        match r {
            None => is_globstar(v@),
            Some(None) => !is_globstar(v@) && hole(v@) is None,
            Some(Some(n)) => !is_globstar(v@) && hole(v@) == Some(n@),
        },
{
    let n = v.len();
    if n == 2 && v[0] == '*' && v[1] == '*' {
        proof {
            assert(v@ =~= seq!['*', '*']);
        }
        return None;
    }
    proof {
        if is_globstar(v@) {
            assert(v@[0] == '*' && v@[1] == '*');
        }
    }
    if n < 3 || v[0] != '{' || v[n - 1] != '}' {
        return Some(None);
    }
    let mut i: usize = 1;
    while i < n - 1
        invariant
            3 <= n == v.len(),
            1 <= i <= n - 1,
            forall|j: int| 1 <= j < i ==> v@[j] != ',' && v@[j] != '{' && v@[j] != '}',
        decreases n - 1 - i,
    {
        if v[i] == ',' || v[i] == '{' || v[i] == '}' {
            proof {
                let inner = v@.subrange(1, n - 1);
                assert(inner[i - 1] == v@[i as int]);
            }
            return Some(None);
        }
        i = i + 1;
    }
    let inner = crate::text::chars_range(v, 1, n - 1);
    proof {
        let s = v@.subrange(1, n - 1);
        assert(inner@ =~= s);
        assert(!s.contains(',') && !s.contains('{') && !s.contains('}')) by {
            assert forall|j: int| 0 <= j < s.len() implies s[j] != ',' && s[j] != '{' && s[j] != '}' by {
                assert(s[j] == v@[j + 1]);
            }
        }
    }
    Some(Some(string_of(&inner)))
}

/// Cuts `glob` into segments and compiles each plain one; the error is the
/// first plain segment's problem.
pub fn capturer(glob: &str) -> (r: Result<Capturer, String>)
    ensures
        match r {
            Ok(c) => c.wf() && c.texts@ == split(glob@, '/'),
            Err(e) => exists|i: int| 0 <= i < split(glob@, '/').len() && glob_problem(#[trigger] split(glob@, '/')[i]) == Some(e@),
        },
        (forall|i: int| 0 <= i < split(glob@, '/').len() ==> glob_problem(#[trigger] split(glob@, '/')[i]) is None) ==> r is Ok,
{
    let v = chars_of(glob);
    let pieces = split_chars(&v, '/');
    let mut segs: Vec<Segment> = Vec::new();
    let mut i: usize = 0;
    while i < pieces.len()
        invariant
            i <= pieces.len(),
            views(pieces@) == split(glob@, '/'),
            segs.len() == i,
            forall|j: int| 0 <= j < i ==> seg_is(#[trigger] segs@[j], views(pieces@)[j]),
        decreases pieces.len() - i,
    {
        let piece = &pieces[i];
        proof {
            assert(views(pieces@)[i as int] == piece@);
        }
        match seg_kind(piece) {
            None => segs.push(Segment::Globstar),
            Some(Some(name)) => segs.push(Segment::Hole(name)),
            Some(None) => {
                let text = string_of(piece);
                match Pattern::new(text.as_str()) {
                    Ok(p) => segs.push(Segment::Plain(p)),
                    Err(e) => {
                        proof {
                            assert(split(glob@, '/')[i as int] == text@);
                        }
                        return Err(e);
                    },
                }
            },
        }
        i = i + 1;
    }
    Ok(Capturer { segs, texts: Ghost(views(pieces@)) })
}

impl Capturer {
    /// The placeholder values `path` (cut at `/`) gives this glob, from
    /// segment `g` and path segment `p` on.
    fn capture_from(&self, ps: &Vec<Vec<char>>, g: usize, p: usize) -> (r: Option<Binding>)
        requires
            self.wf(),
            g <= self.segs.len(),
            p <= ps.len(),
        ensures
            match seg_capture(self.texts@.skip(g as int), views(ps@).skip(p as int)) {
                Some(b) => r matches Some(x) && bview(x) == b,
                None => r is None,
            },
        decreases self.segs.len() - g + ps.len() - p,
    {
        let ghost gs = self.texts@.skip(g as int);
        let ghost pv = views(ps@).skip(p as int);
        if g == self.segs.len() {
            if p == ps.len() {
                let b: Binding = Vec::new();
                proof {
                    assert(bview(b) =~= Seq::empty());
                }
                return Some(b);
            }
            return None;
        }
        proof {
            assert(gs[0] == self.texts@[g as int]);
            assert(gs.drop_first() =~= self.texts@.skip(g + 1));
            assert(seg_is(self.segs@[g as int], self.texts@[g as int]));
            if p < ps.len() {
                assert(pv[0] == ps@[p as int]@);
                assert(pv.drop_first() =~= views(ps@).skip(p + 1));
            }
        }
        match &self.segs[g] {
            Segment::Globstar => {
                match self.capture_from(ps, g + 1, p) {
                    Some(b) => Some(b),
                    None => {
                        if p < ps.len() {
                            self.capture_from(ps, g, p + 1)
                        } else {
                            None
                        }
                    },
                }
            },
            Segment::Hole(name) => {
                if p == ps.len() {
                    return None;
                }
                match self.capture_from(ps, g + 1, p + 1) {
                    Some(rest) => {
                        let mut b: Binding = Vec::new();
                        b.push((name.clone(), string_of(&ps[p])));
                        let mut k: usize = 0;
                        while k < rest.len()
                            invariant
                                k <= rest.len(),
                                p < ps.len(),
                                bview(b) == seq![(name@, ps@[p as int]@)] + bview(rest).take(k as int),
                            decreases rest.len() - k,
                        {
                            let ghost b0 = bview(b);
                            b.push((rest[k].0.clone(), rest[k].1.clone()));
                            proof {
                                assert(bview(b) =~= b0.push((rest@[k as int].0@, rest@[k as int].1@)));
                                assert(bview(rest).take(k + 1) =~= bview(rest).take(k as int).push(bview(rest)[k as int]));
                                assert(bview(rest)[k as int] == (rest@[k as int].0@, rest@[k as int].1@));
                                assert(bview(b) =~= seq![(name@, ps@[p as int]@)] + bview(rest).take(k + 1));
                            }
                            k = k + 1;
                        }
                        proof {
                            assert(bview(rest).take(k as int) =~= bview(rest));
                        }
                        Some(b)
                    },
                    None => None,
                }
            },
            Segment::Plain(pat) => {
                if p == ps.len() {
                    return None;
                }
                let s = string_of(&ps[p]);
                if pat.is_match(s.as_str()) {
                    self.capture_from(ps, g + 1, p + 1)
                } else {
                    None
                }
            },
        }
    }

    /// The placeholder values `path` gives this glob, if it matches.
    pub fn capture(&self, path: &str) -> (r: Option<Binding>)
        requires
            self.wf(),
        ensures
            match seg_capture(self.texts@, split(path@, '/')) {
                Some(b) => r matches Some(x) && bview(x) == b,
                None => r is None,
            },
    {
        let v = chars_of(path);
        let ps = split_chars(&v, '/');
        proof {
            assert(self.texts@.skip(0) =~= self.texts@);
            assert(views(ps@).skip(0) =~= views(ps@));
        }
        self.capture_from(&ps, 0, 0)
    }
}


/// The value bound to `name`, the first binding of it.
pub open spec fn lookup(b: Seq<(Seq<char>, Seq<char>)>, name: Seq<char>) -> Option<Seq<char>>
    decreases b.len(),
{
    if b.len() == 0 {
        None
    } else if b[0].0 == name {
        Some(b[0].1)
    } else {
        lookup(b.drop_first(), name)
    }
}

/// `s` with each `{name}` that `b` binds replaced by its value.
pub open spec fn fill(s: Seq<char>, b: Seq<(Seq<char>, Seq<char>)>) -> Seq<char>
    decreases s.len(),
{
    if s.len() == 0 {
        Seq::empty()
    } else if s[0] == '{' && first_index(s.drop_first(), '}') is Some
        && lookup(b, s.subrange(1, first_index(s.drop_first(), '}').unwrap() + 1)) is Some {
        let c = first_index(s.drop_first(), '}').unwrap();
        proof {
            crate::text::lemma_first_index(s.drop_first(), '}');
        }
        lookup(b, s.subrange(1, c + 1)).unwrap() + fill(s.skip(c + 2), b)
    } else {
        seq![s[0]] + fill(s.drop_first(), b)
    }
}

fn lookup_exec<'a>(b: &'a Binding, name: &str) -> (r: Option<&'a String>)
    ensures
        match lookup(bview(*b), name@) {
            Some(v) => r matches Some(x) && x@ == v,
            None => r is None,
        },
{
    let mut i: usize = 0;
    proof {
        assert(bview(*b).skip(0) =~= bview(*b));
    }
    while i < b.len()
        invariant
            i <= b.len(),
            lookup(bview(*b), name@) == lookup(bview(*b).skip(i as int), name@),
        decreases b.len() - i,
    {
        let ghost rest = bview(*b).skip(i as int);
        proof {
            assert(rest[0] == (b@[i as int].0@, b@[i as int].1@));
            assert(rest.drop_first() =~= bview(*b).skip(i + 1));
        }
        if crate::text::same_str(b[i].0.as_str(), name) {
            return Some(&b[i].1);
        }
        i = i + 1;
    }
    None
}

/// Fills `glob`'s placeholders from `b`.
pub fn fill_exec(glob: &str, b: &Binding) -> (r: String)
    ensures
        r@ == fill(glob@, bview(*b)),
{
    let v = chars_of(glob);
    let ghost bv = bview(*b);
    let mut out: Vec<char> = Vec::new();
    let mut i: usize = 0;
    proof {
        assert(v@.skip(0) =~= v@);
    }
    while i < v.len()
        invariant
            i <= v.len(),
            v@ == glob@,
            bv == bview(*b),
            out@ + fill(v@.skip(i as int), bv) == fill(v@, bv),
        decreases v.len() - i,
    {
        let ghost s = v@.skip(i as int);
        proof {
            assert(s[0] == v@[i as int]);
            assert(s.drop_first() =~= v@.skip(i + 1));
        }
        let mut done = false;
        if v[i] == '{' {
            let mut j: usize = i + 1;
            while j < v.len() && v[j] != '}'
                invariant
                    i + 1 <= j <= v.len(),
                    forall|q: int| i + 1 <= q < j ==> v@[q] != '}',
                decreases v.len() - j,
            {
                j = j + 1;
            }
            proof {
                let t = s.drop_first();
                if j < v.len() {
                    assert forall|q: int| 0 <= q < j - i - 1 implies t[q] != '}' by {
                        assert(t[q] == v@[i + 1 + q]);
                    }
                    crate::text::lemma_first_index_at(t, '}', j - i - 1);
                } else {
                    crate::text::lemma_first_index(t, '}');
                    if first_index(t, '}') is Some {
                        let q = first_index(t, '}').unwrap();
                        assert(t[q] == v@[i + 1 + q]);
                    }
                }
            }
            if j < v.len() {
                let name = string_of(&crate::text::chars_range(&v, i + 1, j));
                proof {
                    assert(name@ =~= s.subrange(1, (j - i - 1) + 1));
                }
                match lookup_exec(b, name.as_str()) {
                    Some(val) => {
                        let vc = chars_of(val.as_str());
                        let mut k: usize = 0;
                        let ghost o0 = out@;
                        while k < vc.len()
                            invariant
                                k <= vc.len(),
                                out@ == o0 + vc@.take(k as int),
                            decreases vc.len() - k,
                        {
                            out.push(vc[k]);
                            proof {
                                assert(vc@.take(k + 1) =~= vc@.take(k as int).push(vc@[k as int]));
                            }
                            k = k + 1;
                        }
                        proof {
                            assert(vc@.take(k as int) =~= vc@);
                            assert(s.skip((j - i - 1) + 2) =~= v@.skip(j + 1));
                        }
                        i = j + 1;
                        done = true;
                    },
                    None => {},
                }
            }
        }
        if !done {
            proof {
                assert(out@.push(v@[i as int]) + fill(v@.skip(i + 1), bv) =~= out@ + (seq![v@[i as int]] + fill(v@.skip(i + 1), bv)));
            }
            out.push(v[i]);
            i = i + 1;
        }
    }
    proof {
        assert(v@.skip(i as int) =~= Seq::<char>::empty());
    }
    string_of(&out)
}


/// Strictly increasing.
pub open spec fn ids_sorted(s: Seq<u32>) -> bool {
    forall|i: int, j: int| 0 <= i < j < s.len() ==> s[i] < s[j]
}

/// Adds `x` to a strictly increasing list, keeping it so.
fn insert_id(v: &mut Vec<u32>, x: u32)
    requires
        ids_sorted(old(v)@),
    ensures
        ids_sorted(final(v)@),
        final(v)@.to_set() == old(v)@.to_set().insert(x),
{
    let mut i: usize = 0;
    while i < v.len() && v[i] < x
        invariant
            i <= v.len(),
            forall|j: int| 0 <= j < i ==> v@[j] < x,
        decreases v.len() - i,
    {
        i = i + 1;
    }
    let ghost v0 = v@;
    if i < v.len() && v[i] == x {
        proof {
            assert(v0.to_set().insert(x) =~= v0.to_set());
        }
        return;
    }
    v.insert(i, x);
    proof {
        assert(v@ =~= v0.take(i as int).push(x) + v0.skip(i as int));
        assert forall|a: int, b: int| 0 <= a < b < v@.len() implies v@[a] < v@[b] by {
            if b < i {
            } else if b == i {
            } else if a < i {
                assert(v@[b] == v0[b - 1]);
                if a < i {
                    assert(v0[a] < x);
                }
                assert(x <= v0[i as int] || i == v0.len());
            } else if a == i {
                assert(v@[b] == v0[b - 1]);
                assert(v0[i as int] >= x);
                if b - 1 > i {
                    assert(v0[i as int] < v0[b - 1]);
                }
            } else {
                assert(v@[a] == v0[a - 1] && v@[b] == v0[b - 1]);
            }
        }
        assert forall|y: u32| v@.to_set().contains(y) <==> v0.to_set().insert(x).contains(y) by {
            if v@.contains(y) {
                let k = choose|k: int| 0 <= k < v@.len() && v@[k] == y;
                if k < i {
                    assert(v0[k] == y);
                } else if k > i {
                    assert(v0[k - 1] == y);
                }
            }
            if v0.contains(y) {
                let k = choose|k: int| 0 <= k < v0.len() && v0[k] == y;
                if k < i {
                    assert(v@[k] == y);
                } else {
                    assert(v@[k + 1] == y);
                }
            }
            if y == x {
                assert(v@[i as int] == x);
            }
        }
        assert(v@.to_set() =~= v0.to_set().insert(x));
    }
}


/// Whether `{name}` is a whole segment of `glob`.
pub open spec fn whole(glob: Seq<char>, name: Seq<char>) -> bool {
    split(glob, '/').contains(seq!['{'] + name + seq!['}'])
}

/// The placeholders of `rule.from`, each a whole segment of it.
pub open spec fn from_side(rule: EdgeRule) -> bool {
    forall|n: Seq<char>| #[trigger] placeholder_set(rule.from@).contains(n) ==> whole(rule.from@, n)
}

/// A glob the rule's placeholder values are read from: `from` when each
/// is a whole segment of it, else every `to` that names any.
pub open spec fn capture_side(rule: EdgeRule, g: Seq<char>) -> bool {
    &&& !placeholder_set(rule.from@).is_empty()
    &&& if from_side(rule) {
        g == rule.from@
    } else {
        exists|i: int| 0 <= i < rule.to.len() && g == (#[trigger] rule.to@[i])@ && !placeholder_set(g).is_empty()
    }
}

/// Every way the files bind the rule's placeholders; one empty binding
/// when it has none.
pub open spec fn bindings(rule: EdgeRule, files: Seq<String>) -> Set<Seq<(Seq<char>, Seq<char>)>> {
    if placeholder_set(rule.from@).is_empty() {
        set![Seq::empty()]
    } else {
        Set::new(|b: Seq<(Seq<char>, Seq<char>)>| exists|g: Seq<char>, f: int| capture_side(rule, g) && 0 <= f < files.len()
            && #[trigger] capture(g, files[f]@) == Some(b))
    }
}

/// The file pair `(f, t)` the binding `b` links.
pub open spec fn pair_by(rule: EdgeRule, files: Seq<String>, b: Seq<(Seq<char>, Seq<char>)>, f: int, t: int) -> bool {
    &&& f != t
    &&& glob_matches(fill(rule.from@, b), files[f]@)
    &&& exists|i: int| 0 <= i < rule.to.len() && glob_matches(fill((#[trigger] rule.to@[i])@, b), files[t]@)
}

/// The file pairs the rule links: `from` and a `to`, filled from the same
/// binding, match them, and they are two files.
pub open spec fn rule_pair(rule: EdgeRule, files: Seq<String>, f: int, t: int) -> bool {
    &&& 0 <= f < files.len()
    &&& 0 <= t < files.len()
    &&& exists|b: Seq<(Seq<char>, Seq<char>)>| #[trigger] bindings(rule, files).contains(b) && pair_by(rule, files, b, f, t)
}

/// A glob the rule compiles: one it captures from and its segments, and
/// `from` and each `to` filled from a binding.
pub open spec fn rule_glob(rule: EdgeRule, files: Seq<String>, g: Seq<char>) -> bool {
    ||| exists|c: Seq<char>| capture_side(rule, c) && (g == c || exists|k: int| 0 <= k < split(c, '/').len() && g == #[trigger] split(c, '/')[k])
    ||| exists|b: Seq<(Seq<char>, Seq<char>)>| #[trigger] bindings(rule, files).contains(b) && (g == fill(rule.from@, b)
        || exists|i: int| 0 <= i < rule.to.len() && g == fill((#[trigger] rule.to@[i])@, b))
}

/// Every glob of the rule compiles.
pub open spec fn rule_compiles(rule: EdgeRule, files: Seq<String>) -> bool {
    forall|g: Seq<char>| #[trigger] rule_glob(rule, files, g) ==> glob_problem(g) is None
}

fn whole_exec(glob: &str, name: &str) -> (r: bool)
    ensures
        r == whole(glob@, name@),
{
    let mut want: Vec<char> = Vec::new();
    want.push('{');
    let nv = chars_of(name);
    let mut k: usize = 0;
    while k < nv.len()
        invariant
            k <= nv.len(),
            want@ == seq!['{'] + nv@.take(k as int),
        decreases nv.len() - k,
    {
        want.push(nv[k]);
        proof {
            assert(nv@.take(k + 1) =~= nv@.take(k as int).push(nv@[k as int]));
        }
        k = k + 1;
    }
    want.push('}');
    proof {
        assert(nv@.take(k as int) =~= nv@);
        assert(want@ =~= seq!['{'] + name@ + seq!['}']);
    }
    let v = chars_of(glob);
    let pieces = split_chars(&v, '/');
    let mut i: usize = 0;
    while i < pieces.len()
        invariant
            i <= pieces.len(),
            views(pieces@) == split(glob@, '/'),
            want@ == seq!['{'] + name@ + seq!['}'],
            forall|j: int| 0 <= j < i ==> views(pieces@)[j] != want@,
        decreases pieces.len() - i,
    {
        if crate::text::same_str(string_of(&pieces[i]).as_str(), string_of(&want).as_str()) {
            proof {
                assert(views(pieces@)[i as int] == pieces@[i as int]@);
            }
            return true;
        }
        proof {
            assert(views(pieces@)[i as int] == pieces@[i as int]@);
        }
        i = i + 1;
    }
    false
}

/// The files `glob` matches, by id, in order.
pub fn matching(files: &Vec<String>, glob: &str) -> (r: Result<Vec<u32>, String>)
    requires
        files.len() < u32::MAX,
    ensures
        match r {
            Ok(ids) => glob_problem(glob@) is None && ids_sorted(ids@)
                && (forall|f: int| 0 <= f < files.len() ==> (ids@.contains(f as u32) <==> glob_matches(glob@, (#[trigger] files@[f])@)))
                && (forall|k: int| 0 <= k < ids.len() ==> (#[trigger] ids@[k] as int) < files.len()),
            Err(e) => glob_problem(glob@) == Some(e@),
        },
{
    let p = match Pattern::new(glob) {
        Ok(p) => p,
        Err(e) => return Err(e),
    };
    let mut ids: Vec<u32> = Vec::new();
    let mut f: usize = 0;
    while f < files.len()
        invariant
            f <= files.len() < u32::MAX,
            p.text() == glob@,
            ids_sorted(ids@),
            forall|k: int| 0 <= k < ids.len() ==> (#[trigger] ids@[k] as int) < f,
            forall|x: int| 0 <= x < f ==> (ids@.contains(x as u32) <==> glob_matches(glob@, (#[trigger] files@[x])@)),
        decreases files.len() - f,
    {
        let ghost before = ids@;
        if p.is_match(files[f].as_str()) {
            ids.push(f as u32);
        }
        proof {
            assert forall|x: int| 0 <= x < f + 1 implies (ids@.contains(x as u32) <==> glob_matches(glob@, (#[trigger] files@[x])@)) by {
                if x < f {
                    if ids@.contains(x as u32) {
                        let k = choose|k: int| 0 <= k < ids@.len() && ids@[k] == x as u32;
                        if k < before.len() {
                            assert(before[k] == x as u32);
                        }
                    }
                    if before.contains(x as u32) {
                        let k = choose|k: int| 0 <= k < before.len() && before[k] == x as u32;
                        assert(ids@[k] == x as u32);
                    }
                } else {
                    if ids@.contains(x as u32) {
                        let k = choose|k: int| 0 <= k < ids@.len() && ids@[k] == x as u32;
                        if k < before.len() {
                            assert((before[k] as int) < f);
                        }
                    }
                    if glob_matches(glob@, files@[x]@) {
                        assert(ids@[ids@.len() - 1] == x as u32);
                    }
                }
            }
        }
        f = f + 1;
    }
    Ok(ids)
}


/// Some binding of `bs` is `b`.
pub open spec fn has_binding(bs: Seq<Binding>, b: Seq<(Seq<char>, Seq<char>)>) -> bool {
    exists|k: int| 0 <= k < bs.len() && bview(#[trigger] bs[k]) == b
}

/// What is wrong with `glob` or one of its segments, if `e` is it.
pub open spec fn capture_problem(glob: Seq<char>, e: Seq<char>) -> bool {
    glob_problem(glob) == Some(e) || exists|k: int| 0 <= k < split(glob, '/').len() && glob_problem(#[trigger] split(glob, '/')[k]) == Some(e)
}

pub open spec fn capture_compiles(glob: Seq<char>) -> bool {
    glob_problem(glob) is None && forall|k: int| 0 <= k < split(glob, '/').len() ==> glob_problem(#[trigger] split(glob, '/')[k]) is None
}

/// Adds to `out` the binding each file that matches `glob` gives.
fn captures_of(files: &Vec<String>, glob: &str, out: &mut Vec<Binding>) -> (r: Result<(), String>)
    ensures
        match r {
            Ok(_) => forall|b: Seq<(Seq<char>, Seq<char>)>| #[trigger] has_binding(final(out)@, b) <==> (has_binding(old(out)@, b)
                || exists|f: int| 0 <= f < files.len() && capture(glob@, (#[trigger] files@[f])@) == Some(b)),
            Err(e) => capture_problem(glob@, e@),
        },
        capture_compiles(glob@) ==> r is Ok,
{
    match Pattern::new(glob) {
        Ok(_) => {},
        Err(e) => return Err(e),
    }
    let cap = match capturer(glob) {
        Ok(c) => c,
        Err(e) => return Err(e),
    };
    let ghost o0 = out@;
    let mut f: usize = 0;
    while f < files.len()
        invariant
            f <= files.len(),
            cap.wf(),
            cap.texts@ == split(glob@, '/'),
            forall|b: Seq<(Seq<char>, Seq<char>)>| #[trigger] has_binding(out@, b) <==> (has_binding(o0, b)
                || exists|x: int| 0 <= x < f && capture(glob@, (#[trigger] files@[x])@) == Some(b)),
        decreases files.len() - f,
    {
        let got = cap.capture(files[f].as_str());
        let ghost before = out@;
        match got {
            Some(b) => {
                out.push(b);
            },
            None => {},
        }
        proof {
            assert forall|b: Seq<(Seq<char>, Seq<char>)>| #[trigger] has_binding(out@, b) <==> (has_binding(o0, b)
                || exists|x: int| 0 <= x < f + 1 && capture(glob@, (#[trigger] files@[x])@) == Some(b)) by {
                if has_binding(out@, b) {
                    let k = choose|k: int| 0 <= k < out@.len() && bview(#[trigger] out@[k]) == b;
                    if k < before.len() {
                        assert(bview(before[k]) == b);
                        assert(has_binding(before, b));
                    } else {
                        assert(capture(glob@, files@[f as int]@) == Some(b));
                    }
                }
                if has_binding(before, b) {
                    let k = choose|k: int| 0 <= k < before.len() && bview(#[trigger] before[k]) == b;
                    assert(out@[k] == before[k]);
                    assert(has_binding(out@, b));
                }
                if exists|x: int| 0 <= x < f + 1 && capture(glob@, (#[trigger] files@[x])@) == Some(b) {
                    let x = choose|x: int| 0 <= x < f + 1 && capture(glob@, (#[trigger] files@[x])@) == Some(b);
                    if x == f {
                        let k = out@.len() - 1;
                        assert(bview(out@[k]) == b);
                        assert(has_binding(out@, b));
                    } else {
                        assert(has_binding(before, b));
                    }
                }
            }
        }
        f = f + 1;
    }
    Ok(())
}

/// Every binding the rule's files give, each at least once.
fn collect_bindings(files: &Vec<String>, rule: &EdgeRule) -> (r: Result<Vec<Binding>, String>)
    ensures
        match r {
            Ok(bs) => forall|b: Seq<(Seq<char>, Seq<char>)>| #[trigger] has_binding(bs@, b) <==> bindings(*rule, files@).contains(b),
            Err(e) => exists|c: Seq<char>| capture_side(*rule, c) && capture_problem(c, e@),
        },
        (forall|c: Seq<char>| capture_side(*rule, c) ==> capture_compiles(c)) ==> r is Ok,
{
    let names = placeholders(rule.from.as_str());
    let mut out: Vec<Binding> = Vec::new();
    if names.len() == 0 {
        proof {
            assert(placeholder_set(rule.from@) =~= Set::<Seq<char>>::empty()) by {
                assert forall|n: Seq<char>| !placeholder_set(rule.from@).contains(n) by {
                    assert(!crate::strset::str_set(names@).contains(n));
                }
            }
        }
        let b: Binding = Vec::new();
        out.push(b);
        proof {
            assert forall|b: Seq<(Seq<char>, Seq<char>)>| #[trigger] has_binding(out@, b) <==> bindings(*rule, files@).contains(b) by {
                assert(bview(out@[0]) =~= Seq::<(Seq<char>, Seq<char>)>::empty());
                if b == Seq::<(Seq<char>, Seq<char>)>::empty() {
                    assert(bview(out@[0]) == b);
                }
            }
        }
        return Ok(out);
    }
    proof {
        let n0 = names@[0]@;
        assert(crate::strset::str_set(names@).contains(n0)) by {
            assert(names@.map_values(|x: String| x@)[0] == n0);
        }
        assert(!placeholder_set(rule.from@).is_empty()) by {
            assert(placeholder_set(rule.from@).contains(n0));
        }
    }
    let mut all_whole = true;
    let mut i: usize = 0;
    while i < names.len()
        invariant
            i <= names.len(),
            crate::strset::str_set(names@) == placeholder_set(rule.from@),
            all_whole == forall|j: int| 0 <= j < i ==> whole(rule.from@, (#[trigger] names@[j])@),
        decreases names.len() - i,
    {
        if !whole_exec(rule.from.as_str(), names[i].as_str()) {
            all_whole = false;
        }
        i = i + 1;
    }
    proof {
        assert(all_whole == from_side(*rule)) by {
            if all_whole {
                assert forall|n: Seq<char>| #[trigger] placeholder_set(rule.from@).contains(n) implies whole(rule.from@, n) by {
                    assert(crate::strset::str_set(names@).contains(n));
                    let nv = names@.map_values(|x: String| x@);
                    let j = choose|j: int| 0 <= j < nv.len() && #[trigger] nv[j] == n;
                    assert(names@[j]@ == n);
                }
            } else {
                let j = choose|j: int| 0 <= j < names.len() && !whole(rule.from@, (#[trigger] names@[j])@);
                assert(crate::strset::str_set(names@).contains(names@[j]@)) by {
                    assert(names@.map_values(|x: String| x@)[j] == names@[j]@);
                }
            }
        }
    }
    if all_whole {
        let got = captures_of(files, rule.from.as_str(), &mut out);
        proof {
            assert(capture_side(*rule, rule.from@));
            assert forall|c: Seq<char>| capture_side(*rule, c) <==> c == rule.from@ by {}
        }
        match got {
            Ok(_) => {
                proof {
                    assert forall|b: Seq<(Seq<char>, Seq<char>)>| #[trigger] has_binding(out@, b) <==> bindings(*rule, files@).contains(b) by {
                        assert(!has_binding(Seq::<Binding>::empty(), b));
                        if has_binding(out@, b) {
                            let f = choose|f: int| 0 <= f < files.len() && capture(rule.from@, (#[trigger] files@[f])@) == Some(b);
                            assert(capture_side(*rule, rule.from@) && capture(rule.from@, files@[f]@) == Some(b));
                        }
                        if bindings(*rule, files@).contains(b) {
                            let (g, f) = choose|g: Seq<char>, f: int| capture_side(*rule, g) && 0 <= f < files.len()
                                && #[trigger] capture(g, files@[f]@) == Some(b);
                            assert(capture(rule.from@, files@[f]@) == Some(b));
                        }
                    }
                }
                return Ok(out);
            },
            Err(e) => return Err(e),
        }
    }
    let mut t: usize = 0;
    while t < rule.to.len()
        invariant
            t <= rule.to.len(),
            !from_side(*rule),
            !placeholder_set(rule.from@).is_empty(),
            forall|b: Seq<(Seq<char>, Seq<char>)>| #[trigger] has_binding(out@, b) <==> exists|j: int, f: int| 0 <= j < t
                && !placeholder_set(rule.to@[j]@).is_empty() && 0 <= f < files.len()
                && #[trigger] capture(rule.to@[j]@, files@[f]@) == Some(b),
            forall|j: int| 0 <= j < t && !placeholder_set(rule.to@[j]@).is_empty() ==> capture_side(*rule, (#[trigger] rule.to@[j])@),
        decreases rule.to.len() - t,
    {
        let here = placeholders(rule.to[t].as_str());
        proof {
            assert(capture_side(*rule, rule.to@[t as int]@) <==> !placeholder_set(rule.to@[t as int]@).is_empty());
        }
        let ghost before = out@;
        if here.len() > 0 {
            proof {
                let n0 = here@[0]@;
                assert(crate::strset::str_set(here@).contains(n0)) by {
                    assert(here@.map_values(|x: String| x@)[0] == n0);
                }
                assert(placeholder_set(rule.to@[t as int]@).contains(n0));
                assert(capture_side(*rule, rule.to@[t as int]@));
            }
            match captures_of(files, rule.to[t].as_str(), &mut out) {
                Ok(_) => {},
                Err(e) => {
                    proof {
                        assert(capture_side(*rule, rule.to@[t as int]@));
                    }
                    return Err(e);
                },
            }
        } else {
            proof {
                assert(placeholder_set(rule.to@[t as int]@) =~= Set::<Seq<char>>::empty()) by {
                    assert forall|n: Seq<char>| !placeholder_set(rule.to@[t as int]@).contains(n) by {
                        assert(!crate::strset::str_set(here@).contains(n));
                    }
                }
            }
        }
        proof {
            assert forall|b: Seq<(Seq<char>, Seq<char>)>| #[trigger] has_binding(out@, b) <==> exists|j: int, f: int| 0 <= j < t + 1
                && !placeholder_set(rule.to@[j]@).is_empty() && 0 <= f < files.len()
                && #[trigger] capture(rule.to@[j]@, files@[f]@) == Some(b) by {
                if exists|j: int, f: int| 0 <= j < t + 1 && !placeholder_set(rule.to@[j]@).is_empty() && 0 <= f < files.len()
                    && #[trigger] capture(rule.to@[j]@, files@[f]@) == Some(b) {
                    let (j, f) = choose|j: int, f: int| 0 <= j < t + 1 && !placeholder_set(rule.to@[j]@).is_empty() && 0 <= f < files.len()
                        && #[trigger] capture(rule.to@[j]@, files@[f]@) == Some(b);
                    if j < t {
                        assert(has_binding(before, b));
                    }
                }
            }
        }
        t = t + 1;
    }
    proof {
        assert forall|b: Seq<(Seq<char>, Seq<char>)>| #[trigger] has_binding(out@, b) <==> bindings(*rule, files@).contains(b) by {
            if bindings(*rule, files@).contains(b) {
                let (g, f) = choose|g: Seq<char>, f: int| capture_side(*rule, g) && 0 <= f < files.len()
                    && #[trigger] capture(g, files@[f]@) == Some(b);
                let j = choose|j: int| 0 <= j < rule.to.len() && g == (#[trigger] rule.to@[j])@ && !placeholder_set(g).is_empty();
                assert(capture(rule.to@[j]@, files@[f]@) == Some(b));
            }
            if has_binding(out@, b) {
                let (j, f) = choose|j: int, f: int| 0 <= j < t && !placeholder_set(rule.to@[j]@).is_empty() && 0 <= f < files.len()
                    && #[trigger] capture(rule.to@[j]@, files@[f]@) == Some(b);
                assert(capture_side(*rule, rule.to@[j]@));
            }
        }
    }
    Ok(out)
}


pub open spec fn adj_ok(adj: Seq<Vec<u32>>, n: int) -> bool {
    &&& adj.len() == n
    &&& forall|f: int| 0 <= f < n ==> ids_sorted(#[trigger] adj[f]@)
    &&& forall|f: int, k: int| 0 <= f < n && 0 <= k < adj[f]@.len() ==> (#[trigger] adj[f]@[k] as int) < n
}

/// Links every file of `from_ids` to every other file of `to_ids`.
fn add_pairs(adj: &mut Vec<Vec<u32>>, from_ids: &Vec<u32>, to_ids: &Vec<u32>)
    requires
        old(adj).len() < u32::MAX,
        adj_ok(old(adj)@, old(adj).len() as int),
        forall|k: int| 0 <= k < from_ids.len() ==> (#[trigger] from_ids@[k] as int) < old(adj).len(),
        forall|k: int| 0 <= k < to_ids.len() ==> (#[trigger] to_ids@[k] as int) < old(adj).len(),
    ensures
        adj_ok(final(adj)@, old(adj).len() as int),
        forall|f: int, t: u32| 0 <= f < old(adj).len() ==> (#[trigger] final(adj)@[f]@.contains(t) <==> (old(adj)@[f]@.contains(t)
            || (from_ids@.contains(f as u32) && to_ids@.contains(t) && f != t as int))),
{
    let ghost a0 = adj@;
    let n = adj.len();
    let mut i: usize = 0;
    while i < from_ids.len()
        invariant
            n == adj.len() == a0.len() < u32::MAX,
            adj_ok(adj@, n as int),
            i <= from_ids.len(),
            forall|k: int| 0 <= k < from_ids.len() ==> (#[trigger] from_ids@[k] as int) < n,
            forall|k: int| 0 <= k < to_ids.len() ==> (#[trigger] to_ids@[k] as int) < n,
            forall|f: int, t: u32| 0 <= f < n ==> (#[trigger] adj@[f]@.contains(t) <==> (a0[f]@.contains(t)
                || (from_ids@.take(i as int).contains(f as u32) && to_ids@.contains(t) && f != t as int))),
        decreases from_ids.len() - i,
    {
        let f = from_ids[i] as usize;
        let ghost before_swap = adj@;
        let mut list: Vec<u32> = Vec::new();
        std::mem::swap(&mut list, &mut adj[f]);
        let ghost l0 = list@;
        let mut j: usize = 0;
        while j < to_ids.len()
            invariant
                j <= to_ids.len(),
                ids_sorted(list@),
                f < n,
                forall|k: int| 0 <= k < to_ids.len() ==> (#[trigger] to_ids@[k] as int) < n,
                forall|k: int| 0 <= k < l0.len() ==> (#[trigger] l0[k] as int) < n,
                forall|k: int| 0 <= k < list@.len() ==> (#[trigger] list@[k] as int) < n,
                forall|t: u32| #[trigger] list@.contains(t) <==> (l0.contains(t) || (to_ids@.take(j as int).contains(t) && f != t as usize)),
            decreases to_ids.len() - j,
        {
            let t = to_ids[j];
            let ghost lb = list@;
            assert(forall|y: u32| #[trigger] lb.contains(y) <==> (l0.contains(y) || (to_ids@.take(j as int).contains(y) && f != y as usize)));
            if t as usize != f {
                insert_id(&mut list, t);
                proof {
                    assert forall|k: int| 0 <= k < list@.len() implies (#[trigger] list@[k] as int) < n by {
                        assert(list@.to_set().contains(list@[k]));
                        if list@[k] != t {
                            assert(lb.to_set().contains(list@[k]));
                        }
                    }
                    assert forall|y: u32| #[trigger] list@.contains(y) <==> lb.contains(y) || y == t by {
                        assert(list@.to_set().contains(y) == list@.contains(y));
                        assert(lb.to_set().contains(y) == lb.contains(y));
                    }
                }
            }
            assert(forall|y: u32| #[trigger] list@.contains(y) <==> (lb.contains(y) || (y == t && t as usize != f)));
            proof {
                assert(to_ids@.take(j + 1) =~= to_ids@.take(j as int).push(t));
                assert forall|y: u32| #[trigger] list@.contains(y) <==> (l0.contains(y) || (to_ids@.take(j + 1).contains(y) && f != y as usize)) by {
                    let t1 = to_ids@.take(j + 1);
                    let t0 = to_ids@.take(j as int);
                    assert(list@.contains(y) <==> (lb.contains(y) || (y == t && t as usize != f)));
                    assert(lb.contains(y) <==> (l0.contains(y) || (t0.contains(y) && f != y as usize)));
                    assert(t1 == t0.push(t));
                    if t1.contains(y) && !t0.contains(y) {
                        let k = choose|k: int| 0 <= k < t1.len() && #[trigger] t1[k] == y;
                        if k < j {
                            assert(t0[k] == y);
                        } else {
                            assert(t1[k] == t);
                        }
                    }
                    if y == t {
                        assert(t1[j as int] == t);
                    }
                    if t0.contains(y) {
                        let k = choose|k: int| 0 <= k < t0.len() && #[trigger] t0[k] == y;
                        assert(t1[k] == y);
                    }
                }
            }
            j = j + 1;
        }
        proof {
            assert(to_ids@.take(j as int) =~= to_ids@);
        }
        let ghost ab = before_swap;
        adj.set(f, list);
        proof {
            assert(from_ids@.take(i + 1) =~= from_ids@.take(i as int).push(f as u32));
            assert forall|x: int, t: u32| 0 <= x < n implies (#[trigger] adj@[x]@.contains(t) <==> (a0[x]@.contains(t)
                || (from_ids@.take(i + 1).contains(x as u32) && to_ids@.contains(t) && x != t as int))) by {
                let f1 = from_ids@.take(i + 1);
                let f0 = from_ids@.take(i as int);
                let now = f1.contains(x as u32);
                let was = f0.contains(x as u32);
                assert(now == (was || x == f as int)) by {
                    if now && !was {
                        let k = choose|k: int| 0 <= k < f1.len() && #[trigger] f1[k] == x as u32;
                        if k < i {
                            assert(f0[k] == x as u32);
                        }
                    }
                    if was {
                        let k = choose|k: int| 0 <= k < f0.len() && #[trigger] f0[k] == x as u32;
                        assert(f1[k] == x as u32);
                    }
                    if x == f as int {
                        assert(f1[i as int] == x as u32);
                    }
                }
                if x == f as int {
                    assert(l0 == ab[x]@);
                }
            }
            assert forall|x: int| 0 <= x < n implies ids_sorted(#[trigger] adj@[x]@) by {}
            assert forall|x: int, k: int| 0 <= x < n && 0 <= k < adj@[x]@.len() implies (#[trigger] adj@[x]@[k] as int) < n by {
                if x != f as int {
                    assert(adj@[x] == ab[x]);
                }
            }
        }
        i = i + 1;
    }
    proof {
        assert(from_ids@.take(i as int) =~= from_ids@);
    }
}


/// In order by file then target, none twice.
pub open spec fn pairs_sorted(s: Seq<(u32, u32)>) -> bool {
    forall|i: int, j: int| 0 <= i < j < s.len() ==> (#[trigger] s[i]).0 < (#[trigger] s[j]).0
        || (s[i].0 == s[j].0 && s[i].1 < s[j].1)
}

/// The files some `to` of the rule, filled from `b`, matches; the error
/// is the problem of a filled `to`.
fn targets_of(files: &Vec<String>, rule: &EdgeRule, b: &Binding) -> (r: Result<Vec<u32>, String>)
    requires
        files.len() < u32::MAX,
    ensures
        match r {
            Ok(ids) => ids_sorted(ids@) && (forall|k: int| 0 <= k < ids.len() ==> (#[trigger] ids@[k] as int) < files.len())
                && forall|t: int| #![trigger ids@.contains(t as u32)] 0 <= t < files.len() ==> (ids@.contains(t as u32) <==> exists|i: int| 0 <= i < rule.to.len()
                    && glob_matches(fill((#[trigger] rule.to@[i])@, bview(*b)), files@[t]@)),
            Err(e) => exists|i: int| 0 <= i < rule.to.len() && glob_problem(fill((#[trigger] rule.to@[i])@, bview(*b))) == Some(e@),
        },
        (forall|i: int| 0 <= i < rule.to.len() ==> glob_problem(fill((#[trigger] rule.to@[i])@, bview(*b))) is None) ==> r is Ok,
{
    let mut ids: Vec<u32> = Vec::new();
    let mut i: usize = 0;
    while i < rule.to.len()
        invariant
            files.len() < u32::MAX,
            i <= rule.to.len(),
            ids_sorted(ids@),
            forall|k: int| 0 <= k < ids.len() ==> (#[trigger] ids@[k] as int) < files.len(),
            forall|t: int| #![trigger ids@.contains(t as u32)] 0 <= t < files.len() ==> (ids@.contains(t as u32) <==> exists|q: int| 0 <= q < i
                && glob_matches(fill((#[trigger] rule.to@[q])@, bview(*b)), files@[t]@)),
        decreases rule.to.len() - i,
    {
        let g = fill_exec(rule.to[i].as_str(), b);
        let found = match matching(files, g.as_str()) {
            Ok(f) => f,
            Err(e) => return Err(e),
        };
        let mut k: usize = 0;
        let ghost i0 = ids@;
        while k < found.len()
            invariant
                k <= found.len(),
                ids_sorted(ids@),
                forall|q: int| 0 <= q < found.len() ==> (#[trigger] found@[q] as int) < files.len(),
                forall|q: int| 0 <= q < ids.len() ==> (#[trigger] ids@[q] as int) < files.len(),
                forall|y: u32| #[trigger] ids@.contains(y) <==> (i0.contains(y) || found@.take(k as int).contains(y)),
            decreases found.len() - k,
        {
            let ghost ib = ids@;
            insert_id(&mut ids, found[k]);
            proof {
                let f0 = found@.take(k as int);
                let f1 = found@.take(k + 1);
                assert(f1 == f0.push(found@[k as int]));
                assert forall|y: u32| #[trigger] ids@.contains(y) <==> (i0.contains(y) || f1.contains(y)) by {
                    assert(ids@.to_set().contains(y) == ids@.contains(y));
                    assert(ib.to_set().contains(y) == ib.contains(y));
                    if f1.contains(y) && !f0.contains(y) {
                        let q = choose|q: int| 0 <= q < f1.len() && #[trigger] f1[q] == y;
                        if q < k {
                            assert(f0[q] == y);
                        }
                    }
                    if f0.contains(y) {
                        let q = choose|q: int| 0 <= q < f0.len() && #[trigger] f0[q] == y;
                        assert(f1[q] == y);
                    }
                    if y == found@[k as int] {
                        assert(f1[k as int] == y);
                    }
                }
                assert forall|q: int| 0 <= q < ids.len() implies (#[trigger] ids@[q] as int) < files.len() by {
                    assert(ids@.contains(ids@[q]));
                    if !ib.contains(ids@[q]) {
                        assert(ids@[q] == found@[k as int]);
                    } else {
                        let w = choose|w: int| 0 <= w < ib.len() && ib[w] == ids@[q];
                    }
                }
            }
            k = k + 1;
        }
        proof {
            assert(found@.take(k as int) =~= found@);
            assert forall|t: int| #![trigger ids@.contains(t as u32)] 0 <= t < files.len() implies (ids@.contains(t as u32) <==> exists|q: int| 0 <= q < i + 1
                && glob_matches(fill((#[trigger] rule.to@[q])@, bview(*b)), files@[t]@)) by {
                if exists|q: int| 0 <= q < i + 1 && glob_matches(fill((#[trigger] rule.to@[q])@, bview(*b)), files@[t]@) {
                    let q = choose|q: int| 0 <= q < i + 1 && glob_matches(fill((#[trigger] rule.to@[q])@, bview(*b)), files@[t]@);
                    if q == i {
                        assert(found@.contains(t as u32));
                    }
                }
            }
        }
        i = i + 1;
    }
    proof {
        assert forall|t: int| #![trigger ids@.contains(t as u32)] 0 <= t < files.len() implies (ids@.contains(t as u32) <==> exists|q: int| 0 <= q < rule.to.len()
            && glob_matches(fill((#[trigger] rule.to@[q])@, bview(*b)), files@[t]@)) by {
            assert(i == rule.to.len());
            assert(ids@.contains(t as u32) <==> exists|q: int| 0 <= q < i
                && glob_matches(fill((#[trigger] rule.to@[q])@, bview(*b)), files@[t]@));
            if ids@.contains(t as u32) {
                let q = choose|q: int| 0 <= q < i && glob_matches(fill((#[trigger] rule.to@[q])@, bview(*b)), files@[t]@);
                assert(0 <= q < rule.to.len());
            }
        }
    }
    Ok(ids)
}

/// Every `(from, to)` file pair the rule links, by id, in order, each once;
/// an error when one of its globs does not compile.
pub fn pairs(files: &Vec<String>, rule: &EdgeRule) -> (r: Result<Vec<(u32, u32)>, String>)
    requires
        files.len() < u32::MAX,
    ensures
        match r {
            Ok(ps) => pairs_sorted(ps@) && forall|f: int, t: int| #[trigger] ps@.contains((f as u32, t as u32))
                && 0 <= f <= u32::MAX && 0 <= t <= u32::MAX <==> rule_pair(*rule, files@, f, t),
            Err(e) => exists|g: Seq<char>| #[trigger] rule_glob(*rule, files@, g) && glob_problem(g) == Some(e@),
        },
        rule_compiles(*rule, files@) ==> r is Ok,
{
    let n = files.len();
    let bs = match collect_bindings(files, rule) {
        Ok(bs) => bs,
        Err(e) => {
            proof {
                let c = choose|c: Seq<char>| capture_side(*rule, c) && capture_problem(c, e@);
                if glob_problem(c) == Some(e@) {
                    assert(rule_glob(*rule, files@, c));
                } else {
                    let k = choose|k: int| 0 <= k < split(c, '/').len() && glob_problem(#[trigger] split(c, '/')[k]) == Some(e@);
                    assert(rule_glob(*rule, files@, split(c, '/')[k]));
                }
            }
            return Err(e);
        },
    };
    proof {
        if rule_compiles(*rule, files@) {
            assert forall|c: Seq<char>| capture_side(*rule, c) implies capture_compiles(c) by {
                assert(rule_glob(*rule, files@, c));
                assert forall|k: int| 0 <= k < split(c, '/').len() implies glob_problem(#[trigger] split(c, '/')[k]) is None by {
                    assert(rule_glob(*rule, files@, split(c, '/')[k]));
                }
            }
        }
    }
    let mut adj: Vec<Vec<u32>> = Vec::new();
    let mut f: usize = 0;
    while f < n
        invariant
            f <= n == files.len() < u32::MAX,
            adj_ok(adj@, f as int),
            forall|x: int| 0 <= x < f ==> (#[trigger] adj@[x])@.len() == 0,
        decreases n - f,
    {
        adj.push(Vec::new());
        f = f + 1;
    }
    let mut k: usize = 0;
    while k < bs.len()
        invariant
            n == files.len() < u32::MAX,
            k <= bs.len(),
            adj_ok(adj@, n as int),
            forall|b: Seq<(Seq<char>, Seq<char>)>| #[trigger] has_binding(bs@, b) <==> bindings(*rule, files@).contains(b),
            rule_compiles(*rule, files@) ==> forall|g: Seq<char>| #[trigger] rule_glob(*rule, files@, g) ==> glob_problem(g) is None,
            forall|x: int, t: u32| 0 <= x < n ==> (#[trigger] adj@[x]@.contains(t) <==> ((t as int) < n
                && exists|j: int| 0 <= j < k && pair_by(*rule, files@, bview(#[trigger] bs@[j]), x, t as int))),
        decreases bs.len() - k,
    {
        let b = &bs[k];
        proof {
            assert(has_binding(bs@, bview(*b)));
            assert(bindings(*rule, files@).contains(bview(*b)));
        }
        let fg = fill_exec(rule.from.as_str(), b);
        let from_ids = match matching(files, fg.as_str()) {
            Ok(ids) => ids,
            Err(e) => {
                proof {
                    assert(rule_glob(*rule, files@, fg@));
                }
                return Err(e);
            },
        };
        let ghost a0 = adj@;
        let ghost bb = bview(*b);
        if from_ids.len() > 0 {
            let to_ids = match targets_of(files, rule, b) {
                Ok(ids) => ids,
                Err(e) => {
                    proof {
                        let i = choose|i: int| 0 <= i < rule.to.len() && glob_problem(fill((#[trigger] rule.to@[i])@, bview(*b))) == Some(e@);
                        assert(rule_glob(*rule, files@, fill(rule.to@[i]@, bview(*b))));
                    }
                    return Err(e);
                },
            };
            proof {
                if rule_compiles(*rule, files@) {
                    assert forall|i: int| 0 <= i < rule.to.len() implies glob_problem(fill((#[trigger] rule.to@[i])@, bview(*b))) is None by {
                        assert(rule_glob(*rule, files@, fill(rule.to@[i]@, bview(*b))));
                    }
                }
            }
            add_pairs(&mut adj, &from_ids, &to_ids);
            proof {
                assert forall|x: int, t: u32| 0 <= x < n implies (#[trigger] adj@[x]@.contains(t) <==> (a0[x]@.contains(t)
                    || ((t as int) < n && pair_by(*rule, files@, bb, x, t as int)))) by {
                    assert(from_ids@.contains(x as u32) <==> glob_matches(fill(rule.from@, bb), files@[x]@));
                    if (t as int) < n {
                        assert(to_ids@.contains((t as int) as u32) <==> exists|i: int| 0 <= i < rule.to.len()
                            && glob_matches(fill((#[trigger] rule.to@[i])@, bb), files@[t as int]@));
                    } else if to_ids@.contains(t) {
                        let w = choose|w: int| 0 <= w < to_ids@.len() && to_ids@[w] == t;
                        assert((to_ids@[w] as int) < n);
                    }
                }
            }
        } else {
            proof {
                assert forall|x: int, t: u32| 0 <= x < n implies (#[trigger] adj@[x]@.contains(t) <==> (a0[x]@.contains(t)
                    || ((t as int) < n && pair_by(*rule, files@, bb, x, t as int)))) by {
                    assert(from_ids@.contains(x as u32) <==> glob_matches(fill(rule.from@, bb), files@[x]@));
                    assert(!from_ids@.contains(x as u32));
                }
            }
        }
        proof {
            assert(bview(bs@[k as int]) == bb);
            assert forall|x: int, t: u32| 0 <= x < n implies (#[trigger] adj@[x]@.contains(t) <==> ((t as int) < n
                && exists|j: int| 0 <= j < k + 1 && pair_by(*rule, files@, bview(#[trigger] bs@[j]), x, t as int))) by {
                let old_has = (t as int) < n && exists|j: int| 0 <= j < k && pair_by(*rule, files@, bview(#[trigger] bs@[j]), x, t as int);
                assert(a0[x]@.contains(t) <==> old_has);
                let now = (t as int) < n && exists|j: int| 0 <= j < k + 1 && pair_by(*rule, files@, bview(#[trigger] bs@[j]), x, t as int);
                assert(now == (old_has || ((t as int) < n && pair_by(*rule, files@, bb, x, t as int)))) by {
                    if now {
                        let j = choose|j: int| 0 <= j < k + 1 && pair_by(*rule, files@, bview(#[trigger] bs@[j]), x, t as int);
                        if j < k {
                            assert(old_has);
                        }
                    }
                    if (t as int) < n && pair_by(*rule, files@, bb, x, t as int) {
                        assert(pair_by(*rule, files@, bview(bs@[k as int]), x, t as int));
                    }
                }
            }
        }
        k = k + 1;
    }
    let mut out: Vec<(u32, u32)> = Vec::new();
    let mut x: usize = 0;
    while x < n
        invariant
            n == files.len() < u32::MAX,
            x <= n,
            adj_ok(adj@, n as int),
            pairs_sorted(out@),
            forall|q: int| 0 <= q < out.len() ==> (#[trigger] out@[q]).0 < x,
            forall|a: u32, c: u32| #[trigger] out@.contains((a, c)) <==> ((a as int) < x && adj@[a as int]@.contains(c)),
        decreases n - x,
    {
        let list = &adj[x];
        let mut y: usize = 0;
        let ghost o0 = out@;
        while y < list.len()
            invariant
                x < n == adj.len(),
                n < u32::MAX,
                list == adj@[x as int],
                ids_sorted(list@),
                y <= list.len(),
                out@.len() >= o0.len(),
                out@.take(o0.len() as int) == o0,
                pairs_sorted(out@),
                forall|q: int| 0 <= q < o0.len() ==> (#[trigger] o0[q]).0 < x,
                forall|q: int| o0.len() <= q < out.len() ==> (#[trigger] out@[q]).0 == x && out@[q].1 == list@[q - o0.len()],
                out.len() == o0.len() + y,
            decreases list.len() - y,
        {
            let ghost ob = out@;
            out.push((x as u32, list[y]));
            proof {
                let last = out.len() - 1;
                assert(out@[last] == (x as u32, list@[y as int]));
                assert forall|q: int| 0 <= q < last implies #[trigger] out@[q] == ob[q] by {}
                assert(out@.take(o0.len() as int) =~= o0) by {
                    assert forall|q: int| 0 <= q < o0.len() implies out@[q] == o0[q] by {
                        assert(ob.take(o0.len() as int)[q] == ob[q]);
                    }
                }
                assert forall|q: int| o0.len() <= q < out.len() implies (#[trigger] out@[q]).0 == x && out@[q].1 == list@[q - o0.len()] by {
                    if q < last {
                        assert(out@[q] == ob[q]);
                    }
                }
                assert forall|i: int, j: int| 0 <= i < j < out@.len() implies (#[trigger] out@[i]).0 < (#[trigger] out@[j]).0
                    || (out@[i].0 == out@[j].0 && out@[i].1 < out@[j].1) by {
                    if j == last {
                        if i < o0.len() {
                            assert(out@[i] == o0[i]);
                            assert(o0[i].0 < x);
                        } else {
                            assert(out@[i].0 == x && out@[i].1 == list@[i - o0.len()]);
                            assert(list@[i - o0.len()] < list@[y as int]);
                        }
                    } else {
                        assert(out@[i] == ob[i] && out@[j] == ob[j]);
                    }
                }
            }
            y = y + 1;
        }
        proof {
            assert forall|q: int| 0 <= q < out.len() implies (#[trigger] out@[q]).0 < x + 1 by {
                if q < o0.len() {
                    assert(out@.take(o0.len() as int)[q] == out@[q]);
                    assert(o0[q].0 < x);
                }
            }
            assert forall|a: u32, c: u32| #[trigger] out@.contains((a, c)) <==> ((a as int) < x + 1 && adj@[a as int]@.contains(c)) by {
                if out@.contains((a, c)) {
                    let q = choose|q: int| 0 <= q < out@.len() && out@[q] == (a, c);
                    if q < o0.len() {
                        assert(o0[q] == (a, c));
                        assert(o0.contains((a, c)));
                    } else {
                        assert(list@[q - o0.len()] == c);
                    }
                }
                if (a as int) < x + 1 && adj@[a as int]@.contains(c) {
                    if (a as int) < x {
                        assert(o0.contains((a, c)));
                        let q = choose|q: int| 0 <= q < o0.len() && o0[q] == (a, c);
                        assert(out@[q] == (a, c));
                    } else {
                        let w = choose|w: int| 0 <= w < list@.len() && list@[w] == c;
                        assert(out@[o0.len() + w] == (a, c));
                    }
                }
            }
        }
        x = x + 1;
    }
    proof {
        assert forall|f: int, t: int| #[trigger] out@.contains((f as u32, t as u32)) && 0 <= f <= u32::MAX && 0 <= t <= u32::MAX
            <==> rule_pair(*rule, files@, f, t) by {
            if rule_pair(*rule, files@, f, t) {
                let b = choose|b: Seq<(Seq<char>, Seq<char>)>| #[trigger] bindings(*rule, files@).contains(b) && pair_by(*rule, files@, b, f, t);
                assert(has_binding(bs@, b));
                let j = choose|j: int| 0 <= j < bs.len() && bview(#[trigger] bs@[j]) == b;
                assert(adj@[f]@.contains(t as u32));
            }
            if out@.contains((f as u32, t as u32)) && 0 <= f <= u32::MAX && 0 <= t <= u32::MAX {
                assert(adj@[f]@.contains(t as u32));
                let j = choose|j: int| 0 <= j < bs.len() && pair_by(*rule, files@, bview(#[trigger] bs@[j]), f, t);
                assert(has_binding(bs@, bview(bs@[j])));
            }
        }
    }
    Ok(out)
}


/// The pairs the rule links, in order, each once.
pub open spec fn rule_pair_list(rule: EdgeRule, files: Seq<String>) -> Seq<(u32, u32)> {
    choose|s: Seq<(u32, u32)>| pairs_sorted(s) && forall|f: int, t: int| #[trigger] s.contains((f as u32, t as u32))
        && 0 <= f <= u32::MAX && 0 <= t <= u32::MAX <==> rule_pair(rule, files, f, t)
}

pub open spec fn pair_lt(p: (u32, u32), q: (u32, u32)) -> bool {
    p.0 < q.0 || (p.0 == q.0 && p.1 < q.1)
}

/// Two lists in order, none twice, with the same pairs are the same list.
proof fn lemma_pairs_unique(a: Seq<(u32, u32)>, b: Seq<(u32, u32)>)
    requires
        pairs_sorted(a),
        pairs_sorted(b),
        forall|p: (u32, u32)| a.contains(p) <==> b.contains(p),
    ensures
        a == b,
    decreases a.len(),
{
    if a.len() == 0 {
        if b.len() > 0 {
            assert(b.contains(b[0]));
        }
        assert(a =~= b);
    } else {
        assert(a.contains(a[0]));
        assert(b.len() > 0);
        assert(b.contains(b[0]));
        let ia = choose|i: int| 0 <= i < a.len() && a[i] == b[0];
        let ib = choose|i: int| 0 <= i < b.len() && b[i] == a[0];
        if ia > 0 {
            assert(pair_lt(a[0], a[ia]));
        }
        if ib > 0 {
            assert(pair_lt(b[0], b[ib]));
        }
        assert(a[0] == b[0]);
        let a1 = a.drop_first();
        let b1 = b.drop_first();
        assert forall|i: int, j: int| 0 <= i < j < a1.len() implies (#[trigger] a1[i]).0 < (#[trigger] a1[j]).0
            || (a1[i].0 == a1[j].0 && a1[i].1 < a1[j].1) by {
            assert(a1[i] == a[i + 1] && a1[j] == a[j + 1]);
        }
        assert forall|i: int, j: int| 0 <= i < j < b1.len() implies (#[trigger] b1[i]).0 < (#[trigger] b1[j]).0
            || (b1[i].0 == b1[j].0 && b1[i].1 < b1[j].1) by {
            assert(b1[i] == b[i + 1] && b1[j] == b[j + 1]);
        }
        assert forall|p: (u32, u32)| a1.contains(p) <==> b1.contains(p) by {
            if a1.contains(p) {
                let i = choose|i: int| 0 <= i < a1.len() && a1[i] == p;
                assert(a[i + 1] == p);
                assert(a.contains(p));
                assert(pair_lt(a[0], p));
                let j = choose|j: int| 0 <= j < b.len() && b[j] == p;
                assert(j != 0);
                assert(b1[j - 1] == p);
            }
            if b1.contains(p) {
                let i = choose|i: int| 0 <= i < b1.len() && b1[i] == p;
                assert(b[i + 1] == p);
                assert(b.contains(p));
                assert(pair_lt(b[0], p));
                let j = choose|j: int| 0 <= j < a.len() && a[j] == p;
                assert(j != 0);
                assert(a1[j - 1] == p);
            }
        }
        lemma_pairs_unique(a1, b1);
        assert(a =~= seq![a[0]] + a1);
        assert(b =~= seq![b[0]] + b1);
    }
}

/// Every `(from, to)` file pair the rule links, by id, in order, each once
/// (`rule_pair_list`); an error when one of its globs does not compile.
pub fn rule_pairs(files: &Vec<String>, rule: &EdgeRule) -> (r: Result<Vec<(u32, u32)>, String>)
    requires
        files.len() < u32::MAX,
    ensures
        match r {
            Ok(ps) => ps@ == rule_pair_list(*rule, files@)
                && (forall|k: int| 0 <= k < ps.len() ==> rule_pair(*rule, files@, (#[trigger] ps@[k]).0 as int, ps@[k].1 as int))
                && forall|f: int, t: int| #[trigger] rule_pair(*rule, files@, f, t) ==> ps@.contains((f as u32, t as u32)),
            Err(e) => exists|g: Seq<char>| #[trigger] rule_glob(*rule, files@, g) && glob_problem(g) == Some(e@),
        },
        rule_compiles(*rule, files@) ==> r is Ok,
{
    let r = pairs(files, rule);
    match r {
        Ok(ps) => {
            proof {
                let l = rule_pair_list(*rule, files@);
                assert(pairs_sorted(l) && forall|f: int, t: int| #[trigger] l.contains((f as u32, t as u32))
                    && 0 <= f <= u32::MAX && 0 <= t <= u32::MAX <==> rule_pair(*rule, files@, f, t));
                assert forall|p: (u32, u32)| ps@.contains(p) <==> l.contains(p) by {
                    let f = p.0 as int;
                    let t = p.1 as int;
                    assert((f as u32, t as u32) == p);
                    assert(ps@.contains((f as u32, t as u32)) && 0 <= f <= u32::MAX && 0 <= t <= u32::MAX <==> rule_pair(*rule, files@, f, t));
                    assert(l.contains((f as u32, t as u32)) && 0 <= f <= u32::MAX && 0 <= t <= u32::MAX <==> rule_pair(*rule, files@, f, t));
                }
                lemma_pairs_unique(ps@, l);
                assert forall|k: int| 0 <= k < ps.len() implies rule_pair(*rule, files@, (#[trigger] ps@[k]).0 as int, ps@[k].1 as int) by {
                    let p = ps@[k];
                    assert(ps@.contains((p.0 as int as u32, p.1 as int as u32)));
                }
            }
            Ok(ps)
        },
        Err(e) => Err(e),
    }
}

} // verus!
