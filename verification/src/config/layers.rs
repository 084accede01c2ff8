//! Config layers as plain values, and how they merge: maps merge by key,
//! lists append unless written as `{ replace = [...] }`, and anything else
//! is overridden. Each value remembers, by dotted key, the layer that set
//! it. A map keeps its keys in order, as the JSON values the layers are
//! read into do.
use vstd::prelude::*;
use crate::text::{compare_str, copy_str, push_str, same_str, seq_order};

verus! {

/// A config value as a layer writes it.
#[derive(Debug, PartialEq)]
pub enum Value {
    Null,
    Bool(bool),
    /// A number, as its text.
    Number(String),
    Str(String),
    Array(Vec<Value>),
    /// A map, by key in order.
    Object(Vec<Entry>),
}

/// One key of a map and its value.
#[derive(Debug, PartialEq)]
pub struct Entry {
    pub key: String,
    pub value: Value,
}

/// A value as text and sequences.
pub enum JValue {
    Null,
    Bool(bool),
    Number(Seq<char>),
    Str(Seq<char>),
    Array(Seq<JValue>),
    Object(Seq<(Seq<char>, JValue)>),
}

pub open spec fn jv(v: Value) -> JValue
    decreases v,
{
    match v {
        Value::Null => JValue::Null,
        Value::Bool(b) => JValue::Bool(b),
        Value::Number(s) => JValue::Number(s@),
        Value::Str(s) => JValue::Str(s@),
        Value::Array(items) => JValue::Array(jvs(items@)),
        Value::Object(es) => JValue::Object(jes(es@)),
    }
}

pub open spec fn jvs(items: Seq<Value>) -> Seq<JValue>
    decreases items,
{
    if items.len() == 0 {
        Seq::empty()
    } else {
        jvs(items.subrange(0, items.len() - 1)).push(jv(items[items.len() - 1]))
    }
}

pub open spec fn jes(es: Seq<Entry>) -> Seq<(Seq<char>, JValue)>
    decreases es,
{
    if es.len() == 0 {
        Seq::empty()
    } else {
        jes(es.subrange(0, es.len() - 1)).push((es[es.len() - 1].key@, jv(es[es.len() - 1].value)))
    }
}

pub proof fn lemma_jvs(items: Seq<Value>)
    ensures
        jvs(items).len() == items.len(),
        forall|i: int| 0 <= i < items.len() ==> jvs(items)[i] == jv(#[trigger] items[i]),
    decreases items.len(),
{
    if items.len() > 0 {
        let d = items.subrange(0, items.len() - 1);
        lemma_jvs(d);
        assert forall|i: int| 0 <= i < items.len() implies jvs(items)[i] == jv(#[trigger] items[i]) by {
            if i < items.len() - 1 {
                assert(items[i] == d[i]);
            }
        }
    }
}

pub proof fn lemma_jes(es: Seq<Entry>)
    ensures
        jes(es).len() == es.len(),
        forall|i: int| 0 <= i < es.len() ==> jes(es)[i] == ((#[trigger] es[i]).key@, jv(es[i].value)),
    decreases es.len(),
{
    if es.len() > 0 {
        let d = es.subrange(0, es.len() - 1);
        lemma_jes(d);
        assert forall|i: int| 0 <= i < es.len() implies jes(es)[i] == ((#[trigger] es[i]).key@, jv(es[i].value)) by {
            if i < es.len() - 1 {
                assert(es[i] == d[i]);
            }
        }
    }
}

/// Where `k` belongs among keys in order: the first key not below it.
pub open spec fn seek<T>(es: Seq<(Seq<char>, T)>, k: Seq<char>) -> int
    decreases es.len(),
{
    if es.len() == 0 || seq_order(es[0].0, k) >= 0 { 0 } else { 1 + seek(es.drop_first(), k) }
}

pub proof fn lemma_seek<T>(es: Seq<(Seq<char>, T)>, k: Seq<char>)
    ensures
        0 <= seek(es, k) <= es.len(),
        forall|i: int| 0 <= i < seek(es, k) ==> seq_order((#[trigger] es[i]).0, k) < 0,
        seek(es, k) < es.len() ==> seq_order(es[seek(es, k)].0, k) >= 0,
    decreases es.len(),
{
    if es.len() > 0 && seq_order(es[0].0, k) < 0 {
        lemma_seek(es.drop_first(), k);
        assert forall|i: int| 0 <= i < seek(es, k) implies seq_order((#[trigger] es[i]).0, k) < 0 by {
            if i > 0 {
                assert(es[i] == es.drop_first()[i - 1]);
            }
        }
    }
}

/// Whether the keys hold `k` where it belongs.
pub open spec fn holds<T>(es: Seq<(Seq<char>, T)>, k: Seq<char>) -> bool {
    seek(es, k) < es.len() && es[seek(es, k)].0 == k
}

/// The value at `k`, if any.
pub open spec fn lookup<T>(es: Seq<(Seq<char>, T)>, k: Seq<char>) -> Option<T> {
    if holds(es, k) { Some(es[seek(es, k)].1) } else { None }
}

/// `k` set to `v`: replaced where it is, or put where it belongs.
pub open spec fn put<T>(es: Seq<(Seq<char>, T)>, k: Seq<char>, v: T) -> Seq<(Seq<char>, T)> {
    if holds(es, k) { es.update(seek(es, k), (k, v)) } else { es.insert(seek(es, k), (k, v)) }
}

/// The origins without `path` and without any key under it.
pub open spec fn drop_under(o: Seq<(Seq<char>, Seq<char>)>, path: Seq<char>) -> Seq<(Seq<char>, Seq<char>)> {
    o.filter(|e: (Seq<char>, Seq<char>)| !(e.0 == path || (path + "."@).is_prefix_of(e.0)))
}

/// `key` under `prefix`, dotted.
pub open spec fn join_key(prefix: Seq<char>, key: Seq<char>) -> Seq<char> {
    if prefix.len() == 0 { key } else { prefix + "."@ + key }
}

/// The origin of a list a later layer appended to: both layers, unless it
/// is the same one.
pub open spec fn appended_label(before: Option<Seq<char>>, label: Seq<char>) -> Seq<char> {
    match before {
        Some(b) => if b != label { b + " + "@ + label } else { label },
        None => label,
    }
}

/// The items of `{ replace = [...] }`.
pub open spec fn replacement(v: JValue) -> Option<Seq<JValue>> {
    match v {
        JValue::Object(es) => if es.len() == 1 && es[0].0 == "replace"@ {
            match es[0].1 {
                JValue::Array(items) => Some(items),
                _ => None,
            }
        } else {
            None
        },
        _ => None,
    }
}

/// The origins once every leaf of `v` at `path` is set by `label`: a map
/// with keys records each of its values under its key, anything else is a
/// leaf.
pub open spec fn record_spec(v: JValue, path: Seq<char>, label: Seq<char>, o: Seq<(Seq<char>, Seq<char>)>) -> Seq<(Seq<char>, Seq<char>)>
    decreases v,
{
    match v {
        JValue::Object(es) => if es.len() > 0 { record_all(es, path, label, o) } else { put(o, path, label) },
        _ => put(o, path, label),
    }
}

pub open spec fn record_all(es: Seq<(Seq<char>, JValue)>, path: Seq<char>, label: Seq<char>, o: Seq<(Seq<char>, Seq<char>)>) -> Seq<(Seq<char>, Seq<char>)>
    decreases es,
{
    if es.len() == 0 {
        o
    } else {
        let last = es[es.len() - 1];
        record_spec(last.1, join_key(path, last.0), label, record_all(es.subrange(0, es.len() - 1), path, label, o))
    }
}

/// `over`, a layer's value at `path`, merged into `base`, and the origins
/// after: a replacement replaces; maps merge key by key; a list appends a
/// non-empty list; anything else overrides and records its leaves.
pub open spec fn merge_spec(
    base: JValue,
    over: JValue,
    label: Seq<char>,
    path: Seq<char>,
    o: Seq<(Seq<char>, Seq<char>)>,
) -> (JValue, Seq<(Seq<char>, Seq<char>)>)
    decreases over,
{
    match replacement(over) {
        Some(items) => (JValue::Array(items), put(drop_under(o, path), path, label)),
        None => {
            let overridden = (over, record_spec(over, path, label, drop_under(o, path)));
            match over {
                JValue::Object(om) => match base {
                    JValue::Object(bm) => {
                        let (es, o2) = merge_all(bm, om, label, path, o);
                        (JValue::Object(es), o2)
                    },
                    _ => overridden,
                },
                JValue::Array(oi) => match base {
                    JValue::Array(bi) => if oi.len() == 0 {
                        (base, o)
                    } else {
                        (JValue::Array(bi + oi), put(o, path, appended_label(lookup(o, path), label)))
                    },
                    _ => overridden,
                },
                _ => overridden,
            }
        },
    }
}

pub open spec fn merge_all(
    bm: Seq<(Seq<char>, JValue)>,
    om: Seq<(Seq<char>, JValue)>,
    label: Seq<char>,
    path: Seq<char>,
    o: Seq<(Seq<char>, Seq<char>)>,
) -> (Seq<(Seq<char>, JValue)>, Seq<(Seq<char>, Seq<char>)>)
    decreases om,
{
    if om.len() == 0 {
        (bm, o)
    } else {
        let (bm1, o1) = merge_all(bm, om.subrange(0, om.len() - 1), label, path, o);
        let last = om[om.len() - 1];
        let slot = match lookup(bm1, last.0) {
            Some(x) => x,
            None => JValue::Null,
        };
        let (nv, o2) = merge_spec(slot, last.1, label, join_key(path, last.0), o1);
        (put(bm1, last.0, nv), o2)
    }
}

/// The origins as text.
pub open spec fn ov(o: Seq<(String, String)>) -> Seq<(Seq<char>, Seq<char>)> {
    o.map_values(|e: (String, String)| (e.0@, e.1@))
}

proof fn lemma_seek_at<T>(es: Seq<(Seq<char>, T)>, k: Seq<char>, j: int)
    requires
        0 <= j <= es.len(),
        forall|i: int| 0 <= i < j ==> seq_order((#[trigger] es[i]).0, k) < 0,
        j == es.len() || seq_order(es[j].0, k) >= 0,
    ensures
        seek(es, k) == j,
    decreases j,
{
    if j > 0 {
        let d = es.drop_first();
        assert forall|i: int| 0 <= i < j - 1 implies seq_order((#[trigger] d[i]).0, k) < 0 by {
            assert(d[i] == es[i + 1]);
        }
        if j < es.len() {
            assert(d[j - 1] == es[j]);
        }
        lemma_seek_at(d, k, j - 1);
        assert(seq_order(es[0].0, k) < 0);
    }
}

fn seek_origin(o: &Vec<(String, String)>, k: &str) -> (r: usize)
    ensures
        r == seek(ov(o@), k@),
{
    let ghost v = ov(o@);
    let mut j: usize = 0;
    while j < o.len() && compare_str(o[j].0.as_str(), k) < 0
        invariant
            j <= o.len(),
            v == ov(o@),
            forall|i: int| 0 <= i < j ==> seq_order((#[trigger] v[i]).0, k@) < 0,
        decreases o.len() - j,
    {
        proof {
            assert(v[j as int].0 == o@[j as int].0@);
        }
        j = j + 1;
    }
    proof {
        if j < o.len() {
            assert(v[j as int].0 == o@[j as int].0@);
        }
        lemma_seek_at(v, k@, j as int);
    }
    j
}

fn lookup_origin(o: &Vec<(String, String)>, k: &str) -> (r: Option<String>)
    ensures
        match lookup(ov(o@), k@) {
            Some(x) => r matches Some(s) && s@ == x,
            None => r is None,
        },
{
    let j = seek_origin(o, k);
    proof {
        lemma_seek(ov(o@), k@);
    }
    if j < o.len() && same_str(o[j].0.as_str(), k) {
        Some(copy_str(o[j].1.as_str()))
    } else {
        None
    }
}

fn put_origin(o: &mut Vec<(String, String)>, k: &str, v: &str)
    ensures
        ov(final(o)@) == put(ov(old(o)@), k@, v@),
{
    let j = seek_origin(o, k);
    proof {
        lemma_seek(ov(o@), k@);
    }
    let ghost before = o@;
    if j < o.len() && same_str(o[j].0.as_str(), k) {
        o.remove(j);
        o.insert(j, (copy_str(k), copy_str(v)));
        proof {
            assert(ov(o@) =~= ov(before).update(j as int, (k@, v@)));
        }
    } else {
        o.insert(j, (copy_str(k), copy_str(v)));
        proof {
            assert(ov(o@) =~= ov(before).insert(j as int, (k@, v@)));
        }
    }
}

fn drop_under_origins(o: &mut Vec<(String, String)>, path: &str)
    ensures
        ov(final(o)@) == drop_under(ov(old(o)@), path@),
{
    let ghost keep = |e: (Seq<char>, Seq<char>)| !(e.0 == path@ || (path@ + "."@).is_prefix_of(e.0));
    let mut under = copy_str(path);
    push_str(&mut under, ".");
    let mut kept: Vec<(String, String)> = Vec::new();
    let mut i: usize = 0;
    while i < o.len()
        invariant
            i <= o.len(),
            under@ == path@ + "."@,
            keep == (|e: (Seq<char>, Seq<char>)| !(e.0 == path@ || (path@ + "."@).is_prefix_of(e.0))),
            ov(kept@) == ov(o@).take(i as int).filter(keep),
        decreases o.len() - i,
    {
        proof {
            assert(ov(o@).take(i as int + 1).drop_last() =~= ov(o@).take(i as int));
            reveal(Seq::filter);
        }
        let key = o[i].0.as_str();
        let kc = crate::text::chars_of(key);
        let drop = same_str(key, path) || crate::text::starts_with_lit(&kc, under.as_str());
        if !drop {
            let ghost before = kept@;
            kept.push((copy_str(key), copy_str(o[i].1.as_str())));
            proof {
                assert(ov(kept@) =~= ov(before).push((o@[i as int].0@, o@[i as int].1@)));
            }
        }
        i = i + 1;
    }
    proof {
        assert(ov(o@).take(i as int) =~= ov(o@));
    }
    *o = kept;
}

/// `key` under `prefix`, dotted.
pub fn join(prefix: &str, key: &str) -> (r: String)
    ensures
        r@ == join_key(prefix@, key@),
{
    if prefix.unicode_len() == 0 {
        copy_str(key)
    } else {
        let mut out = copy_str(prefix);
        push_str(&mut out, ".");
        push_str(&mut out, key);
        out
    }
}

/// Sets the origin of every leaf of `value`, at `path`, to `label`.
pub fn record(value: &Value, path: &str, label: &str, origins: &mut Vec<(String, String)>)
    ensures
        ov(final(origins)@) == record_spec(jv(*value), path@, label@, ov(old(origins)@)),
    decreases value,
{
    match value {
        Value::Object(es) => {
            if es.len() > 0 {
                proof {
                    lemma_jes(es@);
                }
                let ghost start = ov(origins@);
                let mut i: usize = 0;
                while i < es.len()
                    invariant
                        i <= es.len(),
                        *value == Value::Object(*es),
                        ov(origins@) == record_all(jes(es@).take(i as int), path@, label@, start),
                        jes(es@).len() == es.len(),
                        forall|q: int| 0 <= q < es.len() ==> jes(es@)[q] == ((#[trigger] es@[q]).key@, jv(es@[q].value)),
                    decreases es.len() - i,
                {
                    let child = join(path, es[i].key.as_str());
                    proof {
                        let t = jes(es@).take(i as int + 1);
                        assert(t.subrange(0, t.len() - 1) =~= jes(es@).take(i as int));
                        assert(t[t.len() - 1] == jes(es@)[i as int]);
                    }
                    proof {
                        assert((*value)->Object_0 == *es);
                        assert(decreases_to!(*value => (*value)->Object_0));
                        assert(decreases_to!(*es => es@));
                        assert(decreases_to!(es@ => es@[i as int]));
                        assert(decreases_to!(es@[i as int] => es@[i as int].value));
                        assert(decreases_to!(*value => es@[i as int].value));
                    }
                    record(&es[i].value, child.as_str(), label, origins);
                    i = i + 1;
                }
                proof {
                    assert(jes(es@).take(i as int) =~= jes(es@));
                }
            } else {
                put_origin(origins, path, label);
            }
        },
        _ => {
            put_origin(origins, path, label);
        },
    }
}

fn seek_entry(es: &Vec<Entry>, k: &str) -> (r: usize)
    ensures
        r == seek(jes(es@), k@),
{
    let ghost v = jes(es@);
    proof {
        lemma_jes(es@);
    }
    let mut j: usize = 0;
    while j < es.len() && compare_str(es[j].key.as_str(), k) < 0
        invariant
            j <= es.len(),
            v == jes(es@),
            v.len() == es.len(),
            forall|q: int| 0 <= q < es.len() ==> v[q] == ((#[trigger] es@[q]).key@, jv(es@[q].value)),
            forall|i: int| 0 <= i < j ==> seq_order((#[trigger] v[i]).0, k@) < 0,
        decreases es.len() - j,
    {
        proof {
            assert(v[j as int].0 == es@[j as int].key@);
        }
        j = j + 1;
    }
    proof {
        if j < es.len() {
            assert(v[j as int].0 == es@[j as int].key@);
        }
        lemma_seek_at(v, k@, j as int);
    }
    j
}

/// The items of `{ replace = [...] }`, taken out; anything else back.
fn take_replacement(v: Value) -> (r: Result<Vec<Value>, Value>)
    ensures
        match r {
            Ok(items) => replacement(jv(v)) == Some(jvs(items@)),
            Err(w) => replacement(jv(v)) is None && w == v,
        },
{
    match v {
        Value::Object(mut es) => {
            proof {
                lemma_jes(es@);
            }
            if es.len() == 1 && same_str(es[0].key.as_str(), "replace") && matches!(es[0].value, Value::Array(_)) {
                let e = es.remove(0);
                match e.value {
                    Value::Array(items) => Ok(items),
                    other => Err(Value::Object(vec![Entry { key: e.key, value: other }])),
                }
            } else {
                Err(Value::Object(es))
            }
        },
        other => Err(other),
    }
}

proof fn lemma_jvs_append(a: Seq<Value>, b: Seq<Value>)
    ensures
        jvs(a + b) == jvs(a) + jvs(b),
{
    lemma_jvs(a);
    lemma_jvs(b);
    lemma_jvs(a + b);
    assert forall|i: int| 0 <= i < a.len() + b.len() implies jvs(a + b)[i] == (jvs(a) + jvs(b))[i] by {
        if i < a.len() {
            assert((a + b)[i] == a[i]);
        } else {
            assert((a + b)[i] == b[i - a.len()]);
        }
    }
    assert(jvs(a + b) =~= jvs(a) + jvs(b));
}

/// `over`, a layer's value at `path`, merged into `base`; `origins` keeps,
/// by dotted key, the layer that set each value.
pub fn merge(base: Value, over: Value, label: &str, path: &str, origins: &mut Vec<(String, String)>) -> (r: Value)
    ensures
        (jv(r), ov(final(origins)@)) == merge_spec(jv(base), jv(over), label@, path@, ov(old(origins)@)),
    decreases over,
{
    let ghost over0 = over;
    let ghost o0 = ov(origins@);
    match take_replacement(over) {
        Ok(items) => {
            drop_under_origins(origins, path);
            put_origin(origins, path, label);
            Value::Array(items)
        },
        Err(rest) => {
            match (base, rest) {
                (Value::Object(mut bm), Value::Object(mut om)) => {
                    let ghost om_orig = om;
                    let ghost om_all = jes(om@);
                    let ghost bm_all = jes(bm@);
                    let n = om.len();
                    let mut done: usize = 0;
                    proof {
                        lemma_jes(om@);
                        assert(om@.skip(0) =~= om@);
                        assert(om_all.take(0) =~= Seq::<(Seq<char>, JValue)>::empty());
                    }
                    while om.len() > 0
                        invariant
                            done + om.len() == n,
                            n == om_orig.len(),
                            om_all == jes(om_orig@),
                            om_all.len() == n,
                            forall|q: int| 0 <= q < n ==> om_all[q] == ((#[trigger] om_orig@[q]).key@, jv(om_orig@[q].value)),
                            om@ == om_orig@.skip(done as int),
                            over0 == Value::Object(om_orig),
                            over0 == over,
                            (jes(bm@), ov(origins@)) == merge_all(bm_all, om_all.take(done as int), label@, path@, o0),
                        decreases om.len(),
                    {
                        let e = om.remove(0);
                        proof {
                            assert(e == om_orig@[done as int]);
                            assert(om@ =~= om_orig@.skip(done as int + 1));
                            let t = om_all.take(done as int + 1);
                            assert(t.subrange(0, t.len() - 1) =~= om_all.take(done as int));
                            assert(t[t.len() - 1] == om_all[done as int]);
                            lemma_jes(bm@);
                            assert(over0->Object_0 == om_orig);
                            assert(decreases_to!(over0 => over0->Object_0));
                            assert(decreases_to!(om_orig => om_orig@));
                            assert(decreases_to!(om_orig@ => om_orig@[done as int]));
                            assert(decreases_to!(om_orig@[done as int] => om_orig@[done as int].value));
                            assert(decreases_to!(over0 => e.value));
                        }
                        let j = seek_entry(&bm, e.key.as_str());
                        let ghost ek = e.key@;
                        proof {
                            lemma_seek(jes(bm@), e.key@);
                            assert(om_all[done as int] == (om_orig@[done as int].key@, jv(om_orig@[done as int].value)));
                            assert(ek == om_all[done as int].0);
                        }
                        let child = join(path, e.key.as_str());
                        let ghost bm_before = bm@;
                        if j < bm.len() && same_str(bm[j].key.as_str(), e.key.as_str()) {
                            let old = bm.remove(j);
                            proof {
                                assert(jes(bm_before)[j as int] == (old.key@, jv(old.value)));
                            }
                            let nv = merge(old.value, e.value, label, child.as_str(), origins);
                            bm.insert(j, Entry { key: e.key, value: nv });
                            proof {
                                assert(bm@ =~= bm_before.update(j as int, bm@[j as int]));
                                lemma_jes(bm@);
                                lemma_jes(bm_before);
                                let want = jes(bm_before).update(j as int, (ek, jv(bm@[j as int].value)));
                                assert forall|q: int| 0 <= q < bm@.len() implies #[trigger] jes(bm@)[q] == want[q] by {
                                    assert(jes(bm@)[q] == (bm@[q].key@, jv(bm@[q].value)));
                                    if q != j {
                                        assert(bm@[q] == bm_before[q]);
                                        assert(jes(bm_before)[q] == (bm_before[q].key@, jv(bm_before[q].value)));
                                    }
                                }
                                assert(jes(bm@) =~= want);
                            }
                        } else {
                            let nv = merge(Value::Null, e.value, label, child.as_str(), origins);
                            bm.insert(j, Entry { key: e.key, value: nv });
                            proof {
                                lemma_jes(bm@);
                                lemma_jes(bm_before);
                                let want = jes(bm_before).insert(j as int, (ek, jv(bm@[j as int].value)));
                                assert forall|q: int| 0 <= q < bm@.len() implies #[trigger] jes(bm@)[q] == want[q] by {
                                    assert(jes(bm@)[q] == (bm@[q].key@, jv(bm@[q].value)));
                                    if q < j {
                                        assert(bm@[q] == bm_before[q]);
                                        assert(jes(bm_before)[q] == (bm_before[q].key@, jv(bm_before[q].value)));
                                    } else if q > j {
                                        assert(bm@[q] == bm_before[q - 1]);
                                        assert(jes(bm_before)[q - 1] == (bm_before[q - 1].key@, jv(bm_before[q - 1].value)));
                                    }
                                }
                                assert(jes(bm@) =~= want);
                            }
                        }
                        done = done + 1;
                    }
                    proof {
                        assert(om_all.take(n as int) =~= om_all);
                    }
                    Value::Object(bm)
                },
                (Value::Array(mut bi), Value::Array(oi)) => {
                    if oi.len() == 0 {
                        Value::Array(bi)
                    } else {
                        let before = lookup_origin(origins, path);
                        let joined = match before {
                            Some(b) => {
                                if !same_str(b.as_str(), label) {
                                    let mut t = b;
                                    push_str(&mut t, " + ");
                                    push_str(&mut t, label);
                                    t
                                } else {
                                    copy_str(label)
                                }
                            },
                            None => copy_str(label),
                        };
                        put_origin(origins, path, joined.as_str());
                        let ghost b0 = bi@;
                        let mut oi = oi;
                        let ghost o_all = oi@;
                        let mut k: usize = 0;
                        let m = oi.len();
                        while oi.len() > 0
                            invariant
                                k + oi.len() == m,
                                oi@ == o_all.skip(k as int),
                                o_all.len() == m,
                                bi@ == b0 + o_all.take(k as int),
                            decreases oi.len(),
                        {
                            let x = oi.remove(0);
                            bi.push(x);
                            proof {
                                assert(oi@ =~= o_all.skip(k as int + 1));
                                assert(bi@ =~= b0 + o_all.take(k as int + 1));
                            }
                            k = k + 1;
                        }
                        proof {
                            assert(o_all.take(m as int) =~= o_all);
                            lemma_jvs_append(b0, o_all);
                        }
                        Value::Array(bi)
                    }
                },
                (_, o) => {
                    drop_under_origins(origins, path);
                    record(&o, path, label, origins);
                    o
                },
            }
        },
    }
}

/// `v` under the dotted `key`: a map of one key for each part, the last
/// part holding `v`.
pub open spec fn nested_spec(parts: Seq<Seq<char>>, v: JValue) -> JValue
    decreases parts.len(),
{
    if parts.len() == 0 {
        v
    } else {
        nested_spec(parts.drop_last(), JValue::Object(seq![(parts.last(), v)]))
    }
}

/// `value` under the dotted `key`.
pub fn nested(key: &str, value: Value) -> (r: Value)
    ensures
        jv(r) == nested_spec(crate::text::split(key@, '.'), jv(value)),
{
    let v = crate::text::chars_of(key);
    let parts = crate::text::split_chars(&v, '.');
    let ghost pv = crate::text::views(parts@);
    let mut out = value;
    let mut i = parts.len();
    proof {
        assert(pv.take(i as int) =~= pv);
    }
    while i > 0
        invariant
            i <= parts.len(),
            pv == crate::text::views(parts@),
            nested_spec(pv, jv(value)) == nested_spec(pv.take(i as int), jv(out)),
        decreases i,
    {
        let part = crate::text::string_of(&parts[i - 1]);
        let ghost inner = jv(out);
        out = Value::Object(vec![Entry { key: part, value: out }]);
        proof {
            let t = pv.take(i as int);
            assert(t.drop_last() =~= pv.take(i as int - 1));
            assert(t.last() == parts@[i as int - 1]@);
            lemma_jes(out->Object_0@);
            assert(jes(out->Object_0@) =~= seq![(part@, inner)]);
        }
        i = i - 1;
    }
    proof {
        assert(pv.take(0) =~= Seq::<Seq<char>>::empty());
    }
    out
}

/// A later layer's list is appended to an earlier one's.
pub proof fn lemma_lists_append(
    base: Seq<JValue>,
    over: Seq<JValue>,
    label: Seq<char>,
    path: Seq<char>,
    o: Seq<(Seq<char>, Seq<char>)>,
)
    requires
        over.len() > 0,
    ensures
        merge_spec(JValue::Array(base), JValue::Array(over), label, path, o).0 == JValue::Array(base + over),
{
}

/// `{ replace = [...] }` replaces whatever was there, and the origin of the
/// key is the replacing layer alone.
pub proof fn lemma_replace_replaces(
    base: JValue,
    items: Seq<JValue>,
    label: Seq<char>,
    path: Seq<char>,
    o: Seq<(Seq<char>, Seq<char>)>,
)
    ensures
        merge_spec(base, JValue::Object(seq![("replace"@, JValue::Array(items))]), label, path, o).0 == JValue::Array(items),
        lookup(merge_spec(base, JValue::Object(seq![("replace"@, JValue::Array(items))]), label, path, o).1, path) == Some(label),
{
    lemma_put_lookup(drop_under(o, path), path, label);
}

/// Putting `k` then looking it up gives what was put.
pub proof fn lemma_put_lookup<T>(es: Seq<(Seq<char>, T)>, k: Seq<char>, v: T)
    ensures
        lookup(put(es, k, v), k) == Some(v),
{
    lemma_seek(es, k);
    let j = seek(es, k);
    let p = put(es, k, v);
    crate::text::lemma_seq_order_basics(k, k);
    if holds(es, k) {
        assert forall|i: int| 0 <= i < j implies seq_order((#[trigger] p[i]).0, k) < 0 by {
            assert(p[i] == es[i]);
        }
        lemma_seek_at(p, k, j);
    } else {
        assert forall|i: int| 0 <= i < j implies seq_order((#[trigger] p[i]).0, k) < 0 by {
            assert(p[i] == es[i]);
        }
        lemma_seek_at(p, k, j);
    }
}

/// A later layer's scalar overrides whatever was there, and its origin is
/// that layer.
pub proof fn lemma_scalars_override(
    base: JValue,
    over: JValue,
    label: Seq<char>,
    path: Seq<char>,
    o: Seq<(Seq<char>, Seq<char>)>,
)
    requires
        over is Null || over is Bool || over is Number || over is Str,
    ensures
        merge_spec(base, over, label, path, o).0 == over,
        lookup(merge_spec(base, over, label, path, o).1, path) == Some(label),
{
    lemma_put_lookup(drop_under(o, path), path, label);
}

/// The layers merged in order over `base`, and the origins after.
pub open spec fn merge_layers_spec(
    base: JValue,
    layers: Seq<(Seq<char>, JValue)>,
    o: Seq<(Seq<char>, Seq<char>)>,
) -> (JValue, Seq<(Seq<char>, Seq<char>)>)
    decreases layers.len(),
{
    if layers.len() == 0 {
        (base, o)
    } else {
        let (v, o1) = merge_layers_spec(base, layers.drop_last(), o);
        merge_spec(v, layers.last().1, layers.last().0, Seq::empty(), o1)
    }
}

/// The defaults, every leaf recorded as `default`, with each layer merged
/// over them in order; each layer is (label, value).
pub fn merge_layers(defaults: Value, layers: Vec<(String, Value)>) -> (r: (Value, Vec<(String, String)>))
    ensures
        (jv(r.0), ov(r.1@)) == merge_layers_spec(
            jv(defaults),
            layers@.map_values(|l: (String, Value)| (l.0@, jv(l.1))),
            record_spec(jv(defaults), Seq::empty(), "default"@, Seq::empty()),
        ),
{
    let ghost lv = layers@.map_values(|l: (String, Value)| (l.0@, jv(l.1)));
    let mut origins: Vec<(String, String)> = Vec::new();
    proof {
        assert(ov(origins@) =~= Seq::<(Seq<char>, Seq<char>)>::empty());
    }
    record(&defaults, "", "default", &mut origins);
    proof {
        reveal_strlit("");
        assert(""@ =~= Seq::<char>::empty());
    }
    let ghost o0 = ov(origins@);
    let mut merged = defaults;
    let mut layers = layers;
    let ghost all = layers@;
    let n = layers.len();
    let mut k: usize = 0;
    proof {
        assert(all.skip(0) =~= all);
        assert(lv.take(0) =~= Seq::<(Seq<char>, JValue)>::empty());
    }
    while layers.len() > 0
        invariant
            k + layers.len() == n,
            all.len() == n,
            layers@ == all.skip(k as int),
            lv == all.map_values(|l: (String, Value)| (l.0@, jv(l.1))),
            (jv(merged), ov(origins@)) == merge_layers_spec(jv(defaults), lv.take(k as int), o0),
        decreases layers.len(),
    {
        let (label, value) = layers.remove(0);
        proof {
            assert(layers@ =~= all.skip(k as int + 1));
            let t = lv.take(k as int + 1);
            assert(t.drop_last() =~= lv.take(k as int));
            assert(t.last() == (label@, jv(value)));
        }
        merged = merge(merged, value, label.as_str(), "", &mut origins);
        proof {
            reveal_strlit("");
            assert(""@ =~= Seq::<char>::empty());
        }
        k = k + 1;
    }
    proof {
        assert(lv.take(n as int) =~= lv);
    }
    (merged, origins)
}

} // verus!
