//! Which package a bare import specifier names. Resolving a specifier to a
//! file is oxc_resolver's, on the file system.
use vstd::prelude::*;
use crate::text::{chars_of, chars_range, find_char, first_index, lemma_first_index, string_of};

verus! {

/// Whether `c` may stand in a package name.
pub open spec fn name_char(c: char) -> bool {
    ||| ('a' <= c <= 'z')
    ||| ('A' <= c <= 'Z')
    ||| ('0' <= c <= '9')
    ||| c == '-'
    ||| c == '.'
    ||| c == '_'
    ||| c == ':'
}

/// A package name or scope: not empty, not starting with `.` or `_`, and
/// made of ASCII letters, digits, `-`, `.`, `_` and `:`.
pub open spec fn valid_name(s: Seq<char>) -> bool {
    &&& s.len() > 0
    &&& s[0] != '.'
    &&& s[0] != '_'
    &&& forall|k: int| 0 <= k < s.len() ==> name_char(#[trigger] s[k])
}

/// `s` up to its first `/`.
pub open spec fn first_segment(s: Seq<char>) -> Seq<char> {
    match first_index(s, '/') {
        Some(i) => s.take(i),
        None => s,
    }
}

/// The package a bare specifier names: `a` or `@scope/a`; none when it
/// can't be a package name, such as a path alias like `@/lib` or `~/x`.
pub open spec fn package_spec(spec: Seq<char>) -> Option<Seq<char>> {
    if spec.len() > 0 && spec[0] == '@' {
        let scoped = spec.drop_first();
        match first_index(scoped, '/') {
            None => None,
            Some(i) => {
                let scope = scoped.take(i);
                let name = first_segment(scoped.skip(i + 1));
                if valid_name(scope) && valid_name(name) {
                    Some(spec.take((1 + scope.len() + 1 + name.len()) as int))
                } else {
                    None
                }
            },
        }
    } else {
        let name = first_segment(spec);
        if valid_name(name) { Some(name) } else { None }
    }
}

fn is_name_char(c: char) -> (r: bool)
    ensures
        r == name_char(c),
{
    ('a' <= c && c <= 'z') || ('A' <= c && c <= 'Z') || ('0' <= c && c <= '9') || c == '-' || c == '.'
        || c == '_' || c == ':'
}

fn valid(v: &Vec<char>, from: usize, to: usize) -> (r: bool)
    requires
        from <= to <= v.len(),
    ensures
        r == valid_name(v@.subrange(from as int, to as int)),
{
    let ghost s = v@.subrange(from as int, to as int);
    if from == to || v[from] == '.' || v[from] == '_' {
        return false;
    }
    let mut i = from;
    while i < to
        invariant
            from <= i <= to <= v.len(),
            s == v@.subrange(from as int, to as int),
            forall|k: int| 0 <= k < i - from ==> name_char(#[trigger] s[k]),
        decreases to - i,
    {
        if !is_name_char(v[i]) {
            proof {
                assert(s[i - from] == v@[i as int]);
            }
            return false;
        }
        proof {
            assert(s[i - from] == v@[i as int]);
        }
        i = i + 1;
    }
    true
}

/// Where the first `/` of `v[from..]` is, or the end.
fn segment_end(v: &Vec<char>, from: usize) -> (r: usize)
    requires
        from <= v.len(),
    ensures
        from <= r <= v.len(),
        v@.subrange(from as int, r as int) == first_segment(v@.skip(from as int)),
        first_index(v@.skip(from as int), '/') matches Some(i) ==> r == from + i,
{
    let ghost s = v@.skip(from as int);
    proof {
        lemma_first_index(s, '/');
    }
    let mut i = from;
    while i < v.len() && v[i] != '/'
        invariant
            from <= i <= v.len(),
            s == v@.skip(from as int),
            forall|k: int| 0 <= k < i - from ==> s[k] != '/',
        decreases v.len() - i,
    {
        proof {
            assert(s[i - from] == v@[i as int]);
        }
        i = i + 1;
    }
    proof {
        if i < v.len() {
            assert(s[i - from] == v@[i as int]);
            crate::text::lemma_first_index_at(s, '/', i - from);
            assert(v@.subrange(from as int, i as int) =~= s.take(i - from));
        } else {
            assert(first_index(s, '/') is None) by {
                if let Some(j) = first_index(s, '/') {
                    assert(s[j] == '/');
                }
            }
            assert(v@.subrange(from as int, i as int) =~= s);
        }
    }
    i
}

pub fn package_name(spec: &str) -> (r: Option<String>)
    ensures
        match r {
            Some(n) => package_spec(spec@) == Some(n@),
            None => package_spec(spec@) is None,
        },
{
    let v = chars_of(spec);
    let n = v.len();
    if n > 0 && v[0] == '@' {
        let ghost scoped = v@.drop_first();
        proof {
            assert(scoped =~= v@.skip(1));
        }
        let slash = segment_end(&v, 1);
        if slash == n {
            proof {
                lemma_first_index(scoped, '/');
                if let Some(j) = first_index(scoped, '/') {
                    assert(scoped[j] == '/');
                    assert(v@.subrange(1, n as int).len() == n - 1);
                }
            }
            return None;
        }
        proof {
            lemma_first_index(scoped, '/');
            let j = first_index(scoped, '/');
            assert(j is Some) by {
                if j is None {
                    assert(v@.subrange(1, slash as int) =~= scoped);
                }
            }
            assert(scoped.take(slash - 1) =~= v@.subrange(1, slash as int));
            assert(scoped.skip(slash as int) =~= v@.skip(slash as int + 1));
        }
        let end = segment_end(&v, slash + 1);
        if valid(&v, 1, slash) && valid(&v, slash + 1, end) {
            let name = chars_range(&v, 0, end);
            proof {
                assert(name@ =~= v@.take(1 + (slash - 1) + 1 + (end - slash - 1)));
            }
            Some(string_of(&name))
        } else {
            None
        }
    } else {
        let end = segment_end(&v, 0);
        proof {
            assert(v@.skip(0) =~= v@);
        }
        if valid(&v, 0, end) {
            let name = chars_range(&v, 0, end);
            Some(string_of(&name))
        } else {
            None
        }
    }
}


/// An npm name: not empty, not starting with `.` or `_`, and made of ASCII
/// letters, digits, `-`, `.`, `_` and `:` only.
pub open spec fn npm_name(n: Seq<char>) -> bool {
    &&& n.len() > 0
    &&& n[0] != '.'
    &&& n[0] != '_'
    &&& forall|k: int| 0 <= k < n.len() ==> {
        let c = #[trigger] n[k];
        ('a' <= c <= 'z') || ('A' <= c <= 'Z') || ('0' <= c <= '9') || c == '-' || c == '.' || c == '_' || c == ':'
    }
}

/// Nothing, or a path under the package: the rest of a specifier after
/// its name.
pub open spec fn sub_path(r: Seq<char>) -> bool {
    r.len() == 0 || r[0] == '/'
}

proof fn lemma_up_to_slash(n: Seq<char>, r: Seq<char>)
    requires
        forall|k: int| 0 <= k < n.len() ==> n[k] != '/',
        sub_path(r),
    ensures
        first_segment(n + r) == n,
        r.len() > 0 ==> first_index(n + r, '/') == Some(n.len() as int),
        r.len() == 0 ==> first_index(n + r, '/') is None,
{
    let s = n + r;
    if r.len() > 0 {
        crate::text::lemma_first_index_at(s, '/', n.len() as int);
        assert(s.take(n.len() as int) =~= n);
    } else {
        assert(s =~= n);
        lemma_first_index(s, '/');
    }
}

/// Law: a bare specifier names the package its first segment names, when
/// that is an npm name, dashes and dots included (`react-dom/client`
/// names `react-dom`); a scoped one names `@scope/name`.
pub proof fn lemma_package_of_specifier(scope: Seq<char>, name: Seq<char>, rest: Seq<char>)
    requires
        npm_name(name),
        sub_path(rest),
    ensures
        package_spec(name + rest) == Some(name),
        npm_name(scope) ==> package_spec(seq!['@'] + scope + seq!['/'] + name + rest)
            == Some(seq!['@'] + scope + seq!['/'] + name),
{
    assert forall|k: int| 0 <= k < name.len() implies name[k] != '/' by {
        assert(npm_name(name));
    }
    lemma_up_to_slash(name, rest);
    assert((name + rest)[0] == name[0]);
    assert forall|k: int| 0 <= k < name.len() implies name_char(#[trigger] name[k]) by {
        let c = name[k];
        assert(('a' <= c <= 'z') || ('A' <= c <= 'Z') || ('0' <= c <= '9') || c == '-' || c == '.' || c == '_' || c == ':');
    }
    assert(valid_name(name));
    if npm_name(scope) {
        let spec = seq!['@'] + scope + seq!['/'] + name + rest;
        let scoped = spec.drop_first();
        assert(scoped =~= scope + (seq!['/'] + name + rest));
        assert forall|k: int| 0 <= k < scope.len() implies scope[k] != '/' by {
            assert(npm_name(scope));
        }
        lemma_up_to_slash(scope, seq!['/'] + name + rest);
        assert(scoped.take(scope.len() as int) =~= scope);
        assert(scoped.skip(scope.len() as int + 1) =~= name + rest);
        assert forall|k: int| 0 <= k < scope.len() implies name_char(#[trigger] scope[k]) by {
            let c = scope[k];
            assert(('a' <= c <= 'z') || ('A' <= c <= 'Z') || ('0' <= c <= '9') || c == '-' || c == '.' || c == '_' || c == ':');
        }
        assert(valid_name(scope));
        assert(spec.take((1 + scope.len() + 1 + name.len()) as int) =~= seq!['@'] + scope + seq!['/'] + name);
    }
}

/// Law: what a bare, unscoped specifier names is its first segment, and an
/// npm name.
pub proof fn lemma_package_is_npm_name(spec: Seq<char>)
    requires
        package_spec(spec) is Some,
        spec.len() == 0 || spec[0] != '@',
    ensures
        npm_name(package_spec(spec).unwrap()),
        package_spec(spec).unwrap() == first_segment(spec),
{
    let n = package_spec(spec).unwrap();
    assert forall|k: int| 0 <= k < n.len() implies {
        let c = #[trigger] n[k];
        ('a' <= c <= 'z') || ('A' <= c <= 'Z') || ('0' <= c <= '9') || c == '-' || c == '.' || c == '_' || c == ':'
    } by {
        assert(name_char(n[k]));
    }
}

} // verus!
