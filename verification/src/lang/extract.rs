//! What a source file refers to: module specifiers (imports, re-exports,
//! dynamic imports, `require`, test-runner mocks) and path-like string
//! literals.
use vstd::prelude::*;

use crate::text::{
    byte_len, byte_len_upto, chars_of, find_from, find_sub, is_white, is_white_char, last_index, rfind_char,
};

verus! {

#[derive(Debug, Clone, Copy, PartialEq, Eq, Structural, PartialOrd, Ord, Hash)]
pub enum SpecKind {
    Import,
    TypeImport,
    Dynamic,
    Require,
    Mock,
}

#[derive(Debug, Clone, Default, PartialEq)]
pub struct Extracted {
    pub specs: Vec<(String, SpecKind)>,
    /// String literals that look like file paths.
    pub literals: Vec<String>,
    /// A dynamic import whose argument isn't a plain string.
    pub unknown_dynamic: bool,
}

/// Literals longer than this, in bytes, are never paths.
pub const MAX_LITERAL_LEN: usize = 300;

#[derive(Debug, Clone, Copy, PartialEq, Eq, Structural)]
pub enum Grammar {
    TypeScript,
    Tsx,
    JavaScript,
}

/// The text after the last `.`, if there is one.
pub open spec fn extension(rel: Seq<char>) -> Option<Seq<char>> {
    match last_index(rel, '.') {
        Some(i) => Some(rel.skip(i + 1)),
        None => None,
    }
}

/// The grammar a file's extension picks.
pub open spec fn grammar_of(rel: Seq<char>) -> Option<Grammar> {
    match extension(rel) {
        Some(e) => if e == "ts"@ || e == "mts"@ || e == "cts"@ {
            Some(Grammar::TypeScript)
        } else if e == "tsx"@ {
            Some(Grammar::Tsx)
        } else if e == "js"@ || e == "jsx"@ || e == "mjs"@ || e == "cjs"@ {
            Some(Grammar::JavaScript)
        } else {
            None
        },
        None => None,
    }
}

/// The grammar for a file, by its extension.
pub fn grammar(rel: &str) -> (r: Option<Grammar>)
    ensures
        r == grammar_of(rel@),
{
    let v = chars_of(rel);
    let dot = match rfind_char(&v, '.') {
        Some(i) => i,
        None => return None,
    };
    proof {
        crate::text::lemma_last_index(v@, '.');
    }
    let e = crate::text::chars_range(&v, dot + 1, v.len());
    proof {
        assert(e@ =~= v@.skip(dot as int + 1));
    }
    if crate::text::eq_lit(&e, "ts") || crate::text::eq_lit(&e, "mts") || crate::text::eq_lit(&e, "cts") {
        Some(Grammar::TypeScript)
    } else if crate::text::eq_lit(&e, "tsx") {
        Some(Grammar::Tsx)
    } else if crate::text::eq_lit(&e, "js") || crate::text::eq_lit(&e, "jsx") || crate::text::eq_lit(&e, "mjs")
        || crate::text::eq_lit(&e, "cjs") {
        Some(Grammar::JavaScript)
    } else {
        None
    }
}

proof fn lemma_last_dot(base: Seq<char>, ext: Seq<char>)
    requires
        !ext.contains('.'),
    ensures
        last_index(base + seq!['.'] + ext, '.') == Some(base.len() as int),
        extension(base + seq!['.'] + ext) == Some(ext),
    decreases ext.len(),
{
    let s = base + seq!['.'] + ext;
    if ext.len() == 0 {
        assert(s.last() == '.');
    } else {
        assert(!ext.drop_last().contains('.')) by {
            if ext.drop_last().contains('.') {
                let k = choose|k: int| 0 <= k < ext.drop_last().len() && ext.drop_last()[k] == '.';
                assert(ext[k] == '.');
            }
        }
        assert(ext.last() != '.') by {
            if ext.last() == '.' {
                assert(ext.contains(ext[ext.len() - 1]));
            }
        }
        assert(s.last() == ext.last());
        lemma_last_dot(base, ext.drop_last());
        assert(s.drop_last() =~= base + seq!['.'] + ext.drop_last());
    }
    assert(s.skip(base.len() as int + 1) =~= ext);
}

/// Law: every JavaScript or TypeScript source file gets a grammar, and no
/// other file does: `.ts`, `.mts` and `.cts` the TypeScript one, `.tsx`
/// the TSX one, and `.js`, `.jsx`, `.mjs` and `.cjs` the JavaScript one.
pub proof fn lemma_source_files_get_grammars(base: Seq<char>, ext: Seq<char>)
    requires
        !ext.contains('.'),
    ensures
        grammar_of(base + seq!['.'] + ext) is Some <==> crate::lang::tree::is_source_extension(ext),
        ext == "ts"@ || ext == "mts"@ || ext == "cts"@ ==> grammar_of(base + seq!['.'] + ext) == Some(Grammar::TypeScript),
        ext == "tsx"@ ==> grammar_of(base + seq!['.'] + ext) == Some(Grammar::Tsx),
        ext == "js"@ || ext == "jsx"@ || ext == "mjs"@ || ext == "cjs"@ ==> grammar_of(base + seq!['.'] + ext) == Some(Grammar::JavaScript),
{
    reveal_strlit("ts");
    reveal_strlit("mts");
    reveal_strlit("cts");
    reveal_strlit("tsx");
    reveal_strlit("js");
    reveal_strlit("jsx");
    reveal_strlit("mjs");
    reveal_strlit("cjs");
    lemma_last_dot(base, ext);
    if ext == "js"@ || ext == "jsx"@ || ext == "mjs"@ || ext == "cjs"@ {
        assert(ext[0] == 'j' || ext[1] == 'j');
        assert(ext != "ts"@) by { assert("ts"@[0] == 't' && "ts"@[1] == 's'); }
        assert(ext != "mts"@) by { assert("mts"@[0] == 'm' && "mts"@[1] == 't'); }
        assert(ext != "cts"@) by { assert("cts"@[0] == 'c' && "cts"@[1] == 't'); }
        assert(ext != "tsx"@) by { assert("tsx"@[0] == 't' && "tsx"@[1] == 's'); }
    }
}

/// An ASCII letter or digit.
pub open spec fn alnum(c: char) -> bool {
    ('0' <= c <= '9') || ('a' <= c <= 'z') || ('A' <= c <= 'Z')
}

/// The file part of a path: after its last `/`.
pub open spec fn last_part(s: Seq<char>) -> Seq<char> {
    match last_index(s, '/') {
        Some(i) => s.skip(i + 1),
        None => s,
    }
}

/// A stem and an extension of one to ten ASCII letters and digits.
pub open spec fn has_extension(last: Seq<char>) -> bool {
    match last_index(last, '.') {
        Some(i) => {
            let stem = last.take(i);
            let ext = last.skip(i + 1);
            stem.len() > 0 && ext.len() > 0 && byte_len(ext) <= 10 && forall|k: int| 0 <= k < ext.len() ==> alnum(#[trigger] ext[k])
        },
        None => false,
    }
}

/// A literal that could name a file: a path separator or a leading dot, a
/// file extension, no white space, and not a URL or a scoped package.
pub open spec fn path_like(s: Seq<char>) -> bool {
    &&& byte_len(s) <= MAX_LITERAL_LEN
    &&& !(exists|k: int| 0 <= k < s.len() && is_white(#[trigger] s[k]))
    &&& find_sub(s, "://"@) is None
    &&& !(s.len() > 0 && s[0] == '@')
    &&& (s.contains('/') || (s.len() > 0 && s[0] == '.'))
    &&& has_extension(last_part(s))
}

/// A literal that could name a file.
pub fn looks_like_path(text: &str) -> (r: bool)
    ensures
        r == path_like(text@),
{
    let v = chars_of(text);
    if byte_len_upto(text, MAX_LITERAL_LEN + 1) > MAX_LITERAL_LEN {
        return false;
    }
    let mut i: usize = 0;
    let mut slash = false;
    while i < v.len()
        invariant
            i <= v.len(),
            v@ == text@,
            forall|k: int| 0 <= k < i ==> !is_white(#[trigger] v@[k]),
            slash == exists|k: int| 0 <= k < i && v@[k] == '/',
        decreases v.len() - i,
    {
        if is_white_char(v[i]) {
            return false;
        }
        if v[i] == '/' {
            slash = true;
        }
        i = i + 1;
    }
    let url = chars_of("://");
    proof {
        assert(v@.skip(0) =~= v@);
        assert(slash == text@.contains('/'));
    }
    if find_from(&v, &url, 0).is_some() {
        return false;
    }
    if v.len() > 0 && v[0] == '@' {
        return false;
    }
    if !(slash || (v.len() > 0 && v[0] == '.')) {
        return false;
    }
    let last = match rfind_char(&v, '/') {
        Some(s) => {
            proof {
                crate::text::lemma_last_index(v@, '/');
            }
            let l = crate::text::chars_range(&v, s + 1, v.len());
            proof {
                assert(l@ =~= v@.skip(s as int + 1));
            }
            l
        },
        None => v,
    };
    extension_ok(&last)
}

fn extension_ok(last: &Vec<char>) -> (r: bool)
    ensures
        r == has_extension(last@),
{
    let dot = match rfind_char(last, '.') {
        Some(d) => d,
        None => return false,
    };
    proof {
        crate::text::lemma_last_index(last@, '.');
    }
    let n = last.len();
    let ext = crate::text::chars_range(last, dot + 1, n);
    proof {
        assert(ext@ =~= last@.skip(dot as int + 1));
    }
    if dot == 0 || ext.len() == 0 {
        return false;
    }
    let mut k: usize = 0;
    while k < ext.len()
        invariant
            k <= ext.len(),
            ext@ == last@.skip(dot as int + 1),
            last_index(last@, '.') == Some(dot as int),
            forall|j: int| 0 <= j < k ==> alnum(#[trigger] ext@[j]),
        decreases ext.len() - k,
    {
        let c = ext[k];
        if !(('0' <= c && c <= '9') || ('a' <= c && c <= 'z') || ('A' <= c && c <= 'Z')) {
            proof {
                assert(!alnum(ext@[k as int]));
                assert(!alnum(last@.skip(dot as int + 1)[k as int]));
            }
            return false;
        }
        k = k + 1;
    }
    proof {
        lemma_ascii_bytes(ext@);
    }
    ext.len() <= 10
}

/// ASCII letters and digits take a byte each.
proof fn lemma_ascii_bytes(s: Seq<char>)
    requires
        forall|j: int| 0 <= j < s.len() ==> alnum(#[trigger] s[j]),
    ensures
        byte_len(s) == s.len(),
    decreases s.len(),
{
    if s.len() > 0 {
        assert(alnum(s[s.len() - 1]));
        lemma_ascii_bytes(s.drop_last());
    }
}

/// Type arguments longer than this, in bytes, aren't looked for.
pub const TAG_TYPES_MAX_BYTES: usize = 2000;

/// `u8::is_ascii_whitespace`.
pub open spec fn ascii_space(b: u8) -> bool {
    b == 32 || b == 9 || b == 10 || b == 12 || b == 13
}

/// A byte that can end a template tag's name.
pub open spec fn tag_byte(b: u8) -> bool {
    (48 <= b <= 57) || (65 <= b <= 90) || (97 <= b <= 122) || b == 95 || b == 36
}

/// The last byte before `t` that is not white space.
pub open spec fn last_solid(src: Seq<u8>, t: int) -> Option<int>
    decreases t,
{
    if t <= 0 {
        None
    } else if !ascii_space(src[t - 1]) {
        Some(t - 1)
    } else {
        last_solid(src, t - 1)
    }
}

/// Scanning left from `i` down to `lo` with `depth` brackets open, where
/// the `<` that closes them all is: a `>` not after `=` opens one more (so
/// `=>` in a function type is no bracket), a `<` closes one, and a
/// backtick ends the search.
pub open spec fn find_open(src: Seq<u8>, lo: int, i: int, depth: int) -> Option<int>
    decreases i - lo + 1,
{
    if i < lo || i < 0 || i >= src.len() {
        None
    } else if src[i] == 62 && (i == 0 || src[i - 1] != 61) {
        find_open(src, lo, i - 1, depth + 1)
    } else if src[i] == 60 {
        if depth - 1 == 0 { Some(i) } else { find_open(src, lo, i - 1, depth - 1) }
    } else if src[i] == 96 {
        None
    } else {
        find_open(src, lo, i - 1, depth)
    }
}

/// The type arguments `<...>` that a template tag takes right before the
/// backtick at `t`, as (first byte, last byte): the last byte before it is
/// a `>` that is not `=>`, its `<` is found within the limit, and a name
/// ends right before that.
pub open spec fn tag_types(src: Seq<u8>, t: int) -> Option<(int, int)> {
    match last_solid(src, t) {
        None => None,
        Some(close) => if src[close] != 62 || close == 0 || src[close - 1] == 61 {
            None
        } else {
            let lo = if close >= TAG_TYPES_MAX_BYTES { close - TAG_TYPES_MAX_BYTES } else { 0 };
            match find_open(src, lo, close, 0) {
                None => None,
                Some(open) => if open == 0 || !tag_byte(src[open - 1]) { None } else { Some((open, close)) },
            }
        },
    }
}

/// Whether the type arguments of the tag before the backtick at `t` cover
/// byte `i`.
pub open spec fn covers(src: Seq<u8>, t: int, i: int) -> bool {
    match tag_types(src, t) {
        Some((o, c)) => o <= i <= c,
        None => false,
    }
}

/// Whether the type arguments of a tag before one of the first `n`
/// backticks cover byte `i`.
pub open spec fn covered(src: Seq<u8>, n: int, i: int) -> bool {
    exists|t: int| 0 <= t < n && src[t] == 96 && #[trigger] covers(src, t, i)
}

/// `src` with the type arguments of every template tag blanked to spaces,
/// newlines kept, so every position stays where it was.
pub open spec fn unwrapped(src: Seq<u8>) -> Seq<u8> {
    Seq::new(src.len(), |i: int| if covered(src, src.len() as int, i) && src[i] != 10 { 32u8 } else { src[i] })
}

proof fn lemma_find_open_no_tick(src: Seq<u8>, lo: int, i: int, depth: int)
    ensures
        find_open(src, lo, i, depth) matches Some(o) ==> forall|k: int| o <= k <= i ==> src[k] != 96,
    decreases i - lo + 1,
{
    if !(i < lo || i < 0 || i >= src.len()) {
        lemma_find_open_no_tick(src, lo, i - 1, depth + 1);
        lemma_find_open_no_tick(src, lo, i - 1, depth - 1);
        lemma_find_open_no_tick(src, lo, i - 1, depth);
    }
}

/// Law: unwrapping keeps the length, and a byte it changes becomes a
/// space and was neither a newline nor a backtick, so every line and
/// every template stays where it was.
pub proof fn lemma_unwrapped_in_place(src: Seq<u8>)
    ensures
        unwrapped(src).len() == src.len(),
        forall|i: int| 0 <= i < src.len() ==> #[trigger] unwrapped(src)[i] == src[i]
            || (unwrapped(src)[i] == 32 && src[i] != 10 && src[i] != 96),
{
    assert forall|i: int| 0 <= i < src.len() implies #[trigger] unwrapped(src)[i] == src[i]
        || (unwrapped(src)[i] == 32 && src[i] != 10 && src[i] != 96) by {
        if covered(src, src.len() as int, i) && src[i] != 10 {
            let t = choose|t: int| 0 <= t < src.len() && src[t] == 96 && #[trigger] covers(src, t, i);
            let (o, c) = tag_types(src, t).unwrap();
            let close = last_solid(src, t).unwrap();
            let lo = if close >= TAG_TYPES_MAX_BYTES { close - TAG_TYPES_MAX_BYTES } else { 0 };
            lemma_find_open_no_tick(src, lo, close, 0);
        }
    }
}

/// Law: a byte that unwrapping changes lies in the type arguments of a
/// template tag: a run from a `<` right after a name's last byte to a `>`
/// that only white space parts from the backtick, with no backtick inside.
pub proof fn lemma_unwrapped_runs(src: Seq<u8>, i: int)
    requires
        0 <= i < src.len(),
        unwrapped(src)[i] != src[i],
    ensures
        exists|t: int, o: int, c: int| 0 < o <= i <= c < t < src.len() && #[trigger] src[t] == 96
            && #[trigger] src[o] == 60 && #[trigger] src[c] == 62 && tag_byte(src[o - 1])
            && (forall|k: int| c < k < t ==> ascii_space(#[trigger] src[k]))
            && (forall|k: int| o <= k <= c ==> #[trigger] src[k] != 96),
{
    let t = choose|t: int| 0 <= t < src.len() && src[t] == 96 && #[trigger] covers(src, t, i);
    let (o, c) = tag_types(src, t).unwrap();
    let close = last_solid(src, t).unwrap();
    let lo = if close >= TAG_TYPES_MAX_BYTES { close - TAG_TYPES_MAX_BYTES } else { 0 };
    lemma_last_solid(src, t);
    lemma_last_solid_spaces(src, t);
    lemma_find_open(src, lo, close, 0);
    lemma_find_open_at(src, lo, close, 0);
    lemma_find_open_no_tick(src, lo, close, 0);
    assert(0 < o <= i <= c < t < src.len() && src[t] == 96 && src[o] == 60 && src[c] == 62 && tag_byte(src[o - 1]));
}

proof fn lemma_last_solid_spaces(src: Seq<u8>, t: int)
    requires
        0 <= t <= src.len(),
    ensures
        last_solid(src, t) matches Some(c) ==> forall|k: int| c < k < t ==> ascii_space(#[trigger] src[k]),
    decreases t,
{
    if t > 0 && ascii_space(src[t - 1]) {
        lemma_last_solid_spaces(src, t - 1);
    }
}

proof fn lemma_find_open_at(src: Seq<u8>, lo: int, i: int, depth: int)
    ensures
        find_open(src, lo, i, depth) matches Some(o) ==> 0 <= o < src.len() && src[o] == 60,
    decreases i - lo + 1,
{
    if !(i < lo || i < 0 || i >= src.len()) {
        lemma_find_open_at(src, lo, i - 1, depth + 1);
        lemma_find_open_at(src, lo, i - 1, depth - 1);
        lemma_find_open_at(src, lo, i - 1, depth);
    }
}

proof fn lemma_last_solid(src: Seq<u8>, t: int)
    requires
        0 <= t <= src.len(),
    ensures
        last_solid(src, t) matches Some(c) ==> 0 <= c < t && !ascii_space(src[c]),
    decreases t,
{
    if t > 0 && ascii_space(src[t - 1]) {
        lemma_last_solid(src, t - 1);
    }
}

proof fn lemma_find_open(src: Seq<u8>, lo: int, i: int, depth: int)
    ensures
        find_open(src, lo, i, depth) matches Some(o) ==> 0 <= lo <= o <= i < src.len() || (lo < 0 && 0 <= o <= i < src.len()),
    decreases i - lo + 1,
{
    if !(i < lo || i < 0 || i >= src.len()) {
        lemma_find_open(src, lo, i - 1, depth + 1);
        lemma_find_open(src, lo, i - 1, depth - 1);
        lemma_find_open(src, lo, i - 1, depth);
    }
}

/// Where the `<` that opens the `>` at `close` is, scanning no further
/// left than `lo`.
fn open_of(src: &[u8], lo: usize, close: usize) -> (r: Option<usize>)
    requires
        lo <= close < src.len(),
        src@[close as int] == 62,
        close == 0 || src@[close - 1] != 61,
    ensures
        match find_open(src@, lo as int, close as int, 0) {
            Some(o) => r == Some(o as usize),
            None => r is None,
        },
{
    let mut depth: usize = 1;
    let mut i: usize = close;
    while i > lo
        invariant
            lo <= i <= close < src.len(),
            1 <= depth <= close + 1 - i,
            find_open(src@, lo as int, close as int, 0) == find_open(src@, lo as int, i - 1, depth as int),
        decreases i,
    {
        let j = i - 1;
        if src[j] == 62 && (j == 0 || src[j - 1] != 61) {
            depth = depth + 1;
        } else if src[j] == 60 {
            if depth == 1 {
                return Some(j);
            }
            depth = depth - 1;
        } else if src[j] == 96 {
            return None;
        }
        i = j;
    }
    None
}

fn tag_types_at(src: &[u8], t: usize) -> (r: Option<(usize, usize)>)
    requires
        t <= src.len(),
    ensures
        match tag_types(src@, t as int) {
            Some((o, c)) => r == Some((o as usize, c as usize)) && 0 < o <= c < t,
            None => r is None,
        },
{
    let mut k = t;
    while k > 0 && (src[k - 1] == 32 || src[k - 1] == 9 || src[k - 1] == 10 || src[k - 1] == 12 || src[k - 1] == 13)
        invariant
            k <= t <= src.len(),
            last_solid(src@, t as int) == last_solid(src@, k as int),
        decreases k,
    {
        k = k - 1;
    }
    if k == 0 {
        return None;
    }
    let close = k - 1;
    proof {
        lemma_last_solid(src@, t as int);
    }
    if src[close] != 62 || close == 0 || src[close - 1] == 61 {
        return None;
    }
    let lo = if close >= TAG_TYPES_MAX_BYTES { close - TAG_TYPES_MAX_BYTES } else { 0 };
    match open_of(src, lo, close) {
        Some(o) => {
            proof {
                lemma_find_open(src@, lo as int, close as int, 0);
            }
            if o == 0 || !((48 <= src[o - 1] && src[o - 1] <= 57) || (65 <= src[o - 1] && src[o - 1] <= 90)
                || (97 <= src[o - 1] && src[o - 1] <= 122) || src[o - 1] == 95 || src[o - 1] == 36) {
                None
            } else {
                Some((o, close))
            }
        },
        None => None,
    }
}

/// `sql<Row>` before a template, with the `<Row>` blanked to spaces: the
/// TypeScript grammar can't parse type arguments on a template tag, and
/// recovers by cutting the enclosing function short. Newlines stay, so
/// every position is where it was.
pub fn unwrap_tag_types(source: &[u8]) -> (r: Vec<u8>)
    ensures
        r@ == unwrapped(source@),
{
    let n = source.len();
    let mut out: Vec<u8> = Vec::new();
    let mut k: usize = 0;
    while k < n
        invariant
            k <= n == source.len(),
            out@ == source@.take(k as int),
        decreases n - k,
    {
        out.push(source[k]);
        proof {
            assert(source@.take(k as int + 1) =~= source@.take(k as int).push(source@[k as int]));
        }
        k = k + 1;
    }
    proof {
        assert(source@.take(n as int) =~= source@);
    }
    let mut t: usize = 0;
    while t < n
        invariant
            t <= n == source.len(),
            out.len() == n,
            forall|i: int| 0 <= i < n ==> #[trigger] out@[i] == (if covered(source@, t as int, i) && source@[i] != 10 {
                32u8
            } else {
                source@[i]
            }),
        decreases n - t,
    {
        if source[t] == 96 {
            match tag_types_at(source, t) {
                Some((o, c)) => {
                    let ghost before = out@;
                    let mut i = o;
                    while i <= c
                        invariant
                            o <= i <= c + 1,
                            c < t < n == source.len(),
                            out.len() == n,
                            forall|q: int| 0 <= q < n && !(o <= q < i) ==> #[trigger] out@[q] == before[q],
                            forall|q: int| o <= q < i ==> #[trigger] out@[q] == (if source@[q] != 10 { 32u8 } else { before[q] }),
                            forall|q: int| 0 <= q < n ==> before[q] == (if covered(source@, t as int, q) && source@[q] != 10 {
                                32u8
                            } else {
                                source@[q]
                            }),
                        decreases c + 1 - i,
                    {
                        if source[i] != 10 {
                            out.set(i, 32);
                        }
                        i = i + 1;
                    }
                    proof {
                        assert forall|q: int| 0 <= q < n implies #[trigger] out@[q] == (if covered(source@, t + 1, q)
                            && source@[q] != 10 {
                            32u8
                        } else {
                            source@[q]
                        }) by {
                            if o <= q <= c {
                                assert(tag_types(source@, t as int) == Some((o as int, c as int)));
                                assert(covers(source@, t as int, q));
                                assert(covered(source@, t + 1, q));
                            } else {
                                if covered(source@, t + 1, q) {
                                    let w = choose|w: int| 0 <= w < t + 1 && source@[w] == 96 && #[trigger] covers(source@, w, q);
                                    assert(w != t);
                                    assert(covered(source@, t as int, q));
                                }
                                if covered(source@, t as int, q) {
                                    let w = choose|w: int| 0 <= w < t && source@[w] == 96 && #[trigger] covers(source@, w, q);
                                    assert(covered(source@, t + 1, q));
                                }
                            }
                        }
                    }
                },
                None => {
                    proof {
                        assert forall|q: int| 0 <= q < n implies covered(source@, t + 1, q) == covered(source@, t as int, q) by {
                            if covered(source@, t + 1, q) {
                                let w = choose|w: int| 0 <= w < t + 1 && source@[w] == 96 && #[trigger] covers(source@, w, q);
                                assert(w != t);
                            }
                            if covered(source@, t as int, q) {
                                let w = choose|w: int| 0 <= w < t && source@[w] == 96 && #[trigger] covers(source@, w, q);
                                assert(0 <= w < t + 1);
                            }
                        }
                    }
                },
            }
        } else {
            proof {
                assert forall|q: int| 0 <= q < n implies covered(source@, t + 1, q) == covered(source@, t as int, q) by {
                    if covered(source@, t + 1, q) {
                        let w = choose|w: int| 0 <= w < t + 1 && source@[w] == 96 && #[trigger] covers(source@, w, q);
                        assert(w != t);
                    }
                    if covered(source@, t as int, q) {
                        let w = choose|w: int| 0 <= w < t && source@[w] == 96 && #[trigger] covers(source@, w, q);
                        assert(0 <= w < t + 1);
                    }
                }
            }
        }
        t = t + 1;
    }
    proof {
        assert(out@ =~= unwrapped(source@));
    }
    out
}

/// What stands quoted right after a key, past white space: the text up to
/// the same quote, when it is not empty and holds no line break.
pub open spec fn quoted_after(rest: Seq<char>) -> Option<Seq<char>> {
    let t = crate::text::trim_start(rest);
    if t.len() > 0 && (t[0] == '"' || t[0] == '\'') {
        match crate::text::first_index(t.drop_first(), t[0]) {
            Some(e) => {
                let spec = t.drop_first().take(e);
                if spec.len() > 0 && !spec.contains('\n') { Some(spec) } else { None }
            },
            None => None,
        }
    } else {
        None
    }
}

/// The quoted texts after each occurrence of `key` in `text`, left to right.
pub open spec fn after_key(text: Seq<char>, key: Seq<char>) -> Seq<Seq<char>>
    decreases text.len(),
{
    if key.len() == 0 {
        Seq::empty()
    } else {
        match find_sub(text, key) {
            None => Seq::empty(),
            Some(at) => {
                proof {
                    crate::text::lemma_find_sub(text, key);
                }
                let rest = text.skip(at + key.len());
                let found: Seq<Seq<char>> = match quoted_after(rest) {
                    Some(q) => seq![q],
                    None => Seq::empty(),
                };
                found + after_key(rest, key)
            },
        }
    }
}

/// Every specifier a lexical scan finds: after `from `, `import(`,
/// `require(` and `import `.
pub open spec fn lexical_found(text: Seq<char>) -> Seq<Seq<char>> {
    after_key(text, "from "@) + after_key(text, "import("@) + after_key(text, "require("@) + after_key(text, "import "@)
}

fn quoted(v: &Vec<char>, from: usize) -> (r: Option<String>)
    requires
        from <= v.len(),
    ensures
        match quoted_after(v@.skip(from as int)) {
            Some(q) => r matches Some(s) && s@ == q,
            None => r is None,
        },
{
    let n = v.len();
    let s = crate::text::skip_white(v, from);
    proof {
        crate::text::lemma_lead_white(v@.skip(from as int));
    }
    let ghost t = crate::text::trim_start(v@.skip(from as int));
    proof {
        assert(t =~= v@.skip(s as int));
    }
    if s < n && (v[s] == '"' || v[s] == '\'') {
        let q = v[s];
        let mut e = s + 1;
        while e < n && v[e] != q
            invariant
                s < e <= n == v.len(),
                forall|k: int| s < k < e ==> v@[k] != q,
            decreases n - e,
        {
            e = e + 1;
        }
        let ghost d = t.drop_first();
        proof {
            assert(d =~= v@.skip(s as int + 1));
            crate::text::lemma_first_index(d, q);
        }
        if e == n {
            proof {
                if let Some(k) = crate::text::first_index(d, q) {
                    assert(d[k] == v@[s + 1 + k]);
                }
            }
            return None;
        }
        proof {
            assert(d[e - s - 1] == q);
            crate::text::lemma_first_index_at(d, q, e - s - 1);
        }
        let spec = crate::text::chars_range(v, s + 1, e);
        proof {
            assert(spec@ =~= d.take(e - s - 1));
        }
        let ghost want = if spec@.len() > 0 && !spec@.contains('\n') { Some(spec@) } else { None::<Seq<char>> };
        proof {
            assert(quoted_after(v@.skip(from as int)) == want);
        }
        let mut k: usize = 0;
        while k < spec.len()
            invariant
                k <= spec.len(),
                quoted_after(v@.skip(from as int)) == want,
                want == (if spec@.len() > 0 && !spec@.contains('\n') { Some(spec@) } else { None::<Seq<char>> }),
                forall|j: int| 0 <= j < k ==> spec@[j] != '\n',
            decreases spec.len() - k,
        {
            if spec[k] == '\n' {
                proof {
                    assert(spec@.contains('\n'));
                }
                return None;
            }
            k = k + 1;
        }
        if spec.len() == 0 {
            proof {
                assert(quoted_after(v@.skip(from as int)) is None);
            }
            return None;
        }
        Some(crate::text::string_of(&spec))
    } else {
        None
    }
}

proof fn lemma_cons_set(x: Seq<char>, rest: Seq<Seq<char>>)
    ensures
        (seq![x] + rest).to_set() == rest.to_set().insert(x),
{
    let l = seq![x] + rest;
    assert forall|y: Seq<char>| l.to_set().contains(y) == rest.to_set().insert(x).contains(y) by {
        if l.contains(y) {
            let j = choose|j: int| 0 <= j < l.len() && l[j] == y;
            if j > 0 {
                assert(rest[j - 1] == y);
            }
        }
        if rest.contains(y) {
            let j = choose|j: int| 0 <= j < rest.len() && rest[j] == y;
            assert(l[j + 1] == y);
        }
        if y == x {
            assert(l[0] == y);
        }
    }
    assert(l.to_set() =~= rest.to_set().insert(x));
}

proof fn lemma_concat_set(a: Seq<Seq<char>>, b: Seq<Seq<char>>)
    ensures
        (a + b).to_set() == a.to_set().union(b.to_set()),
{
    let l = a + b;
    assert forall|y: Seq<char>| l.to_set().contains(y) == a.to_set().union(b.to_set()).contains(y) by {
        if l.contains(y) {
            let j = choose|j: int| 0 <= j < l.len() && l[j] == y;
            if j < a.len() {
                assert(a[j] == y);
            } else {
                assert(b[j - a.len()] == y);
            }
        }
        if a.contains(y) {
            let j = choose|j: int| 0 <= j < a.len() && a[j] == y;
            assert(l[j] == y);
        }
        if b.contains(y) {
            let j = choose|j: int| 0 <= j < b.len() && b[j] == y;
            assert(l[a.len() + j] == y);
        }
    }
    assert(l.to_set() =~= a.to_set().union(b.to_set()));
}

proof fn lemma_union_insert(a: Set<Seq<char>>, b: Set<Seq<char>>, x: Seq<char>)
    ensures
        a.insert(x).union(b) == a.union(b.insert(x)),
{
    assert(a.insert(x).union(b) =~= a.union(b.insert(x)));
}

/// The next occurrence of the key from `from`: what is quoted after it,
/// and where the scan goes on; none when the key doesn't occur again.
fn scan_once(v: &Vec<char>, k: &Vec<char>, from: usize) -> (r: Option<(Option<String>, usize)>)
    requires
        from <= v.len(),
        k@.len() > 0,
    ensures
        match r {
            None => after_key(v@.skip(from as int), k@) == Seq::<Seq<char>>::empty(),
            Some((q, next)) => from < next <= v.len() && after_key(v@.skip(from as int), k@) == (match q {
                Some(s) => seq![s@],
                None => Seq::<Seq<char>>::empty(),
            }) + after_key(v@.skip(next as int), k@),
        },
{
    let ghost text = v@.skip(from as int);
    proof {
        crate::text::lemma_find_sub(text, k@);
    }
    match find_from(v, k, from) {
        None => None,
        Some(at) => {
            let next = at + k.len();
            proof {
                let a = at - from;
                assert(find_sub(text, k@) == Some(a as int));
                assert(text.skip(a + k@.len()) =~= v@.skip(next as int));
            }
            let q = quoted(v, next);
            proof {
                if q is None {
                    assert(after_key(text, k@) =~= Seq::<Seq<char>>::empty() + after_key(v@.skip(next as int), k@));
                }
            }
            Some((q, next))
        },
    }
}

#[verifier::rlimit(40)]
fn scan_key(v: &Vec<char>, key: &str, found: &mut Vec<String>)
    requires
        key@.len() > 0,
        crate::strset::str_sorted(old(found)@),
    ensures
        crate::strset::str_sorted(final(found)@),
        crate::strset::str_set(final(found)@) == crate::strset::str_set(old(found)@).union(after_key(v@, key@).to_set()),
{
    let k = chars_of(key);
    let mut from: usize = 0;
    let mut more = true;
    let ghost start = crate::strset::str_set(found@);
    proof {
        assert(v@.skip(0) =~= v@);
    }
    while more
        invariant
            from <= v.len(),
            k@ == key@,
            k@.len() > 0,
            crate::strset::str_sorted(found@),
            more ==> crate::strset::str_set(found@).union(after_key(v@.skip(from as int), key@).to_set())
                == start.union(after_key(v@, key@).to_set()),
            !more ==> crate::strset::str_set(found@) == start.union(after_key(v@, key@).to_set()),
        decreases v.len() - from + (if more { 1int } else { 0int }),
    {
        let ghost before = crate::strset::str_set(found@);
        match scan_once(v, &k, from) {
            None => {
                proof {
                    assert(before.union(Seq::<Seq<char>>::empty().to_set()) =~= before);
                }
                more = false;
            },
            Some((q, next)) => {
                let ghost rest = after_key(v@.skip(next as int), key@);
                match q {
                    Some(s) => {
                        let ghost sv = s@;
                        crate::strset::insert_str(found, s);
                        proof {
                            lemma_cons_set(sv, rest);
                            lemma_union_insert(before, rest.to_set(), sv);
                        }
                    },
                    None => {
                        proof {
                            assert(Seq::<Seq<char>>::empty() + rest =~= rest);
                        }
                    },
                }
                from = next;
            },
        }
    }
}

/// What a lexical scan of `text` gives: the strings after `from `,
/// `import(`, `require(` and `import `, as imports, sorted, each once.
pub open spec fn lexical_result(r: Extracted, text: Seq<char>) -> bool {
    &&& r.specs@.map_values(|p: (String, SpecKind)| p.0@) == crate::strset::sorted_texts(lexical_found(text).to_set())
    &&& forall|i: int| 0 <= i < r.specs.len() ==> (#[trigger] r.specs@[i]).1 == SpecKind::Import
    &&& r.literals.len() == 0
    &&& !r.unknown_dynamic
}

/// Import, export, `import()` and `require()` strings found without
/// parsing, as imports, sorted, each once.
#[verifier::rlimit(40)]
pub fn lexical(text: &str) -> (r: Extracted)
    ensures
        lexical_result(r, text@),
{
    let v = chars_of(text);
    let mut found: Vec<String> = Vec::new();
    proof {
        reveal_strlit("from ");
        reveal_strlit("import(");
        reveal_strlit("require(");
        reveal_strlit("import ");
        assert(crate::strset::str_set(found@) =~= Set::<Seq<char>>::empty());
    }
    scan_key(&v, "from ", &mut found);
    scan_key(&v, "import(", &mut found);
    scan_key(&v, "require(", &mut found);
    scan_key(&v, "import ", &mut found);
    proof {
        let a = after_key(text@, "from "@);
        let b = after_key(text@, "import("@);
        let c = after_key(text@, "require("@);
        let d = after_key(text@, "import "@);
        lemma_concat_set(a, b);
        lemma_concat_set(a + b, c);
        lemma_concat_set(a + b + c, d);
        assert(Set::<Seq<char>>::empty().union(a.to_set()) =~= a.to_set());
        crate::strset::lemma_sorted_texts(found@);
    }
    let mut specs: Vec<(String, SpecKind)> = Vec::new();
    let mut i: usize = 0;
    while i < found.len()
        invariant
            i <= found.len(),
            specs.len() == i,
            forall|j: int| 0 <= j < i ==> (#[trigger] specs@[j]).0@ == found@[j]@ && specs@[j].1 == SpecKind::Import,
        decreases found.len() - i,
    {
        specs.push((crate::text::copy_str(found[i].as_str()), SpecKind::Import));
        i = i + 1;
    }
    proof {
        assert(specs@.map_values(|p: (String, SpecKind)| p.0@) =~= crate::strset::views_of(found@));
    }
    Extracted { specs, literals: Vec::new(), unknown_dynamic: false }
}

} // verus!

verus! {

/// Files larger than this are almost always generated; they get a lexical
/// scan instead of a parse.
pub const LEXICAL_ABOVE_BYTES: usize = 262144;

/// The extraction query of every grammar.
pub const COMMON: &'static str = r#"
(import_statement source: (string (string_fragment) @import))
(export_statement source: (string (string_fragment) @import))
(call_expression function: (import) arguments: (arguments . (string (string_fragment) @dynamic)))
(call_expression function: (import) arguments: (arguments . [(identifier) (template_string) (binary_expression) (member_expression) (call_expression) (subscript_expression)] @unknown))
(call_expression function: (identifier) @_req arguments: (arguments . (string (string_fragment) @require)) (#eq? @_req "require"))
(call_expression function: (identifier) @_dreq arguments: (arguments . [(identifier) (template_string) (binary_expression) (member_expression) (call_expression) (subscript_expression)] @unknown) (#eq? @_dreq "require"))
(call_expression function: (member_expression object: (identifier) @_obj property: (property_identifier) @_prop) arguments: (arguments . (string (string_fragment) @mock)) (#match? @_obj "^(vi|jest)$") (#match? @_prop "^(mock|doMock|unmock|requireActual|importActual|importMock|requireMock)$"))
(call_expression function: (member_expression object: (identifier) @_robj property: (property_identifier) @_rprop) arguments: (arguments . (string (string_fragment) @require)) (#eq? @_robj "require") (#eq? @_rprop "resolve"))
(string (string_fragment) @literal)
"#;

/// What the TypeScript grammars add to the query.
pub const TYPESCRIPT_ONLY: &'static str = r#"
(import_require_clause source: (string (string_fragment) @require))
"#;

/// The query a grammar runs.
pub open spec fn query_text(g: Grammar) -> Seq<char> {
    if g == Grammar::JavaScript {
        COMMON@
    } else {
        COMMON@ + TYPESCRIPT_ONLY@
    }
}

fn query_of(g: Grammar) -> (r: String)
    ensures
        r@ == query_text(g),
{
    let mut q = crate::text::copy_str(COMMON);
    if g != Grammar::JavaScript {
        crate::text::push_str(&mut q, TYPESCRIPT_ONLY);
    }
    q
}

/// The text `String::from_utf8_lossy` makes of some bytes.
pub uninterp spec fn lossy_text(bytes: Seq<u8>) -> Seq<char>;

/// `String::from_utf8_lossy`: the bytes as text, every invalid sequence
/// replaced. The contract names the text and claims only that bytes that
/// are the UTF-8 of a text give that text.
#[verifier::external_body]
pub(crate) fn utf8_lossy(bytes: &[u8]) -> (r: String)
    ensures
        r@ == lossy_text(bytes@),
        forall|s: Seq<char>| #[trigger] crate::text::utf8_bytes(s) == bytes@ ==> r@ == s,
{
    String::from_utf8_lossy(bytes).into_owned()
}

/// What a file refers to, by its extension and bytes: nothing for a file
/// that isn't JavaScript or TypeScript; a lexical scan for one above the
/// size limit, or one the grammar gives no captures of; else what the
/// captures of the extraction query give.
pub open spec fn extracted(r: Extracted, rel: Seq<char>, source: Seq<u8>) -> bool {
    match grammar_of(rel) {
        None => r.specs.len() == 0 && r.literals.len() == 0 && !r.unknown_dynamic,
        Some(g) => if source.len() > LEXICAL_ABOVE_BYTES {
            lexical_result(r, lossy_text(source))
        } else {
            match crate::lang::captures::query_captures(g, query_text(g), source) {
                None => lexical_result(r, lossy_text(source)),
                Some(cs) => crate::lang::captures::captured(r, cs),
            }
        },
    }
}

/// Whether `extract` falls back to the lexical scan for this file.
pub open spec fn lexical_path(rel: Seq<char>, source: Seq<u8>) -> bool {
    match grammar_of(rel) {
        None => false,
        Some(g) => source.len() > LEXICAL_ABOVE_BYTES
            || crate::lang::captures::query_captures(g, query_text(g), source) is None,
    }
}

/// The module specifiers and path-like literals of a source file. Where
/// the lexical scan runs on bytes that are the UTF-8 of a text, it scans
/// that text.
pub fn extract(rel: &str, source: &[u8]) -> (r: Extracted)
    ensures
        extracted(r, rel@, source@),
        lexical_path(rel@, source@) ==> forall|s: Seq<char>| #[trigger] crate::text::utf8_bytes(s) == source@
            ==> lexical_result(r, s),
{
    let g = match grammar(rel) {
        Some(g) => g,
        None => return Extracted { specs: Vec::new(), literals: Vec::new(), unknown_dynamic: false },
    };
    if source.len() > LEXICAL_ABOVE_BYTES {
        return lexical(utf8_lossy(source).as_str());
    }
    let q = query_of(g);
    match crate::lang::captures::captures(g, q.as_str(), source) {
        Some(cs) => crate::lang::captures::from_captures(cs.as_slice()),
        None => lexical(utf8_lossy(source).as_str()),
    }
}

} // verus!

verus! {

/// The ABI version, node kind count and field count of a grammar's
/// language.
pub uninterp spec fn grammar_shape(g: Grammar) -> (usize, usize, usize);

/// `tree_sitter::Language::abi_version`, `node_kind_count` and
/// `field_count` of the grammar's language; the contract names them.
#[verifier::external_body]
fn shape_of(g: Grammar) -> (r: (usize, usize, usize))
    ensures
        r == grammar_shape(g),
{
    let l = crate::lang::syntax::language_of(g);
    (l.abi_version(), l.node_kind_count(), l.field_count())
}

/// `/abi/kinds/fields` of a grammar.
pub open spec fn shape_text(g: Grammar) -> Seq<char> {
    let (a, k, f) = grammar_shape(g);
    seq!['/'] + crate::text::decimal(a as nat) + seq!['/'] + crate::text::decimal(k as nat) + seq!['/']
        + crate::text::decimal(f as nat)
}

/// Everything besides a file's bytes and extension that decides what
/// `extract` returns: the queries, the size limits and each grammar's
/// shape.
pub open spec fn fingerprint_text() -> Seq<char> {
    COMMON@ + TYPESCRIPT_ONLY@ + crate::text::decimal(LEXICAL_ABOVE_BYTES as nat) + seq!['/'] + crate::text::decimal(
        MAX_LITERAL_LEN as nat,
    ) + shape_text(Grammar::TypeScript) + shape_text(Grammar::Tsx) + shape_text(Grammar::JavaScript)
}

fn push_shape(s: &mut String, g: Grammar)
    ensures
        final(s)@ == old(s)@ + shape_text(g),
{
    let (a, k, f) = shape_of(g);
    crate::text::push_char(s, '/');
    crate::text::push_decimal(s, a as u64);
    crate::text::push_char(s, '/');
    crate::text::push_decimal(s, k as u64);
    crate::text::push_char(s, '/');
    crate::text::push_decimal(s, f as u64);
}

/// The SHA-1 of what besides a file's bytes and extension decides what
/// `extract` returns; the parse cache is keyed on it, so none of these can
/// serve a stale entry.
pub fn fingerprint() -> (r: String)
    ensures
        r@ == crate::lang::cache::sha1_text(crate::text::utf8_bytes(fingerprint_text())),
{
    let mut t = crate::text::copy_str(COMMON);
    crate::text::push_str(&mut t, TYPESCRIPT_ONLY);
    crate::text::push_decimal(&mut t, LEXICAL_ABOVE_BYTES as u64);
    crate::text::push_char(&mut t, '/');
    crate::text::push_decimal(&mut t, MAX_LITERAL_LEN as u64);
    push_shape(&mut t, Grammar::TypeScript);
    push_shape(&mut t, Grammar::Tsx);
    push_shape(&mut t, Grammar::JavaScript);
    proof {
        assert(t@ =~= fingerprint_text());
    }
    crate::lang::cache::sha1_hex(t.as_str().as_bytes())
}

} // verus!
