//! Lines as code, blank or comment, and runs of comment lines as blocks. A
//! line is a comment only when it starts with a comment marker once
//! trimmed, so a comment after code stays a code line here; those are found
//! from the syntax tree instead.
use vstd::prelude::*;
use crate::strset::views_of;
use crate::text::{
    chars_of, chars_range, eq_lit, is_blank, is_white, is_white_char, join, join_chars,
    last_index, lead_white, lemma_last_index, rfind_char, skip_white, split, split_chars,
    string_of, trim, trimmed, views, words, words_of,
};

verus! {

/// A family of comment markers.
#[derive(Debug, Clone, Copy, PartialEq, Eq, Structural)]
pub enum Style {
    /// `//` and `/* */`.
    C,
    /// `--`.
    Sql,
    /// `#`.
    Hash,
}

/// The comment style of a file, by the text after its last `.`.
pub open spec fn style_spec(path: Seq<char>) -> Option<Style> {
    match last_index(path, '.') {
        None => None,
        Some(i) => {
            let e = path.skip(i + 1);
            if e == "ts"@ || e == "tsx"@ || e == "mts"@
                || e == "cts"@ || e == "js"@ || e == "jsx"@
                || e == "mjs"@ || e == "cjs"@ {
                Some(Style::C)
            } else if e == "sql"@ {
                Some(Style::Sql)
            } else if e == "yml"@ || e == "yaml"@
                || e == "toml"@ || e == "sh"@ {
                Some(Style::Hash)
            } else {
                None
            }
        },
    }
}

pub fn style_of(path: &str) -> (r: Option<Style>)
    ensures
        r == style_spec(path@),
{
    let v = chars_of(path);
    match rfind_char(&v, '.') {
        None => None,
        Some(i) => {
            proof {
                lemma_last_index(v@, '.');
            }
            let n = v.len();
            let e = chars_range(&v, i + 1, n);
            proof {
                assert(e@ =~= v@.skip(i as int + 1));
            }
            if eq_lit(&e, "ts") || eq_lit(&e, "tsx") || eq_lit(&e, "mts") || eq_lit(&e, "cts")
                || eq_lit(&e, "js") || eq_lit(&e, "jsx") || eq_lit(&e, "mjs") || eq_lit(&e, "cjs") {
                Some(Style::C)
            } else if eq_lit(&e, "sql") {
                Some(Style::Sql)
            } else if eq_lit(&e, "yml") || eq_lit(&e, "yaml") || eq_lit(&e, "toml") || eq_lit(&e, "sh") {
                Some(Style::Hash)
            } else {
                None
            }
        },
    }
}

/// What a line is.
#[derive(Debug, Clone, Copy, PartialEq, Eq, Structural)]
pub enum Kind {
    Code,
    Blank,
    Comment,
}

/// The file's lines: the text cut at each `\n`, where a final newline
/// doesn't start a line.
pub open spec fn file_lines(s: Seq<char>) -> Seq<Seq<char>> {
    let p = split(s, '\n');
    if p.len() > 0 && p.last().len() == 0 { p.drop_last() } else { p }
}

pub fn lines(text: &str) -> (r: Vec<String>)
    ensures
        views_of(r@) == file_lines(text@),
{
    let v = chars_of(text);
    let mut parts = split_chars(&v, '\n');
    let k = parts.len();
    if parts[k - 1].len() == 0 {
        parts.pop();
        proof {
            assert(views(parts@) =~= split(v@, '\n').drop_last());
        }
    }
    let mut out: Vec<String> = Vec::new();
    let mut i: usize = 0;
    while i < parts.len()
        invariant
            i <= parts.len(),
            out.len() == i,
            forall|j: int| 0 <= j < i ==> out@[j]@ == parts@[j]@,
        decreases parts.len() - i,
    {
        out.push(string_of(&parts[i]));
        i = i + 1;
    }
    proof {
        assert(views_of(out@) =~= views(parts@));
    }
    out
}

/// Whether `t` holds `*/`.
pub open spec fn has_close(t: Seq<char>) -> bool {
    exists|i: int| 0 <= i && i + 1 < t.len() && t[i] == '*' && #[trigger] t[i + 1] == '/'
}

/// Whether `v[from..]` holds `*/`.
pub(crate) fn holds_close(v: &Vec<char>, from: usize) -> (r: bool)
    requires
        from <= v.len(),
    ensures
        r == has_close(v@.skip(from as int)),
{
    let ghost t = v@.skip(from as int);
    let mut i = from;
    while v.len() - i > 1
        invariant
            from <= i <= v.len(),
            t == v@.skip(from as int),
            forall|k: int| 0 <= k < i - from && k + 1 < t.len() ==> !(t[k] == '*' && #[trigger] t[k + 1] == '/'),
        decreases v.len() - i,
    {
        if v[i] == '*' && v[i + 1] == '/' {
            proof {
                assert(t[i - from] == '*' && t[i - from + 1] == '/');
            }
            return true;
        }
        i = i + 1;
    }
    proof {
        assert forall|k: int| 0 <= k && k + 1 < t.len() implies !(t[k] == '*' && #[trigger] t[k + 1] == '/') by {
            assert(k < i - from);
        }
    }
    false
}

/// Whether `t` starts with the two characters `a` and `b`.
pub open spec fn starts2(t: Seq<char>, a: char, b: char) -> bool {
    t.len() >= 2 && t[0] == a && t[1] == b
}

/// How one trimmed line is classified, and whether a `/* */` is still open
/// after it.
pub open spec fn step(t: Seq<char>, style: Style, in_block: bool) -> (Kind, bool) {
    if style == Style::C && in_block {
        (Kind::Comment, !has_close(t))
    } else if t.len() == 0 {
        (Kind::Blank, in_block)
    } else {
        match style {
            Style::C => if starts2(t, '/', '/') {
                (Kind::Comment, in_block)
            } else if starts2(t, '/', '*') {
                (Kind::Comment, !has_close(t.skip(2)))
            } else {
                (Kind::Code, in_block)
            },
            Style::Sql => if starts2(t, '-', '-') {
                (Kind::Comment, in_block)
            } else {
                (Kind::Code, in_block)
            },
            Style::Hash => if t[0] == '#' {
                (Kind::Comment, in_block)
            } else {
                (Kind::Code, in_block)
            },
        }
    }
}

/// Each line's kind, and whether a `/* */` is open after the last.
pub open spec fn classify_spec(lines: Seq<Seq<char>>, style: Style) -> (Seq<Kind>, bool)
    decreases lines.len(),
{
    if lines.len() == 0 {
        (Seq::empty(), false)
    } else {
        let (kinds, open) = classify_spec(lines.drop_last(), style);
        let (k, next) = step(trim(lines.last()), style, open);
        (kinds.push(k), next)
    }
}

pub fn classify(lines: &[String], style: Style) -> (r: Vec<Kind>)
    ensures
        r@ == classify_spec(views_of(lines@), style).0,
{
    let mut kinds: Vec<Kind> = Vec::new();
    let mut in_block = false;
    let mut i: usize = 0;
    while i < lines.len()
        invariant
            i <= lines.len(),
            (kinds@, in_block) == classify_spec(views_of(lines@).take(i as int), style),
        decreases lines.len() - i,
    {
        let v = chars_of(lines[i].as_str());
        let t = trimmed(&v);
        proof {
            assert(views_of(lines@).take(i as int + 1).drop_last() =~= views_of(lines@).take(i as int));
            assert(views_of(lines@).take(i as int + 1).last() == lines@[i as int]@);
        }
        let kind = if style == Style::C && in_block {
            in_block = !holds_close(&t, 0);
            proof {
                assert(t@.skip(0) =~= t@);
            }
            Kind::Comment
        } else if t.len() == 0 {
            Kind::Blank
        } else {
            match style {
                Style::C => if t.len() >= 2 && t[0] == '/' && t[1] == '/' {
                    Kind::Comment
                } else if t.len() >= 2 && t[0] == '/' && t[1] == '*' {
                    in_block = !holds_close(&t, 2);
                    Kind::Comment
                } else {
                    Kind::Code
                },
                Style::Sql => if t.len() >= 2 && t[0] == '-' && t[1] == '-' {
                    Kind::Comment
                } else {
                    Kind::Code
                },
                Style::Hash => if t[0] == '#' {
                    Kind::Comment
                } else {
                    Kind::Code
                },
            }
        };
        kinds.push(kind);
        i = i + 1;
    }
    proof {
        assert(views_of(lines@).take(i as int) =~= views_of(lines@));
    }
    kinds
}

/// How many leading characters of `line` the marker pattern takes: white
/// space, the marker, and one white space after it; none without a marker.
pub open spec fn marker_len(line: Seq<char>, style: Style) -> int {
    let w = lead_white(line) as int;
    let rest = line.skip(w);
    let m: int = match style {
        Style::C => if rest.len() >= 3 && rest[0] == '/' && rest[1] == '*' && rest[2] == '*' {
            3
        } else if starts2(rest, '/', '*') || starts2(rest, '*', '/') || starts2(rest, '/', '/') {
            2
        } else if rest.len() >= 1 && rest[0] == '*' {
            1
        } else {
            0
        },
        Style::Sql => if starts2(rest, '-', '-') { 2 } else { 0 },
        Style::Hash => if rest.len() >= 1 && rest[0] == '#' { 1 } else { 0 },
    };
    if m == 0 {
        0
    } else if w + m < line.len() && is_white(line[w + m]) {
        w + m + 1
    } else {
        w + m
    }
}

/// `line` without its comment marker.
pub open spec fn strip_marker(line: Seq<char>, style: Style) -> Seq<char> {
    line.skip(marker_len(line, style))
}

/// Each line's marker stripped and white space collapsed, so a phrase
/// split across a wrap reads as one.
pub open spec fn flatten_spec(text: Seq<char>, style: Style) -> Seq<char> {
    let stripped = split(text, '\n').map_values(|l: Seq<char>| strip_marker(l, style));
    join(words_of(join(stripped, seq![' '])), seq![' '])
}

fn strip_line(v: &Vec<char>, style: Style) -> (r: Vec<char>)
    ensures
        r@ == strip_marker(v@, style),
{
    let n = v.len();
    let w = skip_white(v, 0);
    proof {
        assert(v@.skip(0) =~= v@);
        crate::text::lemma_lead_white(v@);
    }
    let ghost rest = v@.skip(w as int);
    let m: usize = match style {
        Style::C => if n - w >= 3 && v[w] == '/' && v[w + 1] == '*' && v[w + 2] == '*' {
            3
        } else if n - w >= 2 && ((v[w] == '/' && v[w + 1] == '*') || (v[w] == '*' && v[w + 1] == '/')
            || (v[w] == '/' && v[w + 1] == '/')) {
            2
        } else if n - w >= 1 && v[w] == '*' {
            1
        } else {
            0
        },
        Style::Sql => if n - w >= 2 && v[w] == '-' && v[w + 1] == '-' {
            2
        } else {
            0
        },
        Style::Hash => if n - w >= 1 && v[w] == '#' {
            1
        } else {
            0
        },
    };
    proof {
        assert(rest.len() == n - w);
        if w + 1 <= n {
            assert(rest[0] == v@[w as int]);
        }
        if w + 2 <= n {
            assert(rest[1] == v@[w + 1]);
        }
        if w + 3 <= n {
            assert(rest[2] == v@[w + 2]);
        }
    }
    let k = if m == 0 {
        0
    } else if m < n - w && is_white_char(v[w + m]) {
        w + m + 1
    } else {
        w + m
    };
    chars_range(v, k, n)
}

fn flatten_chars(v: &Vec<char>, style: Style) -> (r: Vec<char>)
    ensures
        r@ == flatten_spec(v@, style),
{
    let parts = split_chars(v, '\n');
    let mut stripped: Vec<Vec<char>> = Vec::new();
    let mut i: usize = 0;
    while i < parts.len()
        invariant
            i <= parts.len(),
            stripped.len() == i,
            forall|j: int| 0 <= j < i ==> stripped@[j]@ == strip_marker(parts@[j]@, style),
        decreases parts.len() - i,
    {
        stripped.push(strip_line(&parts[i], style));
        i = i + 1;
    }
    let space = vec![' '];
    let joined = join_chars(&stripped, &space);
    let ws = words(&joined);
    let out = join_chars(&ws, &space);
    proof {
        assert(views(stripped@) =~= split(v@, '\n').map_values(|l: Seq<char>| strip_marker(l, style)));
        assert(space@ =~= seq![' ']);
    }
    out
}

pub fn flatten(text: &str, style: Style) -> (r: String)
    ensures
        r@ == flatten_spec(text@, style),
{
    let v = chars_of(text);
    let f = flatten_chars(&v, style);
    string_of(&f)
}

/// A run of comment lines, or a single comment after code.
#[derive(Debug, Clone, PartialEq, Eq)]
pub struct Block {
    /// 1-based.
    pub start: u32,
    pub length: u32,
    /// Each line's marker stripped and white space collapsed, so a phrase
    /// split across a wrap reads as one.
    pub flat: String,
    /// The first line starts with white space.
    pub indented: bool,
    /// The nearest non-blank line above is code.
    pub after_code: bool,
}

/// Where the run of comment lines from `i` ends.
pub open spec fn run_end(kinds: Seq<Kind>, i: int) -> int
    decreases kinds.len() - i,
{
    if 0 <= i < kinds.len() && kinds[i] == Kind::Comment {
        run_end(kinds, i + 1)
    } else {
        i
    }
}

pub proof fn lemma_run_end(kinds: Seq<Kind>, i: int)
    requires
        0 <= i <= kinds.len(),
    ensures
        i <= run_end(kinds, i) <= kinds.len(),
        0 <= i < kinds.len() && kinds[i] == Kind::Comment ==> run_end(kinds, i) > i,
        forall|j: int| i <= j < run_end(kinds, i) ==> kinds[j] == Kind::Comment,
        run_end(kinds, i) < kinds.len() ==> kinds[run_end(kinds, i)] != Kind::Comment,
    decreases kinds.len() - i,
{
    if i < kinds.len() && kinds[i] == Kind::Comment {
        lemma_run_end(kinds, i + 1);
    }
}

/// Whether the nearest non-blank line above line `i` is code.
pub open spec fn code_above(kinds: Seq<Kind>, i: int) -> bool
    decreases i,
{
    if i <= 0 {
        false
    } else if kinds[i - 1] == Kind::Blank {
        code_above(kinds, i - 1)
    } else {
        kinds[i - 1] == Kind::Code
    }
}

/// Where each block starts, from line `i` on.
pub open spec fn block_starts(kinds: Seq<Kind>, i: int) -> Seq<int>
    decreases kinds.len() - i,
{
    if i < 0 || i >= kinds.len() {
        Seq::empty()
    } else if kinds[i] != Kind::Comment {
        block_starts(kinds, i + 1)
    } else {
        proof {
            lemma_run_end(kinds, i);
        }
        seq![i] + block_starts(kinds, run_end(kinds, i))
    }
}

/// Whether the first line of a block starts with white space and holds
/// more than white space.
pub open spec fn indented_line(head: Seq<char>) -> bool {
    head.len() > 0 && is_white(head[0]) && trim(head).len() > 0
}

/// `b` is the block of lines `i..e`.
pub open spec fn block_is(
    b: Block,
    lines: Seq<Seq<char>>,
    kinds: Seq<Kind>,
    style: Style,
    i: int,
    e: int,
) -> bool {
    &&& b.start == i + 1
    &&& b.length == e - i
    &&& b.flat@ == flatten_spec(join(lines.subrange(i, e), seq!['\n']), style)
    &&& b.indented == indented_line(lines[i])
    &&& b.after_code == code_above(kinds, i)
}

pub fn blocks(lines: &[String], kinds: &[Kind], style: Style) -> (r: Vec<Block>)
    requires
        kinds.len() <= lines.len(),
        kinds.len() <= u32::MAX,
    ensures
        r.len() == block_starts(kinds@, 0).len(),
        forall|j: int|
            0 <= j < r.len() ==> block_is(
                #[trigger] r@[j],
                views_of(lines@),
                kinds@,
                style,
                block_starts(kinds@, 0)[j],
                run_end(kinds@, block_starts(kinds@, 0)[j]),
            ),
{
    let ghost ls = views_of(lines@);
    let ghost ks = kinds@;
    let mut out: Vec<Block> = Vec::new();
    let ghost mut done: Seq<int> = Seq::empty();
    let n = kinds.len();
    let mut i: usize = 0;
    while i < n
        invariant
            i <= n == kinds.len() <= lines.len(),
            n <= u32::MAX,
            ls == views_of(lines@),
            ks == kinds@,
            done + block_starts(ks, i as int) == block_starts(ks, 0),
            out.len() == done.len(),
            forall|j: int|
                0 <= j < out.len() ==> block_is(#[trigger] out@[j], ls, ks, style, done[j], run_end(ks, done[j])),
        decreases n - i,
    {
        if kinds[i] != Kind::Comment {
            i = i + 1;
            continue;
        }
        let mut j = i;
        while j > 0 && kinds[j - 1] == Kind::Blank
            invariant
                j <= i < n == kinds.len(),
                ks == kinds@,
                code_above(ks, i as int) == code_above(ks, j as int),
            decreases j,
        {
            j = j - 1;
        }
        let after_code = j > 0 && kinds[j - 1] == Kind::Code;
        let first = i;
        proof {
            lemma_run_end(ks, first as int);
        }
        while i < n && kinds[i] == Kind::Comment
            invariant
                first <= i <= n == kinds.len(),
                ks == kinds@,
                run_end(ks, first as int) == run_end(ks, i as int),
            decreases n - i,
        {
            i = i + 1;
        }
        let mut part: Vec<Vec<char>> = Vec::new();
        let mut k = first;
        while k < i
            invariant
                first <= k <= i <= n <= lines.len(),
                ls == views_of(lines@),
                part.len() == k - first,
                forall|q: int| 0 <= q < part.len() ==> part@[q]@ == ls[first + q],
            decreases i - k,
        {
            part.push(chars_of(lines[k].as_str()));
            k = k + 1;
        }
        let nl = vec!['\n'];
        let text = join_chars(&part, &nl);
        let flat_chars = flatten_chars(&text, style);
        let flat = string_of(&flat_chars);
        let indented = {
            let head = chars_of(lines[first].as_str());
            head.len() > 0 && is_white_char(head[0]) && !is_blank(lines[first].as_str())
        };
        proof {
            assert(views(part@) =~= ls.subrange(first as int, i as int));
            assert(nl@ =~= seq!['\n']);
            assert(ls[first as int] == lines@[first as int]@);
        }
        let b = Block { start: first as u32 + 1, length: (i - first) as u32, flat, indented, after_code };
        proof {
            assert(run_end(ks, i as int) == i as int);
            assert(block_starts(ks, first as int) == seq![first as int] + block_starts(ks, i as int));
            assert(done.push(first as int) + block_starts(ks, i as int) =~= done + block_starts(ks, first as int));
        }
        out.push(b);
        proof {
            done = done.push(first as int);
        }
    }
    proof {
        assert(block_starts(ks, n as int) =~= Seq::<int>::empty());
        assert(done =~= block_starts(ks, 0));
    }
    out
}

} // verus!
