//! What a comment may not say: history that belongs in the change that
//! made it, the codes of work items outside a pointer, and instructions to
//! its next editor.
use vstd::prelude::*;

use crate::config;
use crate::matcher::{
    regex_captures, regex_captures_all, regex_escape, regex_escaped, regex_find, regex_find_all, regex_finds, regex_first,
    regex_matches, regex_problem, Matcher,
};
use crate::text::{chars_of, copy_str, lowercase, push_str, same_str, split, split_chars, to_lower, trim, trimmed, string_of, views};

verus! {

/// A date such as `2026-01-02`.
pub const DATE: &'static str = "20[0-9]{2}-[0-9]{2}-[0-9]{2}";
/// A number with a unit of time or size.
pub const MEASURE: &'static str = r"[0-9]+ ?(?:px|ms|s|KB|MB)(?-u:\b)";
/// The word "measured", in any case.
pub const MEASURED: &'static str = "(?i)measured";

/// `text` as a whole-word pattern.
pub open spec fn whole_word(text: Seq<char>) -> Seq<char> {
    r"(?-u:\b)"@ + regex_escaped(text) + r"(?-u:\b)"@
}

fn whole_word_exec(text: &str) -> (r: String)
    ensures
        r@ == whole_word(text@),
{
    let mut p = copy_str(r"(?-u:\b)");
    let e = regex_escape(text);
    push_str(&mut p, e.as_str());
    push_str(&mut p, r"(?-u:\b)");
    p
}

/// The history checks, compiled.
pub struct History {
    pub date: Option<Matcher>,
    /// Each name with its whole-word pattern.
    pub names: Vec<(String, Matcher)>,
    /// Each lowercase phrase with its whole-word pattern.
    pub phrases: Vec<(String, Matcher)>,
    pub measured: Option<(Matcher, Matcher)>,
}

/// Each word with its whole-word pattern.
pub open spec fn words_compiled(ws: Seq<(String, Matcher)>, texts: Seq<Seq<char>>) -> bool {
    &&& ws.len() == texts.len()
    &&& forall|i: int| 0 <= i < ws.len() ==> (#[trigger] ws[i]).0@ == texts[i] && ws[i].1.source() == whole_word(texts[i])
}

/// `h` is what `c` compiles to.
pub open spec fn history_of(h: History, c: config::History) -> bool {
    &&& (h.date is Some <==> c.dates) && (h.date matches Some(d) ==> d.source() == DATE@)
    &&& words_compiled(h.names@, c.names@.map_values(|s: String| s@))
    &&& words_compiled(h.phrases@, c.phrases@.map_values(|s: String| lowercase(s@)))
    &&& (h.measured is Some <==> c.measured)
    &&& (h.measured matches Some((n, w)) ==> n.source() == MEASURE@ && w.source() == MEASURED@)
}

/// The words' texts, lowercased when `lower`.
pub open spec fn word_texts(ws: Seq<String>, lower: bool) -> Seq<Seq<char>> {
    ws.map_values(|s: String| if lower { lowercase(s@) } else { s@ })
}

/// The problem of the first word, from the `i`th on, whose whole-word
/// pattern doesn't compile.
pub open spec fn words_problem(texts: Seq<Seq<char>>, i: int) -> Option<Seq<char>>
    decreases texts.len() - i,
{
    if i < 0 || i >= texts.len() {
        None
    } else {
        match regex_problem(whole_word(texts[i])) {
            Some(e) => Some(e),
            None => words_problem(texts, i + 1),
        }
    }
}

/// The first pattern of the history checks that doesn't compile: the
/// date's, a name's, a phrase's, then the measurement's two.
pub open spec fn history_problem(c: config::History) -> Option<Seq<char>> {
    let date = if c.dates { regex_problem(DATE@) } else { None };
    let names = words_problem(word_texts(c.names@, false), 0);
    let phrases = words_problem(word_texts(c.phrases@, true), 0);
    if date is Some {
        date
    } else if names is Some {
        names
    } else if phrases is Some {
        phrases
    } else if c.measured && regex_problem(MEASURE@) is Some {
        regex_problem(MEASURE@)
    } else if c.measured {
        regex_problem(MEASURED@)
    } else {
        None
    }
}

/// Compiles each word's whole-word pattern, lowercasing the words first
/// when `lower`.
fn compile_words(ws: &Vec<String>, lower: bool) -> (r: Result<Vec<(String, Matcher)>, String>)
    ensures
        r matches Ok(v) ==> words_compiled(v@, word_texts(ws@, lower)),
        match words_problem(word_texts(ws@, lower), 0) {
            Some(e) => r matches Err(m) && m@ == e,
            None => r is Ok,
        },
{
    let ghost texts = word_texts(ws@, lower);
    let mut out: Vec<(String, Matcher)> = Vec::new();
    let mut i: usize = 0;
    while i < ws.len()
        invariant
            i <= ws.len(),
            texts == word_texts(ws@, lower),
            out.len() == i,
            forall|k: int| 0 <= k < i ==> (#[trigger] out@[k]).0@ == texts[k] && out@[k].1.source() == whole_word(texts[k]),
            words_problem(texts, 0) == words_problem(texts, i as int),
        decreases ws.len() - i,
    {
        let w = if lower { to_lower(ws[i].as_str()) } else { copy_str(ws[i].as_str()) };
        let p = whole_word_exec(w.as_str());
        match Matcher::new(p.as_str()) {
            Ok(m) => out.push((w, m)),
            Err(e) => return Err(e),
        }
        i = i + 1;
    }
    Ok(out)
}

impl History {
    /// The checks `c` asks for; an error only for a pattern that doesn't
    /// compile.
    pub fn new(c: &config::History) -> (r: Result<History, String>)
        ensures
            r matches Ok(h) ==> history_of(h, *c),
            match history_problem(*c) {
                Some(e) => r matches Err(m) && m@ == e,
                None => r is Ok,
            },
    {
        let date = if c.dates {
            match Matcher::new(DATE) {
                Ok(m) => Some(m),
                Err(e) => return Err(e),
            }
        } else {
            None
        };
        let names = match compile_words(&c.names, false) {
            Ok(v) => v,
            Err(e) => return Err(e),
        };
        let phrases = match compile_words(&c.phrases, true) {
            Ok(v) => v,
            Err(e) => return Err(e),
        };
        let measured = if c.measured {
            let n = match Matcher::new(MEASURE) {
                Ok(m) => m,
                Err(e) => return Err(e),
            };
            let w = match Matcher::new(MEASURED) {
                Ok(m) => m,
                Err(e) => return Err(e),
            };
            Some((n, w))
        } else {
            None
        };
        proof {
            assert(c.names@.map_values(|s: String| s@) =~= word_texts(c.names@, false));
            assert(c.phrases@.map_values(|s: String| lowercase(s@)) =~= word_texts(c.phrases@, true));
        }
        Ok(History { date, names, phrases, measured })
    }
}

/// The first word, from the `i`th on, whose pattern matches `text`.
pub open spec fn first_word(ws: Seq<(String, Matcher)>, text: Seq<char>, i: int) -> Option<int>
    decreases ws.len() - i,
{
    if i < 0 || i >= ws.len() {
        None
    } else if regex_finds(ws[i].1.source(), text) {
        Some(i)
    } else {
        first_word(ws, text, i + 1)
    }
}

/// What a comment carries from its history, the first found in order: a
/// date, a name, a phrase (in any case), a measurement beside "measured".
pub open spec fn history_hit(h: History, flat: Seq<char>) -> Option<Seq<char>> {
    if h.date matches Some(d) && regex_finds(d.source(), flat) {
        Some("a date"@)
    } else {
        match first_word(h.names@, flat, 0) {
            Some(i) => Some("\""@ + h.names@[i].0@ + "\""@),
            None => match first_word(h.phrases@, lowercase(flat), 0) {
                Some(i) => Some("\""@ + h.phrases@[i].0@ + "\""@),
                None => match h.measured {
                    Some((n, w)) => if regex_finds(n.source(), flat) && regex_finds(w.source(), flat) {
                        Some("a measurement beside \"measured\""@)
                    } else {
                        None
                    },
                    None => None,
                },
            },
        }
    }
}

fn find_word(ws: &Vec<(String, Matcher)>, text: &str) -> (r: Option<usize>)
    ensures
        match first_word(ws@, text@, 0) {
            Some(k) => r matches Some(i) && i as int == k,
            None => r is None,
        },
        r matches Some(i) ==> i < ws.len(),
{
    let mut i: usize = 0;
    while i < ws.len()
        invariant
            i <= ws.len(),
            first_word(ws@, text@, 0) == first_word(ws@, text@, i as int),
        decreases ws.len() - i,
    {
        if ws[i].1.is_match(text) {
            return Some(i);
        }
        i = i + 1;
    }
    None
}

fn quoted(w: &str) -> (r: String)
    ensures
        r@ == "\""@ + w@ + "\""@,
{
    let mut s = copy_str("\"");
    push_str(&mut s, w);
    push_str(&mut s, "\"");
    s
}

impl History {
    /// The first thing found, in order: a date, a name, a phrase, a
    /// measurement.
    pub fn check(&self, flat: &str) -> (r: Option<String>)
        ensures
            match history_hit(*self, flat@) {
                Some(t) => r matches Some(s) && s@ == t,
                None => r is None,
            },
    {
        if let Some(d) = &self.date {
            if d.is_match(flat) {
                return Some(copy_str("a date"));
            }
        }
        if let Some(i) = find_word(&self.names, flat) {
            return Some(quoted(self.names[i].0.as_str()));
        }
        let lower = to_lower(flat);
        if let Some(i) = find_word(&self.phrases, lower.as_str()) {
            return Some(quoted(self.phrases[i].0.as_str()));
        }
        match &self.measured {
            Some((n, w)) => {
                if n.is_match(flat) && w.is_match(flat) {
                    Some(copy_str("a measurement beside \"measured\""))
                } else {
                    None
                }
            },
            None => None,
        }
    }
}

/// The first agent phrase the comment matches, as written there.
pub open spec fn agent_hit(phrases: Seq<Matcher>, flat: Seq<char>, i: int) -> Option<Seq<char>>
    decreases phrases.len() - i,
{
    if i < 0 || i >= phrases.len() {
        None
    } else {
        match regex_first(phrases[i].source(), flat) {
            Some(m) => Some(m),
            None => agent_hit(phrases, flat, i + 1),
        }
    }
}

pub fn agent_phrase(phrases: &Vec<Matcher>, flat: &str) -> (r: Option<String>)
    ensures
        match agent_hit(phrases@, flat@, 0) {
            Some(t) => r matches Some(s) && s@ == t,
            None => r is None,
        },
{
    let mut i: usize = 0;
    while i < phrases.len()
        invariant
            i <= phrases.len(),
            agent_hit(phrases@, flat@, 0) == agent_hit(phrases@, flat@, i as int),
        decreases phrases.len() - i,
    {
        match regex_find(&phrases[i], flat) {
            Some(m) => return Some(m),
            None => {},
        }
        i = i + 1;
    }
    None
}

} // verus!

verus! {

/// A pointer: `(CODE)` or `(CODE, CODE)`, with a full stop after it or not.
pub const POINTER: &'static str = r"\(([^()]{1,120})\)(\.)?";

/// The item-code check, compiled: the code pattern, the same anchored to a
/// whole text, and the pointer pattern when pointers are allowed.
pub struct ItemCodes {
    pub code: Matcher,
    pub whole: Matcher,
    pub pointer: Option<Matcher>,
}

/// A pattern anchored to the whole text.
pub open spec fn anchored(p: Seq<char>) -> Seq<char> {
    "^(?:"@ + p + ")$"@
}

impl ItemCodes {
    pub fn new(c: &config::ItemCodes) -> (r: Result<ItemCodes, String>)
        ensures
            r matches Ok(i) ==> i.code.source() == c.pattern@ && i.whole.source() == anchored(c.pattern@)
                && (i.pointer is Some <==> c.pointer) && (i.pointer matches Some(p) ==> p.source() == POINTER@),
            regex_problem(c.pattern@) matches Some(e) ==> (r matches Err(m) && m@ == e),
    {
        let code = match Matcher::new(c.pattern.as_str()) {
            Ok(m) => m,
            Err(e) => return Err(e),
        };
        let mut a = copy_str("^(?:");
        push_str(&mut a, c.pattern.as_str());
        push_str(&mut a, ")$");
        let whole = match Matcher::new(a.as_str()) {
            Ok(m) => m,
            Err(e) => return Err(e),
        };
        let pointer = if c.pointer {
            match Matcher::new(POINTER) {
                Ok(m) => Some(m),
                Err(e) => return Err(e),
            }
        } else {
            None
        };
        Ok(ItemCodes { code, whole, pointer })
    }
}

pub type CaptureView = (usize, usize, Option<Seq<char>>, bool, Seq<char>);

/// Every comma-separated part of `g`, trimmed, is a whole code.
pub open spec fn parts_ok(whole: Seq<char>, g: Seq<char>) -> bool {
    forall|k: int| 0 <= k < split(g, ',').len() ==> regex_finds(whole, trim(#[trigger] split(g, ',')[k]))
}

/// A match of the pointer pattern that holds only codes and ends a
/// sentence: a full stop after it, or nothing but white space.
pub open spec fn is_pointer(whole: Seq<char>, c: CaptureView) -> bool {
    &&& c.2 matches Some(g) && parts_ok(whole, g)
    &&& c.3 || trim(c.4).len() == 0
}

/// The byte spans of the pointers among the first `n` matches.
pub open spec fn pointer_spans(whole: Seq<char>, caps: Seq<CaptureView>, n: int) -> Seq<(usize, usize)>
    decreases n,
{
    if n <= 0 {
        Seq::empty()
    } else {
        let rest = pointer_spans(whole, caps, n - 1);
        if is_pointer(whole, caps[n - 1]) {
            rest.push((caps[n - 1].0, caps[n - 1].1))
        } else {
            rest
        }
    }
}

/// The pointers of a comment.
pub open spec fn pointers_of(i: ItemCodes, flat: Seq<char>) -> Seq<(usize, usize)> {
    match i.pointer {
        None => Seq::empty(),
        Some(p) => {
            let caps = regex_captures(p.source(), flat);
            pointer_spans(i.whole.source(), caps, caps.len() as int)
        },
    }
}

/// `at` falls inside one of the spans.
pub open spec fn inside(spans: Seq<(usize, usize)>, at: usize) -> bool {
    exists|k: int| 0 <= k < spans.len() && (#[trigger] spans[k]).0 <= at < spans[k].1
}

/// The distinct codes, in order, among the first `n` matches that fall
/// outside every pointer.
pub open spec fn codes_upto(ms: Seq<(usize, usize, Seq<char>)>, spans: Seq<(usize, usize)>, n: int) -> Seq<Seq<char>>
    decreases n,
{
    if n <= 0 {
        Seq::empty()
    } else {
        let rest = codes_upto(ms, spans, n - 1);
        if !inside(spans, ms[n - 1].0) && !rest.contains(ms[n - 1].2) {
            rest.push(ms[n - 1].2)
        } else {
            rest
        }
    }
}

/// Each distinct code a comment names outside a pointer, once, in order.
pub open spec fn codes_of(i: ItemCodes, flat: Seq<char>) -> Seq<Seq<char>> {
    let ms = regex_matches(i.code.source(), flat);
    codes_upto(ms, pointers_of(i, flat), ms.len() as int)
}

impl ItemCodes {
    fn parts_are_codes(&self, g: &str) -> (r: bool)
        ensures
            r == parts_ok(self.whole.source(), g@),
    {
        let parts = split_chars(&chars_of(g), ',');
        let mut k: usize = 0;
        while k < parts.len()
            invariant
                k <= parts.len(),
                views(parts@) == split(g@, ','),
                forall|q: int| 0 <= q < k ==> regex_finds(self.whole.source(), trim(#[trigger] split(g@, ',')[q])),
            decreases parts.len() - k,
        {
            let t = trimmed(&parts[k]);
            proof {
                assert(views(parts@)[k as int] == parts@[k as int]@);
            }
            if !self.whole.is_match(string_of(&t).as_str()) {
                return false;
            }
            k = k + 1;
        }
        true
    }

    /// Byte spans of `(CODE)` or `(CODE, CODE)` followed by a full stop or
    /// the end of the text.
    pub fn pointers(&self, flat: &str) -> (r: Vec<(usize, usize)>)
        ensures
            r@ == pointers_of(*self, flat@),
    {
        let p = match &self.pointer {
            None => return Vec::new(),
            Some(p) => p,
        };
        let caps = regex_captures_all(p, flat);
        let ghost cv = caps@.map_values(|x: (usize, usize, Option<String>, bool, String)| (x.0, x.1, match x.2 {
            Some(g) => Some(g@),
            None => None,
        }, x.3, x.4@));
        let mut out: Vec<(usize, usize)> = Vec::new();
        let mut i: usize = 0;
        while i < caps.len()
            invariant
                i <= caps.len(),
                cv == caps@.map_values(|x: (usize, usize, Option<String>, bool, String)| (x.0, x.1, match x.2 {
                    Some(g) => Some(g@),
                    None => None,
                }, x.3, x.4@)),
                out@ == pointer_spans(self.whole.source(), cv, i as int),
            decreases caps.len() - i,
        {
            let c = &caps[i];
            proof {
                assert(cv[i as int] == (c.0, c.1, match c.2 {
                    Some(g) => Some(g@),
                    None => None,
                }, c.3, c.4@));
            }
            let ok = match &c.2 {
                Some(g) => self.parts_are_codes(g.as_str()) && (c.3 || crate::text::is_blank(c.4.as_str())),
                None => false,
            };
            if ok {
                out.push((c.0, c.1));
            }
            i = i + 1;
        }
        out
    }

    /// Each distinct code outside a pointer, once.
    pub fn check(&self, flat: &str) -> (r: Vec<String>)
        ensures
            r@.map_values(|s: String| s@) == codes_of(*self, flat@),
    {
        let spans = self.pointers(flat);
        let ms = regex_find_all(&self.code, flat);
        let ghost mv = ms@.map_values(|x: (usize, usize, String)| (x.0, x.1, x.2@));
        let mut seen: Vec<String> = Vec::new();
        let mut i: usize = 0;
        while i < ms.len()
            invariant
                i <= ms.len(),
                mv == ms@.map_values(|x: (usize, usize, String)| (x.0, x.1, x.2@)),
                spans@ == pointers_of(*self, flat@),
                seen@.map_values(|s: String| s@) == codes_upto(mv, spans@, i as int),
            decreases ms.len() - i,
        {
            let (start, text) = (ms[i].0, ms[i].2.as_str());
            proof {
                assert(mv[i as int] == (ms@[i as int].0, ms@[i as int].1, ms@[i as int].2@));
            }
            let mut inner = false;
            let mut k: usize = 0;
            while k < spans.len()
                invariant
                    k <= spans.len(),
                    inner == exists|q: int| 0 <= q < k && (#[trigger] spans@[q]).0 <= start < spans@[q].1,
                decreases spans.len() - k,
            {
                if spans[k].0 <= start && start < spans[k].1 {
                    inner = true;
                }
                k = k + 1;
            }
            let ghost before = seen@.map_values(|s: String| s@);
            let mut dup = false;
            let mut q: usize = 0;
            while q < seen.len()
                invariant
                    q <= seen.len(),
                    before == seen@.map_values(|s: String| s@),
                    dup == exists|w: int| 0 <= w < q && before[w] == text@,
                decreases seen.len() - q,
            {
                proof {
                    assert(before[q as int] == seen@[q as int]@);
                }
                if same_str(seen[q].as_str(), text) {
                    dup = true;
                }
                q = q + 1;
            }
            proof {
                if before.contains(text@) {
                    let w = choose|w: int| 0 <= w < before.len() && before[w] == text@;
                    assert(dup);
                }
            }
            if !inner && !dup {
                seen.push(copy_str(text));
                proof {
                    assert(seen@.map_values(|s: String| s@) =~= before.push(text@));
                }
            }
            i = i + 1;
        }
        seen
    }
}

} // verus!
