//! Reading GitHub's API through curl: each reply's status, head and body.
//! Running curl is the application's; reading what it printed is here.
use vstd::prelude::*;

use crate::text::{
    chars_of, chars_range, find_from, find_sub, lemma_find_sub, lines, lines_of, lower_all, lower_chars,
    occurs_at, parse_u64, parse_u64_chars, second_word, skip_white, string_of, string_range, trim,
    trim_white_end, words_of,
};

verus! {

#[derive(Debug, Clone, Default)]
pub struct Reply<T> {
    pub status: u16,
    pub body: T,
    pub message: String,
    pub retry_after: Option<u64>,
    pub remaining: Option<u64>,
}

impl<T> Reply<T> {
    pub fn new(status: u16, body: T) -> (r: Reply<T>)
        ensures
            r.status == status,
            r.body == body,
            r.message@.len() == 0,
            r.retry_after is None,
            r.remaining is None,
    {
        Reply { status, body, message: String::new(), retry_after: None, remaining: None }
    }
}

/// The API, through curl, with the token when there is one.
pub struct Curl {
    pub token: Option<String>,
    pub api: String,
}

/// A number that fits a `u16`, read as `str::parse::<u16>` reads it.
pub open spec fn parse_u16(s: Seq<char>) -> Option<int> {
    match parse_u64(s) {
        Some(v) => if v <= 65535 { Some(v) } else { None },
        None => None,
    }
}

/// The status on a reply's first line: its second word, or 0.
pub open spec fn status_in(head: Seq<char>) -> u16 {
    let ls = lines_of(head);
    if ls.len() > 0 && words_of(ls[0]).len() >= 2 && parse_u16(words_of(ls[0])[1]) is Some {
        parse_u16(words_of(ls[0])[1]).unwrap() as u16
    } else {
        0
    }
}

pub open spec fn blank_line() -> Seq<char> {
    seq!['\r', '\n', '\r', '\n']
}

/// A head and a body, cut at the first blank line, or all head.
pub open spec fn cut(rest: Seq<char>) -> (Seq<char>, Seq<char>) {
    match find_sub(rest, blank_line()) {
        Some(i) => (rest.take(i), rest.skip(i + 4)),
        None => (rest, Seq::empty()),
    }
}

/// A reply that another follows: informational, or a proxy's
/// `Connection Established`.
pub open spec fn interim(status: u16, head: Seq<char>) -> bool {
    (100 <= status < 200) || (status == 200 && lines_of(head).len() > 0
        && find_sub(lower_all(lines_of(head)[0]), "connection established"@) is Some)
}

/// What curl printed, as status, head and body of the final reply.
pub open spec fn response(rest: Seq<char>) -> (u16, Seq<char>, Seq<char>)
    decreases rest.len(),
{
    let (head, body) = cut(rest);
    let status = status_in(head);
    proof {
        lemma_find_sub(rest, blank_line());
    }
    if interim(status, head) && "HTTP/"@.is_prefix_of(body) && body.len() < rest.len() {
        response(body)
    } else {
        (status, head, body)
    }
}

fn parse_u16_chars(w: &Vec<char>) -> (r: Option<u16>)
    ensures
        match parse_u16(w@) {
            Some(x) => r == Some(x as u16),
            None => r is None,
        },
{
    match parse_u64_chars(w) {
        Some(v) => {
            proof {
                let body = if w@.len() > 0 && w@[0] == '+' { w@.drop_first() } else { w@ };
                crate::text::lemma_digits_value_nonneg(body);
            }
            if v <= 65535 {
                Some(v as u16)
            } else {
                None
            }
        },
        None => None,
    }
}

/// The status on a reply's first line, or 0.
pub fn status_of(head: &str) -> (r: u16)
    ensures
        r == status_in(head@),
{
    let ls = lines(head);
    if ls.len() == 0 {
        return 0;
    }
    let first = chars_of(ls[0].as_str());
    proof {
        assert(ls@.map_values(|x: String| x@)[0] == ls@[0]@);
    }
    match second_word(&first) {
        Some(w) => match parse_u16_chars(&w) {
            Some(v) => v,
            None => 0,
        },
        None => 0,
    }
}

fn is_interim(status: u16, head: &str) -> (r: bool)
    ensures
        r == interim(status, head@),
{
    if 100 <= status && status < 200 {
        return true;
    }
    if status != 200 {
        return false;
    }
    let ls = lines(head);
    if ls.len() == 0 {
        return false;
    }
    proof {
        assert(ls@.map_values(|x: String| x@)[0] == ls@[0]@);
    }
    let low = lower_chars(&chars_of(ls[0].as_str()));
    let want = chars_of("connection established");
    proof {
        assert(low@.skip(0) =~= low@);
    }
    find_from(&low, &want, 0).is_some()
}

/// The final reply in what curl printed: its status, head and body, past
/// any informational reply and a proxy's `Connection Established`.
pub fn split_response(text: &str) -> (r: (u16, String, String))
    ensures
        (r.0, r.1@, r.2@) == response(text@),
{
    let sep = chars_of("\r\n\r\n");
    let mut rest = chars_of(text);
    proof {
        reveal_strlit("\r\n\r\n");
        assert(sep@ =~= blank_line());
    }
    loop
        invariant
            sep@ == blank_line(),
            response(rest@) == response(text@),
        decreases rest@.len(),
    {
        proof {
            assert(rest@.skip(0) =~= rest@);
            lemma_find_sub(rest@, blank_line());
        }
        let (head, body) = match find_from(&rest, &sep, 0) {
            Some(i) => (chars_range(&rest, 0, i), chars_range(&rest, i + 4, rest.len())),
            None => (chars_range(&rest, 0, rest.len()), Vec::new()),
        };
        proof {
            assert(head@ == cut(rest@).0);
            assert(body@ == cut(rest@).1);
        }
        let head_text = string_of(&head);
        let status = status_of(head_text.as_str());
        let more = is_interim(status, head_text.as_str()) && crate::text::starts_with_lit(&body, "HTTP/")
            && body.len() < rest.len();
        if more {
            rest = body;
        } else {
            let body_text = string_of(&body);
            return (status, head_text, body_text);
        }
    }
}

/// Whether two texts are equal but for ASCII case.
pub open spec fn same_ignoring_case(a: Seq<char>, b: Seq<char>) -> bool {
    lower_all(a) == lower_all(b)
}

/// The value of the first header line named `name`, any case.
pub open spec fn header_in(ls: Seq<Seq<char>>, name: Seq<char>) -> Option<Seq<char>>
    decreases ls.len(),
{
    if ls.len() == 0 {
        None
    } else {
        let l = ls[0];
        match crate::text::first_index(l, ':') {
            Some(c) if same_ignoring_case(trim(l.take(c)), name) => Some(trim(l.skip(c + 1))),
            _ => header_in(ls.drop_first(), name),
        }
    }
}

fn trimmed(v: &Vec<char>, from: usize, to: usize) -> (r: String)
    requires
        from <= to <= v.len(),
    ensures
        r@ == trim(v@.subrange(from as int, to as int)),
{
    let part = chars_range(v, from, to);
    let a = skip_white(&part, 0);
    let b = trim_white_end(&part, part.len());
    proof {
        assert(part@.skip(0) =~= part@);
        crate::text::lemma_lead_white(part@);
        crate::text::lemma_trail_white(part@);
        crate::text::lemma_trail_white(part@.skip(a as int));
        crate::text::lemma_lead_white(part@.skip(a as int));
    }
    if a >= b {
        proof {
            let s = part@.skip(a as int);
            assert(crate::text::trim_start(part@) =~= s);
            if s.len() > 0 {
                // everything left is white space
                assert forall|i: int| 0 <= i < s.len() implies crate::text::is_white(#[trigger] s[i]) by {
                    assert(s[i] == part@[a + i]);
                    assert(part@.take(part@.len() as int)[a + i] == part@[a + i]);
                    assert(part@.take(part@.len() as int) =~= part@);
                }
                lemma_all_white_trail(s);
            }
            assert(trim(part@).len() == 0);
        }
        return String::new();
    }
    proof {
        assert(part@.take(part@.len() as int) =~= part@);
        let s = part@.skip(a as int);
        assert(crate::text::trim_start(part@) =~= s);
        lemma_trail_same(part@, a as int);
        assert(trim(part@) =~= part@.subrange(a as int, b as int));
    }
    string_range(&part, a, b)
}

proof fn lemma_all_white_trail(s: Seq<char>)
    requires
        forall|i: int| 0 <= i < s.len() ==> crate::text::is_white(#[trigger] s[i]),
    ensures
        crate::text::trail_white(s) == s.len(),
    decreases s.len(),
{
    if s.len() > 0 {
        assert(crate::text::is_white(s.last()));
        lemma_all_white_trail(s.drop_last());
    }
}

/// Trailing white space is the same seen from any start before it.
proof fn lemma_trail_same(s: Seq<char>, a: int)
    requires
        0 <= a <= s.len(),
        a < s.len() - crate::text::trail_white(s),
    ensures
        crate::text::trail_white(s.skip(a)) == crate::text::trail_white(s),
    decreases s.len(),
{
    crate::text::lemma_trail_white(s);
    if s.len() > 0 && crate::text::is_white(s.last()) {
        assert(s.skip(a).drop_last() =~= s.drop_last().skip(a));
        assert(s.skip(a).last() == s.last());
        crate::text::lemma_trail_white(s.drop_last());
        lemma_trail_same(s.drop_last(), a);
    } else if s.len() > a {
        assert(s.skip(a).last() == s.last());
    }
}

/// The value of the first header line named `name`, any case, trimmed.
pub fn header(head: &str, name: &str) -> (r: Option<String>)
    ensures
        match header_in(lines_of(head@), name@) {
            Some(v) => r matches Some(x) && x@ == v,
            None => r is None,
        },
{
    let ls = lines(head);
    let want = lower_chars(&chars_of(name));
    let ghost all = lines_of(head@);
    let mut i: usize = 0;
    proof {
        assert(all.skip(0) =~= all);
    }
    while i < ls.len()
        invariant
            i <= ls.len(),
            ls@.map_values(|x: String| x@) == all,
            all == lines_of(head@),
            want@ == lower_all(name@),
            header_in(all, name@) == header_in(all.skip(i as int), name@),
        decreases ls.len() - i,
    {
        let l = chars_of(ls[i].as_str());
        proof {
            assert(all[i as int] == ls@[i as int]@);
            assert(all.skip(i as int)[0] == l@);
            assert(all.skip(i as int).drop_first() =~= all.skip(i as int + 1));
        }
        match crate::text::find_char(&l, ':') {
            Some(c) => {
                proof {
                    crate::text::lemma_first_index(l@, ':');
                }
                let key = trimmed(&l, 0, c);
                let low = lower_chars(&chars_of(key.as_str()));
                proof {
                    assert(l@.subrange(0, c as int) =~= l@.take(c as int));
                    assert(l@.subrange(c as int + 1, l.len() as int) =~= l@.skip(c as int + 1));
                }
                let want_text = string_of(&want);
                if crate::text::eq_lit(&low, want_text.as_str()) {
                    let value = trimmed(&l, c + 1, l.len());
                    proof {
                        assert(low@ == lower_all(key@));
                        assert(key@ == trim(l@.take(c as int)));
                        assert(same_ignoring_case(trim(l@.take(c as int)), name@));
                        let rest = all.skip(i as int);
                        assert(rest[0] == l@);
                        assert(crate::text::first_index(rest[0], ':') == Some(c as int));
                        assert(header_in(rest, name@) == Some(trim(l@.skip(c as int + 1))));
                        assert(l@.subrange(c as int + 1, l@.len() as int) =~= l@.skip(c as int + 1));
                        assert(value@ == trim(l@.skip(c as int + 1)));
                        assert(header_in(lines_of(head@), name@) == Some(value@));
                    }
                    return Some(value);
                }
            },
            None => {},
        }
        i = i + 1;
    }
    None
}

/// Where a redirect points.
pub fn location(head: &str) -> (r: Option<String>)
    ensures
        match header_in(lines_of(head@), "location"@) {
            Some(v) => r matches Some(x) && x@ == v,
            None => r is None,
        },
{
    header(head, "location")
}

} // verus!
