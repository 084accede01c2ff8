//! What git reports about a working tree: tracked paths and changes, read
//! from the NUL-separated output of `git ls-files -z` and `git diff
//! --name-status -z`. Running git is the application's.
use vstd::prelude::*;

verus! {

/// A staged file, and the path it had at HEAD when it had one.
#[derive(Debug, Clone, PartialEq, Eq)]
pub struct Staged {
    pub before: Option<String>,
    pub path: String,
}

/// One line of `git diff --name-status`: the status letter, the old path
/// of a rename or copy, and the path.
#[derive(Debug, Clone, PartialEq, Eq)]
pub struct Change {
    pub status: char,
    pub before: Option<String>,
    pub path: String,
}

/// What a diff is against: the index, or a revision.
#[derive(Debug, Clone, Copy)]
pub enum Against<'a> {
    Index,
    Rev(&'a str),
}

/// After the first `n` bytes: the fields ended so far, and the one being
/// read. A NUL ends a field; an empty one is skipped.
pub open spec fn fields_upto(bytes: Seq<u8>, n: int) -> (Seq<Seq<u8>>, Seq<u8>)
    decreases n,
{
    if n <= 0 {
        (Seq::empty(), Seq::empty())
    } else {
        let (done, cur) = fields_upto(bytes, n - 1);
        if bytes[n - 1] == 0 {
            (if cur.len() > 0 { done.push(cur) } else { done }, Seq::empty())
        } else {
            (done, cur.push(bytes[n - 1]))
        }
    }
}

/// The non-empty NUL-separated fields of `bytes`, in order.
pub open spec fn nul_segments(bytes: Seq<u8>) -> Seq<Seq<u8>> {
    let (done, cur) = fields_upto(bytes, bytes.len() as int);
    if cur.len() > 0 { done.push(cur) } else { done }
}

/// The non-empty NUL-separated fields of git's `-z` output, each read as
/// text with invalid UTF-8 replaced.
pub fn nul_fields(bytes: &[u8]) -> (r: Vec<String>)
    ensures
        crate::strset::views_of(r@) == nul_segments(bytes@).map_values(|b: Seq<u8>| crate::lang::extract::lossy_text(b)),
{
    let ghost f = |b: Seq<u8>| crate::lang::extract::lossy_text(b);
    let mut out: Vec<String> = Vec::new();
    let mut cur: Vec<u8> = Vec::new();
    let mut i: usize = 0;
    while i < bytes.len()
        invariant
            i <= bytes.len(),
            f == (|b: Seq<u8>| crate::lang::extract::lossy_text(b)),
            crate::strset::views_of(out@) == fields_upto(bytes@, i as int).0.map_values(f),
            cur@ == fields_upto(bytes@, i as int).1,
        decreases bytes.len() - i,
    {
        let ghost before = out@;
        let ghost prev = fields_upto(bytes@, i as int);
        proof {
            assert(fields_upto(bytes@, i as int + 1) == if bytes@[i as int] == 0 {
                (if prev.1.len() > 0 { prev.0.push(prev.1) } else { prev.0 }, Seq::<u8>::empty())
            } else {
                (prev.0, prev.1.push(bytes@[i as int]))
            });
        }
        if bytes[i] == 0 {
            if cur.len() > 0 {
                let text = crate::lang::extract::utf8_lossy(cur.as_slice());
                out.push(text);
                proof {
                    assert(crate::strset::views_of(out@) =~= crate::strset::views_of(before).push(text@));
                    assert(prev.0.push(cur@).map_values(f) =~= prev.0.map_values(f).push(f(cur@)));
                }
            }
            cur = Vec::new();
        } else {
            cur.push(bytes[i]);
        }
        i = i + 1;
    }
    if cur.len() > 0 {
        let ghost before = out@;
        let text = crate::lang::extract::utf8_lossy(cur.as_slice());
        out.push(text);
        proof {
            assert(crate::strset::views_of(out@) =~= crate::strset::views_of(before).push(text@));
            assert(fields_upto(bytes@, i as int).0.push(cur@).map_values(f)
                =~= fields_upto(bytes@, i as int).0.map_values(f).push(f(cur@)));
        }
    }
    out
}

/// A rename or a copy, which names two paths.
pub open spec fn pairs(status: char) -> bool {
    status == 'R' || status == 'C'
}

/// The status letter of a field: its first character, or `?`.
pub open spec fn status_letter(field: Seq<char>) -> char {
    if field.len() > 0 { field[0] } else { '?' }
}

/// The changes the fields from the `i`th on describe: a status, then one
/// path, or two for a rename or copy; a record cut short names nothing.
pub open spec fn changes_from(fields: Seq<String>, i: int) -> Seq<(char, Option<Seq<char>>, Seq<char>)>
    decreases fields.len() + 3 - i,
{
    if i < 0 || i >= fields.len() {
        Seq::empty()
    } else {
        let status = status_letter(fields[i]@);
        if pairs(status) {
            let here: Seq<(char, Option<Seq<char>>, Seq<char>)> = if i + 2 < fields.len() {
                seq![(status, Some(fields[i + 1]@), fields[i + 2]@)]
            } else {
                Seq::empty()
            };
            here + changes_from(fields, i + 3)
        } else {
            let here: Seq<(char, Option<Seq<char>>, Seq<char>)> = if i + 1 < fields.len() {
                seq![(status, None, fields[i + 1]@)]
            } else {
                Seq::empty()
            };
            here + changes_from(fields, i + 2)
        }
    }
}

pub open spec fn change_view(c: Change) -> (char, Option<Seq<char>>, Seq<char>) {
    (c.status, match c.before { Some(b) => Some(b@), None => None }, c.path@)
}

/// The changes in the fields of `git diff --name-status -z`.
pub fn parse_changes(fields: &[String]) -> (r: Vec<Change>)
    ensures
        r@.map_values(|c: Change| change_view(c)) == changes_from(fields@, 0),
{
    let mut out: Vec<Change> = Vec::new();
    let mut i: usize = 0;
    proof {
        assert(out@.map_values(|c: Change| change_view(c)) + changes_from(fields@, 0) =~= changes_from(fields@, 0));
    }
    while i < fields.len()
        invariant
            out@.map_values(|c: Change| change_view(c)) + changes_from(fields@, i as int) == changes_from(fields@, 0),
        decreases fields.len() - i,
    {
        let f = fields[i].as_str();
        let status = if f.unicode_len() > 0 { f.get_char(0) } else { '?' };
        let pair = status == 'R' || status == 'C';
        let ghost before = out@.map_values(|c: Change| change_view(c));
        if pair {
            if fields.len() - i > 2 {
                out.push(Change { status, before: Some(fields[i + 1].clone()), path: fields[i + 2].clone() });
            }
            proof {
                assert(out@.map_values(|c: Change| change_view(c)) + changes_from(fields@, i + 3) =~= changes_from(fields@, 0));
            }
            if fields.len() - i <= 3 {
                return out;
            }
            i = i + 3;
        } else {
            if fields.len() - i > 1 {
                out.push(Change { status, before: None, path: fields[i + 1].clone() });
            }
            proof {
                assert(out@.map_values(|c: Change| change_view(c)) + changes_from(fields@, i + 2) =~= changes_from(fields@, 0));
            }
            if fields.len() - i <= 2 {
                return out;
            }
            i = i + 2;
        }
    }
    proof {
        assert(out@.map_values(|c: Change| change_view(c)) + changes_from(fields@, i as int) =~= out@.map_values(|c: Change| change_view(c)));
    }
    out
}

/// What a change stages: additions, copies, edits and renames, with the
/// path at HEAD for an edit or a rename when there is a HEAD.
pub open spec fn staged_view(c: Change, has_head: bool) -> (Option<Seq<char>>, Seq<char>) {
    let before = if c.status == 'R' && has_head {
        match c.before { Some(b) => Some(b@), None => None }
    } else if c.status == 'M' && has_head {
        Some(c.path@)
    } else {
        None
    };
    (before, c.path@)
}

pub open spec fn stages(status: char) -> bool {
    status == 'A' || status == 'C' || status == 'M' || status == 'R'
}

pub open spec fn staged_from(cs: Seq<Change>, has_head: bool) -> Seq<(Option<Seq<char>>, Seq<char>)>
    decreases cs.len(),
{
    if cs.len() == 0 {
        Seq::empty()
    } else {
        let rest = staged_from(cs.drop_last(), has_head);
        if stages(cs.last().status) { rest.push(staged_view(cs.last(), has_head)) } else { rest }
    }
}

/// The staged files among `changes` against the index.
pub fn staged_of(changes: &[Change], has_head: bool) -> (r: Vec<Staged>)
    ensures
        r@.map_values(|s: Staged| (match s.before { Some(b) => Some(b@), None => None }, s.path@))
            == staged_from(changes@, has_head),
{
    let mut out: Vec<Staged> = Vec::new();
    let mut i: usize = 0;
    while i < changes.len()
        invariant
            i <= changes.len(),
            out@.map_values(|s: Staged| (match s.before { Some(b) => Some(b@), None => None }, s.path@))
                == staged_from(changes@.take(i as int), has_head),
        decreases changes.len() - i,
    {
        let c = &changes[i];
        let ghost before = out@;
        proof {
            assert(changes@.take(i as int + 1).drop_last() =~= changes@.take(i as int));
        }
        if c.status == 'A' || c.status == 'C' || c.status == 'M' || c.status == 'R' {
            let b = if c.status == 'R' && has_head {
                c.before.clone()
            } else if c.status == 'M' && has_head {
                Some(c.path.clone())
            } else {
                None
            };
            out.push(Staged { before: b, path: c.path.clone() });
            proof {
                assert(out@.map_values(|s: Staged| (match s.before { Some(b) => Some(b@), None => None }, s.path@))
                    =~= before.map_values(|s: Staged| (match s.before { Some(b) => Some(b@), None => None }, s.path@))
                        .push(staged_view(*c, has_head)));
            }
        }
        i = i + 1;
    }
    proof {
        assert(changes@.take(i as int) =~= changes@);
    }
    out
}

} // verus!
