//! How long a comment block may be, and the lines of a multi-line block
//! that lack their `*`.
use vstd::prelude::*;
use super::lines::{has_close, holds_close, starts2, Block};
use crate::strset::views_of;
use crate::text::{chars_of, trim, trimmed};

verus! {

/// Block limits by context; a context without one falls through.
pub struct Limits {
    pub source: u32,
    pub test: Option<u32>,
    pub header: Option<u32>,
    pub inline: Option<u32>,
    pub migration: Option<u32>,
}

/// The limit for a block and the name of the context it came from: the
/// first context that applies and has a limit, in the order migration,
/// inline (indented after code), file header (the first line), test;
/// else the source limit.
pub open spec fn limit_spec(b: Block, l: Limits, test: bool, migration: bool) -> (u32, Seq<char>) {
    if migration && l.migration is Some {
        (l.migration->0, "migration"@)
    } else if b.after_code && b.indented && l.inline is Some {
        (l.inline->0, "inline"@)
    } else if b.start == 1 && l.header is Some {
        (l.header->0, "file header"@)
    } else if test && l.test is Some {
        (l.test->0, "test"@)
    } else {
        (l.source, "source"@)
    }
}

pub fn block_limit(b: &Block, l: &Limits, test: bool, migration: bool) -> (r: (u32, &'static str))
    ensures
        (r.0, r.1@) == limit_spec(*b, *l, test, migration),
{
    let inline = b.after_code && b.indented;
    if migration && l.migration.is_some() {
        (l.migration.unwrap(), "migration")
    } else if inline && l.inline.is_some() {
        (l.inline.unwrap(), "inline")
    } else if b.start == 1 && l.header.is_some() {
        (l.header.unwrap(), "file header")
    } else if test && l.test.is_some() {
        (l.test.unwrap(), "test")
    } else {
        (l.source, "source")
    }
}

/// The 1-based lines inside a multi-line `/* */` that don't start with
/// `*`, and whether such a block is open after the last line.
pub open spec fn unmarked_spec(lines: Seq<Seq<char>>) -> (Seq<int>, bool)
    decreases lines.len(),
{
    if lines.len() == 0 {
        (Seq::empty(), false)
    } else {
        let (out, open) = unmarked_spec(lines.drop_last());
        let t = trim(lines.last());
        if !open {
            (out, starts2(t, '/', '*') && !has_close(t.skip(2)))
        } else if t.len() > 0 && t[0] == '*' {
            (out, !has_close(t))
        } else {
            (out.push(lines.len() as int), !has_close(t))
        }
    }
}

pub fn unmarked_lines(lines: &[String]) -> (r: Vec<u32>)
    requires
        lines.len() <= u32::MAX,
    ensures
        r@.map_values(|x: u32| x as int) == unmarked_spec(views_of(lines@)).0,
{
    let mut out: Vec<u32> = Vec::new();
    let mut in_block = false;
    let mut i: usize = 0;
    while i < lines.len()
        invariant
            i <= lines.len() <= u32::MAX,
            (out@.map_values(|x: u32| x as int), in_block) == unmarked_spec(views_of(lines@).take(i as int)),
        decreases lines.len() - i,
    {
        let v = chars_of(lines[i].as_str());
        let t = trimmed(&v);
        let ghost before = out@;
        proof {
            assert(views_of(lines@).take(i as int + 1).drop_last() =~= views_of(lines@).take(i as int));
            assert(views_of(lines@).take(i as int + 1).last() == lines@[i as int]@);
            assert(t@.skip(0) =~= t@);
        }
        if !in_block {
            in_block = t.len() >= 2 && t[0] == '/' && t[1] == '*' && !holds_close(&t, 2);
        } else {
            if !(t.len() > 0 && t[0] == '*') {
                out.push((i + 1) as u32);
                proof {
                    assert(out@.map_values(|x: u32| x as int) =~= before.map_values(|x: u32| x as int).push(i + 1));
                }
            }
            in_block = !holds_close(&t, 0);
        }
        i = i + 1;
    }
    proof {
        assert(views_of(lines@).take(i as int) =~= views_of(lines@));
    }
    out
}

} // verus!
