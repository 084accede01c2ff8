//! The rules that read more than one file: migrations, which read the tree
//! and its history, and external commands. Running git and the commands is
//! the application's; what each stage asks of them, and keeps, is here.
use vstd::prelude::*;

use crate::guard::finding::Finding;
use crate::text::{copy_str, same_str};

verus! {

/// What the check stage adds to the presets' findings, and a note for a
/// rule it couldn't run.
pub struct TreeRules {
    pub findings: Vec<Finding>,
    pub notes: Vec<String>,
}

/// How the check stage reads migration history.
#[derive(Debug, PartialEq, Eq)]
pub enum History {
    /// Against the merge base with this revision.
    Against(String),
    /// Not at all, with a note why.
    Note(String),
    /// Not needed: migrations may change.
    Skip,
}

pub open spec fn no_base_note() -> Seq<char> {
    "migrations: without --base or guard.migrations.base, edits to existing migrations aren't checked here"@
}

/// Immutable migrations are checked against the flag's revision, else the
/// configured base; without either, a note says they weren't.
pub fn history(flag: Option<&str>, base: Option<&str>, immutable: bool) -> (r: History)
    ensures
        !immutable ==> r == History::Skip,
        (immutable && flag is Some) ==> (r matches History::Against(rev) && rev@ == flag->0@),
        (immutable && flag is None && base is Some) ==> (r matches History::Against(rev) && rev@ == base->0@),
        (immutable && flag is None && base is None) ==> (r matches History::Note(n) && n@ == no_base_note()),
{
    if !immutable {
        return History::Skip;
    }
    match flag {
        Some(f) => History::Against(copy_str(f)),
        None => match base {
            Some(b) => History::Against(copy_str(b)),
            None => History::Note(
                copy_str(
                    "migrations: without --base or guard.migrations.base, edits to existing migrations aren't checked here",
                ),
            ),
        },
    }
}

/// The revision the commit stage reads existing migrations at, and its
/// label: the merge base with the configured base when there is one (given
/// as `merged`, what git found), else `HEAD`, as before the first commit or
/// with the base not fetched.
pub fn commit_base(base: Option<&str>, merged: Option<&str>) -> (r: (String, String))
    ensures
        (base is Some && merged is Some) ==> r.0@ == merged->0@ && r.1@ == base->0@,
        !(base is Some && merged is Some) ==> r.0@ == "HEAD"@ && r.1@ == "HEAD"@,
{
    match (base, merged) {
        (Some(b), Some(m)) => (copy_str(m), copy_str(b)),
        _ => (copy_str("HEAD"), copy_str("HEAD")),
    }
}

/// One of the staged paths.
pub open spec fn is_staged(staged: Seq<String>, file: Seq<char>) -> bool {
    exists|i: int| 0 <= i < staged.len() && (#[trigger] staged[i])@ == file
}

/// The findings of an external rule at commit that fall in staged files,
/// in order: every finding in them counts, none elsewhere.
pub fn in_staged(found: Vec<Finding>, staged: &[String]) -> (r: Vec<Finding>)
    ensures
        r@ == found@.filter(|f: Finding| is_staged(staged@, f.file@)),
{
    let ghost keep = |f: Finding| is_staged(staged@, f.file@);
    let ghost all = found@;
    let n = found.len();
    let mut rest = found;
    let mut out: Vec<Finding> = Vec::new();
    let mut i: usize = 0;
    while rest.len() > 0
        invariant
            keep == (|f: Finding| is_staged(staged@, f.file@)),
            all.len() == n,
            i + rest.len() == all.len(),
            rest@ == all.skip(i as int),
            out@ == all.take(i as int).filter(keep),
        decreases rest.len(),
    {
        let f = rest.remove(0);
        proof {
            assert(all[i as int] == f);
            reveal(Seq::filter);
            assert(all.take(i as int + 1).drop_last() =~= all.take(i as int));
        }
        let mut hit = false;
        let mut k: usize = 0;
        while k < staged.len()
            invariant
                k <= staged.len(),
                hit == exists|q: int| 0 <= q < k && (#[trigger] staged@[q])@ == f.file@,
            decreases staged.len() - k,
        {
            if same_str(staged[k].as_str(), f.file.as_str()) {
                hit = true;
            }
            k = k + 1;
        }
        if hit {
            out.push(f);
        }
        proof {
            assert(all.take(i as int + 1).filter(keep) == if keep(all[i as int]) {
                all.take(i as int).filter(keep).push(all[i as int])
            } else {
                all.take(i as int).filter(keep)
            });
        }
        i = i + 1;
        proof {
            assert(rest@ =~= all.skip(i as int));
        }
    }
    proof {
        assert(all.take(i as int) =~= all);
    }
    out
}

} // verus!
