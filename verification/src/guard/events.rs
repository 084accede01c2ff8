//! What the guard decided, one JSON line per event in the git directory, so
//! it is never committed. Here: where the log lives and how an event's
//! time is written.
use vstd::prelude::*;
use crate::replay::window::{civil, civil_exec, date_text, lemma_civil_bounded};
use crate::text::{copy_str, padded, push_char, push_padded, push_str};

verus! {

/// The log's file name in its directory.
pub const FILE: &'static str = "events.jsonl";

/// `name` under `dir`, as `Path::join` puts it: nothing between them when
/// `dir` is empty or already ends with `/`.
pub open spec fn joined(dir: Seq<char>, name: Seq<char>) -> Seq<char> {
    if dir.len() == 0 || dir.last() == '/' { dir + name } else { dir + seq!['/'] + name }
}

/// The event log of one repository: a directory in its git directory.
pub struct EventLog {
    dir: String,
}

impl EventLog {
    pub closed spec fn dir(&self) -> Seq<char> {
        self.dir@
    }

    /// The log for the repository at `root`, kept in its cache folder
    /// (`lang::cache::dir_for`: `.git` when it is a folder, `git_is_dir`,
    /// else the git dir that the `.git` file's text `git_file` names), or
    /// none outside a repository.
    pub fn open(root: &str, git_is_dir: bool, git_file: Option<&str>) -> (r: Option<EventLog>)
        ensures
            match crate::lang::cache::cache_dir(root@, git_is_dir, crate::replay::extract::str_opt(git_file)) {
                Some(d) => r matches Some(l) && l.dir() == d,
                None => r is None,
            },
    {
        match crate::lang::cache::dir_for(root, git_is_dir, git_file) {
            Some(d) => Some(EventLog { dir: d }),
            None => None,
        }
    }

    pub fn at(dir: String) -> (r: EventLog)
        ensures
            r.dir() == dir@,
    {
        EventLog { dir }
    }

    /// The file events are appended to.
    pub fn path(&self) -> (r: String)
        ensures
            r@ == joined(self.dir(), FILE@),
    {
        let mut out = copy_str(self.dir.as_str());
        let n = self.dir.unicode_len();
        if n > 0 && self.dir.get_char(n - 1) != '/' {
            push_char(&mut out, '/');
        }
        push_str(&mut out, FILE);
        out
    }
}

/// RFC 3339 in UTC with milliseconds, for `ms` milliseconds after the
/// Unix epoch.
pub open spec fn timestamp_text(ms: nat) -> Seq<char> {
    let secs = ms / 1000;
    let rest = secs % 86_400;
    date_text(civil((secs / 86_400) as int)) + seq!['T'] + padded((rest / 3600) as int, 2) + seq![':']
        + padded((rest % 3600 / 60) as int, 2) + seq![':'] + padded((rest % 60) as int, 2) + seq!['.'] + padded((ms % 1000) as int, 3)
        + seq!['Z']
}

pub fn timestamp(ms: u64) -> (r: String)
    ensures
        r@ == timestamp_text(ms as nat),
{
    let secs = ms / 1000;
    let rest = secs % 86_400;
    let days = (secs / 86_400) as i64;
    let (y, m, d) = civil_exec(days);
    proof {
        lemma_civil_bounded(days as int);
    }
    let mut out = String::new();
    push_padded(&mut out, y, 4);
    push_char(&mut out, '-');
    push_padded(&mut out, m, 2);
    push_char(&mut out, '-');
    push_padded(&mut out, d, 2);
    push_char(&mut out, 'T');
    push_padded(&mut out, (rest / 3600) as i64, 2);
    push_char(&mut out, ':');
    push_padded(&mut out, (rest % 3600 / 60) as i64, 2);
    push_char(&mut out, ':');
    push_padded(&mut out, (rest % 60) as i64, 2);
    push_char(&mut out, '.');
    push_padded(&mut out, (ms % 1000) as i64, 3);
    push_char(&mut out, 'Z');
    proof {
        assert(out@ =~= timestamp_text(ms as nat));
    }
    out
}

} // verus!
