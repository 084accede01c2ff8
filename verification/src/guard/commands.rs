//! `[[guard.commands]]`: shell commands an agent may not run, each with the
//! reason it is told. Read by the write stage's Bash hook.
use vstd::prelude::*;

use crate::config::CommandRule;
use crate::matcher::{regex_finds, regex_problem, Matcher};
use crate::text::copy_str;

verus! {

#[derive(Debug)]
pub struct Commands {
    pub rules: Vec<(Matcher, String)>,
}

/// The first rule, from the `i`th on, whose pattern matches `command`.
pub open spec fn first_denying(rules: Seq<(Matcher, String)>, command: Seq<char>, i: int) -> Option<int>
    decreases rules.len() - i,
{
    if i < 0 || i >= rules.len() {
        None
    } else if regex_finds(rules[i].0.source(), command) {
        Some(i)
    } else {
        first_denying(rules, command, i + 1)
    }
}

/// The first rule whose pattern doesn't compile, with its problem.
pub open spec fn rules_problem(rules: Seq<CommandRule>, i: int) -> Option<Seq<char>>
    decreases rules.len() - i,
{
    if i < 0 || i >= rules.len() {
        None
    } else {
        match regex_problem(rules[i].matches@) {
            Some(e) => Some(e),
            None => rules_problem(rules, i + 1),
        }
    }
}

impl Commands {
    /// The rules compiled, in order; the error is the first pattern's that
    /// doesn't compile.
    pub fn new(rules: &[CommandRule]) -> (r: Result<Commands, String>)
        ensures
            match rules_problem(rules@, 0) {
                Some(e) => r matches Err(m) && m@ == e,
                None => r matches Ok(c) && c.rules.len() == rules.len() && forall|i: int| 0 <= i < rules.len()
                    ==> (#[trigger] c.rules@[i]).0.source() == rules@[i].matches@ && c.rules@[i].1@ == rules@[i].reason@,
            },
    {
        let mut out: Vec<(Matcher, String)> = Vec::new();
        let mut i: usize = 0;
        while i < rules.len()
            invariant
                i <= rules.len(),
                rules_problem(rules@, 0) == rules_problem(rules@, i as int),
                out.len() == i,
                forall|k: int| 0 <= k < i ==> (#[trigger] out@[k]).0.source() == rules@[k].matches@ && out@[k].1@
                    == rules@[k].reason@,
            decreases rules.len() - i,
        {
            match Matcher::new(rules[i].matches.as_str()) {
                Ok(m) => out.push((m, copy_str(rules[i].reason.as_str()))),
                Err(e) => return Err(e),
            }
            i = i + 1;
        }
        Ok(Commands { rules: out })
    }

    pub fn is_empty(&self) -> (r: bool)
        ensures
            r == (self.rules.len() == 0),
    {
        self.rules.len() == 0
    }

    /// The reason the first matching rule gives, if any matches.
    pub fn denied(&self, command: &str) -> (r: Option<&str>)
        ensures
            match first_denying(self.rules@, command@, 0) {
                Some(i) => r matches Some(s) && s@ == self.rules@[i].1@,
                None => r is None,
            },
    {
        let mut i: usize = 0;
        while i < self.rules.len()
            invariant
                i <= self.rules.len(),
                first_denying(self.rules@, command@, 0) == first_denying(self.rules@, command@, i as int),
            decreases self.rules.len() - i,
        {
            if self.rules[i].0.is_match(command) {
                return Some(self.rules[i].1.as_str());
            }
            i = i + 1;
        }
        None
    }
}

} // verus!
