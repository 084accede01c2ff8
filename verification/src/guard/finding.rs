//! One thing a rule found in one file, and the reading order of findings.
use vstd::prelude::*;

use crate::sorting::{lemma_insert_by_at, sort_by};
use crate::text::{compare_str, decimal, push_decimal, push_str, seq_order};

verus! {

/// How big the thing is, and the limit it went over.
#[derive(Debug, Clone, Copy, PartialEq, Eq)]
pub struct Measure {
    pub size: u64,
    pub limit: u64,
}

/// One thing a rule found in one file.
#[derive(Debug, Clone, PartialEq, Eq)]
pub struct Finding {
    pub file: String,
    pub line: u32,
    pub rule: String,
    /// What is wrong, never where: the line is its own field, so the same
    /// finding on a moved line compares equal.
    pub message: String,
    /// What the finding is about, stable across edits elsewhere in the
    /// file: a comment's text, a function's name, or empty for the file.
    pub anchor: String,
    /// Set for rules that measure something against a limit.
    pub measure: Option<Measure>,
}

/// `file:line rule: message`.
pub open spec fn finding_text(f: Finding) -> Seq<char> {
    f.file@ + seq![':'] + decimal(f.line as nat) + seq![' '] + f.rule@ + seq![':', ' '] + f.message@
}

/// Reading order: by file, then line, then rule.
pub open spec fn reading_le(a: Finding, b: Finding) -> bool {
    ||| seq_order(a.file@, b.file@) < 0
    ||| seq_order(a.file@, b.file@) == 0 && a.line < b.line
    ||| seq_order(a.file@, b.file@) == 0 && a.line == b.line && seq_order(a.rule@, b.rule@) <= 0
}

impl Finding {
    /// A field-for-field copy.
    pub fn duplicate(&self) -> (r: Finding)
        ensures
            r == *self,
    {
        Finding {
            file: self.file.clone(),
            line: self.line,
            rule: self.rule.clone(),
            message: self.message.clone(),
            anchor: self.anchor.clone(),
            measure: self.measure,
        }
    }

    /// The finding as one line: `file:line rule: message`.
    pub fn to_string(&self) -> (s: String)
        ensures
            s@ == finding_text(*self),
    {
        let mut s = String::new();
        push_str(&mut s, self.file.as_str());
        push_str(&mut s, ":");
        push_decimal(&mut s, self.line as u64);
        push_str(&mut s, " ");
        push_str(&mut s, self.rule.as_str());
        push_str(&mut s, ": ");
        push_str(&mut s, self.message.as_str());
        proof {
            reveal_strlit(":");
            reveal_strlit(" ");
            reveal_strlit(": ");
            assert(s@ =~= finding_text(*self));
        }
        s
    }
}

/// Reading order, as a relation to sort by.
pub open spec fn reading_order() -> spec_fn(Finding, Finding) -> bool {
    |a: Finding, b: Finding| reading_le(a, b)
}

/// Whether `a` comes at or before `b` in reading order.
pub fn reads_before(a: &Finding, b: &Finding) -> (r: bool)
    ensures
        r == reading_le(*a, *b),
{
    let files = compare_str(a.file.as_str(), b.file.as_str());
    if files != 0 {
        return files < 0;
    }
    if a.line != b.line {
        return a.line < b.line;
    }
    compare_str(a.rule.as_str(), b.rule.as_str()) <= 0
}

/// Findings in reading order: by file, then line, then rule; findings that
/// tie keep the order they came in.
pub fn sort(findings: &mut Vec<Finding>)
    ensures
        final(findings)@ == sort_by(old(findings)@, reading_order()),
{
    let ghost le = reading_order();
    let mut out: Vec<Finding> = Vec::new();
    let mut i: usize = 0;
    while i < findings.len()
        invariant
            i <= findings.len(),
            findings@ == old(findings)@,
            le == reading_order(),
            out@ == sort_by(findings@.take(i as int), le),
        decreases findings.len() - i,
    {
        let x = findings[i].duplicate();
        let mut j: usize = out.len();
        while j > 0 && !reads_before(&out[j - 1], &x)
            invariant
                j <= out.len(),
                forall|k: int| j <= k < out.len() ==> !reading_le(#[trigger] out@[k], x),
            decreases j,
        {
            j = j - 1;
        }
        proof {
            assert forall|k: int| j <= k < out.len() implies !le(#[trigger] out@[k], x) by {
                assert(!reading_le(out@[k], x));
            }
            if j > 0 {
                assert(reading_le(out@[j - 1], x));
            }
            lemma_insert_by_at(out@, x, le, j as int);
            assert(findings@.take(i as int + 1).drop_last() =~= findings@.take(i as int));
        }
        out.insert(j, x);
        i = i + 1;
    }
    proof {
        assert(findings@.take(i as int) =~= findings@);
    }
    *findings = out;
}


/// Reading order orders any two findings and chains.
/// Law: `sort` is stable: findings with the same file, line and rule keep
/// the order they came in.
pub proof fn lemma_sort_stable(v: Seq<Finding>, y: Finding)
    ensures
        crate::sorting::ties(sort_by(v, reading_order()), reading_order(), y)
            == crate::sorting::ties(v, reading_order(), y),
{
    lemma_reading_order_total();
    crate::sorting::lemma_sort_by_stable(v, reading_order(), y);
}

pub proof fn lemma_reading_order_total()
    ensures
        crate::sorting::total_order(reading_order()),
{
    let le = reading_order();
    assert forall|a: Finding, b: Finding| #[trigger] le(a, b) || le(b, a) by {
        crate::text::lemma_seq_order_basics(a.file@, b.file@);
        crate::text::lemma_seq_order_basics(a.rule@, b.rule@);
    }
    assert forall|a: Finding, b: Finding, c: Finding| #[trigger] le(a, b) && #[trigger] le(b, c) implies le(a, c) by {
        crate::text::lemma_seq_order_basics(a.file@, b.file@);
        crate::text::lemma_seq_order_basics(b.file@, c.file@);
        crate::text::lemma_seq_order_basics(a.file@, c.file@);
        crate::text::lemma_seq_order_basics(a.rule@, b.rule@);
        crate::text::lemma_seq_order_basics(b.rule@, c.rule@);
        crate::text::lemma_seq_order_basics(a.rule@, c.rule@);
        if seq_order(a.file@, b.file@) < 0 && seq_order(b.file@, c.file@) < 0 {
            crate::text::lemma_seq_order_trans(a.file@, b.file@, c.file@);
        }
        if seq_order(a.rule@, b.rule@) < 0 && seq_order(b.rule@, c.rule@) < 0 {
            crate::text::lemma_seq_order_trans(a.rule@, b.rule@, c.rule@);
        }
    }
}

} // verus!
