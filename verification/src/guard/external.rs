//! `[[guard.external]]`: another tool's findings, read from its output as
//! `file:line message` or `file:line:column message`, one per line.
//! Running the tool is the caller's; reading what it printed is here.
use vstd::prelude::*;
use crate::config::{ExternalRule, Stage};
use crate::guard::finding::Finding;
use crate::text::{
    chars_of, chars_range, digits_value, is_white, is_white_char, lines, lines_of, string_of,
    trail_white, trim_end, trim_white_end,
};

verus! {

/// An external rule: its id, its command and the stages it runs at.
pub struct External {
    pub id: String,
    pub command: Vec<String>,
    pub stages: Vec<Stage>,
    pub ratchet: bool,
}

impl External {
    pub fn new(c: &ExternalRule) -> (r: External)
        ensures
            r.id@ == c.id@,
            r.command@.map_values(|a: String| a@) == c.command@.map_values(|a: String| a@),
            r.stages@ == c.stages@,
            r.ratchet == c.ratchet,
    {
        let mut command: Vec<String> = Vec::new();
        let mut i: usize = 0;
        while i < c.command.len()
            invariant
                i <= c.command.len(),
                command.len() == i,
                forall|j: int| 0 <= j < i ==> command@[j]@ == c.command@[j]@,
            decreases c.command.len() - i,
        {
            command.push(crate::text::copy_str(c.command[i].as_str()));
            i = i + 1;
        }
        let mut stages: Vec<Stage> = Vec::new();
        let mut k: usize = 0;
        while k < c.stages.len()
            invariant
                k <= c.stages.len(),
                stages@ == c.stages@.take(k as int),
            decreases c.stages.len() - k,
        {
            stages.push(c.stages[k]);
            proof {
                assert(c.stages@.take(k as int + 1) =~= c.stages@.take(k as int).push(c.stages@[k as int]));
            }
            k = k + 1;
        }
        proof {
            assert(command@.map_values(|a: String| a@) =~= c.command@.map_values(|a: String| a@));
            assert(c.stages@.take(k as int) =~= c.stages@);
        }
        External { id: crate::text::copy_str(c.id.as_str()), command, stages, ratchet: c.ratchet }
    }

    pub fn runs_at(&self, stage: Stage) -> (r: bool)
        ensures
            r == self.stages@.contains(stage),
    {
        let mut i: usize = 0;
        while i < self.stages.len()
            invariant
                i <= self.stages.len(),
                forall|j: int| 0 <= j < i ==> self.stages@[j] != stage,
            decreases self.stages.len() - i,
        {
            if self.stages[i] == stage {
                return true;
            }
            i = i + 1;
        }
        false
    }

    /// The command with `{files}` spread into `files`.
    pub fn argv(&self, files: &[String]) -> (r: Vec<String>)
        ensures
            r@.map_values(|a: String| a@) == expand(self.command@.map_values(|a: String| a@), files@.map_values(|a: String| a@)),
    {
        let ghost cv = self.command@.map_values(|a: String| a@);
        let ghost fv = files@.map_values(|a: String| a@);
        let mut out: Vec<String> = Vec::new();
        let mut i: usize = 0;
        while i < self.command.len()
            invariant
                i <= self.command.len(),
                cv == self.command@.map_values(|a: String| a@),
                fv == files@.map_values(|a: String| a@),
                out@.map_values(|a: String| a@) == expand(cv.take(i as int), fv),
            decreases self.command.len() - i,
        {
            proof {
                assert(cv.take(i as int + 1).drop_last() =~= cv.take(i as int));
                assert(cv.take(i as int + 1).last() == self.command@[i as int]@);
                reveal_strlit("{files}");
            }
            let ghost before = out@.map_values(|a: String| a@);
            if crate::text::same_str(self.command[i].as_str(), "{files}") {
                let mut k: usize = 0;
                while k < files.len()
                    invariant
                        k <= files.len(),
                        fv == files@.map_values(|a: String| a@),
                        out@.map_values(|a: String| a@) == before + fv.take(k as int),
                    decreases files.len() - k,
                {
                    let ghost mid = out@;
                    out.push(crate::text::copy_str(files[k].as_str()));
                    proof {
                        assert(out@.map_values(|a: String| a@) =~= mid.map_values(|a: String| a@).push(fv[k as int]));
                        assert(fv.take(k as int + 1) =~= fv.take(k as int).push(fv[k as int]));
                        assert(out@.map_values(|a: String| a@) =~= before + fv.take(k as int + 1));
                    }
                    k = k + 1;
                }
                proof {
                    assert(fv.take(k as int) =~= fv);
                }
            } else {
                out.push(crate::text::copy_str(self.command[i].as_str()));
                proof {
                    assert(out@.map_values(|a: String| a@) =~= before.push(self.command@[i as int]@));
                }
            }
            i = i + 1;
        }
        proof {
            assert(cv.take(i as int) =~= cv);
        }
        out
    }
}

/// A command with each `{files}` replaced by the files.
pub open spec fn expand(command: Seq<Seq<char>>, files: Seq<Seq<char>>) -> Seq<Seq<char>>
    decreases command.len(),
{
    if command.len() == 0 {
        Seq::empty()
    } else {
        let before = expand(command.drop_last(), files);
        if command.last() == "{files}"@ { before + files } else { before.push(command.last()) }
    }
}

pub open spec fn is_digit(c: char) -> bool {
    '0' <= c <= '9'
}

/// Where the run of digits from `i` ends.
pub open spec fn digit_run(s: Seq<char>, i: int) -> int
    decreases s.len() - i,
{
    if 0 <= i < s.len() && is_digit(s[i]) { digit_run(s, i + 1) } else { i }
}

/// Where the run of spaces from `i` ends.
pub open spec fn space_run(s: Seq<char>, i: int) -> int
    decreases s.len() - i,
{
    if 0 <= i < s.len() && s[i] == ' ' { space_run(s, i + 1) } else { i }
}

/// The first `:` at or after `i`, or the end.
pub open spec fn colon_from(s: Seq<char>, i: int) -> int
    decreases s.len() - i,
{
    if 0 <= i < s.len() && s[i] != ':' { colon_from(s, i + 1) } else { i }
}

/// Whether `s` holds no line break from `i` on.
pub open spec fn one_line_from(s: Seq<char>, i: int) -> bool {
    forall|k: int| i <= k < s.len() ==> s[k] != '\n'
}

/// A finding line read with the file starting at `p`: the file runs to the
/// first `:`, then the line number, an optional `:column`, an optional
/// `:`, one or more spaces, and the message, which starts with a character
/// that is not white space. The parts are (file, line digits, message).
pub open spec fn match_from(s: Seq<char>, p: int) -> Option<(Seq<char>, Seq<char>, Seq<char>)> {
    if p < 0 || p >= s.len() || is_white(s[p]) || s[p] == ':' {
        None
    } else {
        let c = colon_from(s, p + 1);
        let ds = c + 1;
        let de = digit_run(s, ds);
        let col = if de < s.len() && s[de] == ':' && digit_run(s, de + 1) > de + 1 {
            digit_run(s, de + 1)
        } else {
            de
        };
        let after = if col < s.len() && s[col] == ':' { col + 1 } else { col };
        let ms = space_run(s, after);
        if c >= s.len() || de == ds || ms == after || ms >= s.len() || is_white(s[ms]) || !one_line_from(s, ms) {
            None
        } else {
            Some((s.subrange(p, c), s.subrange(ds, de), s.skip(ms)))
        }
    }
}

/// A finding line, with or without a leading `./`.
pub open spec fn line_match(s: Seq<char>) -> Option<(Seq<char>, Seq<char>, Seq<char>)> {
    if s.len() >= 2 && s[0] == '.' && s[1] == '/' && match_from(s, 2) is Some {
        match_from(s, 2)
    } else {
        match_from(s, 0)
    }
}

/// The finding one line of output gives, as (file, line, message): the
/// line with its trailing white space dropped, read as a finding line
/// whose number fits a `u32`.
pub open spec fn finding_of(line: Seq<char>) -> Option<(Seq<char>, int, Seq<char>)> {
    match line_match(trim_end(line)) {
        Some((f, d, m)) => if digits_value(d) <= u32::MAX { Some((f, digits_value(d), m)) } else { None },
        None => None,
    }
}

/// The findings of some lines, in order.
pub open spec fn found_in(ls: Seq<Seq<char>>) -> Seq<(Seq<char>, int, Seq<char>)>
    decreases ls.len(),
{
    if ls.len() == 0 {
        Seq::empty()
    } else {
        let before = found_in(ls.drop_last());
        match finding_of(ls.last()) {
            Some(x) => before.push(x),
            None => before,
        }
    }
}

proof fn lemma_runs(s: Seq<char>, i: int)
    requires
        0 <= i <= s.len(),
    ensures
        i <= digit_run(s, i) <= s.len(),
        forall|k: int| i <= k < digit_run(s, i) ==> is_digit(s[k]),
        i <= space_run(s, i) <= s.len(),
        i <= colon_from(s, i) <= s.len(),
        forall|k: int| i <= k < colon_from(s, i) ==> s[k] != ':',
    decreases s.len() - i,
{
    if i < s.len() {
        lemma_runs(s, i + 1);
    }
}

fn digits_end(v: &Vec<char>, from: usize) -> (r: usize)
    requires
        from <= v.len(),
    ensures
        r == digit_run(v@, from as int),
{
    let mut i = from;
    while i < v.len() && '0' <= v[i] && v[i] <= '9'
        invariant
            from <= i <= v.len(),
            digit_run(v@, from as int) == digit_run(v@, i as int),
        decreases v.len() - i,
    {
        i = i + 1;
    }
    i
}

fn spaces_end(v: &Vec<char>, from: usize) -> (r: usize)
    requires
        from <= v.len(),
    ensures
        r == space_run(v@, from as int),
{
    let mut i = from;
    while i < v.len() && v[i] == ' '
        invariant
            from <= i <= v.len(),
            space_run(v@, from as int) == space_run(v@, i as int),
        decreases v.len() - i,
    {
        i = i + 1;
    }
    i
}

fn match_at(v: &Vec<char>, p: usize) -> (r: Option<(Vec<char>, Vec<char>, Vec<char>)>)
    requires
        p <= v.len(),
    ensures
        match r {
            Some((f, d, m)) => match_from(v@, p as int) == Some((f@, d@, m@)),
            None => match_from(v@, p as int) is None,
        },
{
    let n = v.len();
    if p >= n || is_white_char(v[p]) || v[p] == ':' {
        return None;
    }
    let mut c = p + 1;
    while c < n && v[c] != ':'
        invariant
            p < c <= n == v.len(),
            colon_from(v@, p as int + 1) == colon_from(v@, c as int),
        decreases n - c,
    {
        c = c + 1;
    }
    if c >= n {
        return None;
    }
    let ds = c + 1;
    let de = digits_end(v, ds);
    proof {
        lemma_runs(v@, ds as int);
    }
    let col = if de < n && v[de] == ':' {
        let e = digits_end(v, de + 1);
        if e > de + 1 { e } else { de }
    } else {
        de
    };
    proof {
        if de < n {
            lemma_runs(v@, de as int + 1);
        }
    }
    let after = if col < n && v[col] == ':' { col + 1 } else { col };
    let ms = spaces_end(v, after);
    proof {
        lemma_runs(v@, after as int);
    }
    if de == ds || ms == after || ms >= n || is_white_char(v[ms]) {
        return None;
    }
    let mut k = ms;
    proof {
        assert(!one_line_from(v@, ms as int) ==> match_from(v@, p as int) is None);
        assert(one_line_from(v@, ms as int) ==> match_from(v@, p as int) == Some(
            (v@.subrange(p as int, c as int), v@.subrange(ds as int, de as int), v@.skip(ms as int)),
        ));
    }
    while k < n
        invariant
            ms <= k <= n == v.len(),
            p < c < ds <= de <= n,
            forall|q: int| ms <= q < k ==> v@[q] != '\n',
            !one_line_from(v@, ms as int) ==> match_from(v@, p as int) is None,
            one_line_from(v@, ms as int) ==> match_from(v@, p as int) == Some(
                (v@.subrange(p as int, c as int), v@.subrange(ds as int, de as int), v@.skip(ms as int)),
            ),
        decreases n - k,
    {
        if v[k] == '\n' {
            proof {
                assert(!one_line_from(v@, ms as int));
            }
            return None;
        }
        k = k + 1;
    }
    let f = chars_range(v, p, c);
    let d = chars_range(v, ds, de);
    let m = chars_range(v, ms, n);
    proof {
        assert(m@ =~= v@.skip(ms as int));
    }
    Some((f, d, m))
}

fn line_finding(v: &Vec<char>) -> (r: Option<(Vec<char>, Vec<char>, Vec<char>)>)
    ensures
        match r {
            Some((f, d, m)) => line_match(v@) == Some((f@, d@, m@)),
            None => line_match(v@) is None,
        },
{
    if v.len() >= 2 && v[0] == '.' && v[1] == '/' {
        let first = match_at(v, 2);
        if first.is_some() {
            return first;
        }
    }
    match_at(v, 0)
}

/// Reads `d`, a run of ASCII digits, as a `u32`, if it fits.
fn digits_u32(d: &Vec<char>) -> (r: Option<u32>)
    requires
        forall|k: int| 0 <= k < d.len() ==> is_digit(#[trigger] d@[k]),
    ensures
        match r {
            Some(x) => digits_value(d@) <= u32::MAX && x == digits_value(d@),
            None => digits_value(d@) > u32::MAX,
        },
{
    let mut value: u64 = 0;
    let mut i: usize = 0;
    while i < d.len()
        invariant
            i <= d.len(),
            forall|k: int| 0 <= k < d.len() ==> is_digit(#[trigger] d@[k]),
            value == digits_value(d@.take(i as int)),
            value <= u32::MAX,
        decreases d.len() - i,
    {
        let digit = (d[i] as u32 - '0' as u32) as u64;
        proof {
            assert(d@.take(i as int + 1).drop_last() =~= d@.take(i as int));
            assert(d@.take(i as int + 1).last() == d@[i as int]);
        }
        let next = value * 10 + digit;
        if next > u32::MAX as u64 {
            proof {
                assert(crate::text::all_digits(d@));
                crate::text::lemma_digits_prefix_grows(d@, i as int + 1);
            }
            return None;
        }
        value = next;
        i = i + 1;
    }
    proof {
        assert(d@.take(i as int) =~= d@);
    }
    Some(value as u32)
}

/// The last line of `ls`, among the first `n`, that is not blank; empty
/// when there is none.
pub open spec fn last_said(ls: Seq<Seq<char>>, n: int) -> Seq<char>
    decreases n,
{
    if n <= 0 || n > ls.len() {
        Seq::empty()
    } else if crate::text::trim(ls[n - 1]).len() > 0 {
        ls[n - 1]
    } else {
        last_said(ls, n - 1)
    }
}

/// Why a run of `program` that exited with `status` failed: it printed no
/// findings, and the last thing it said on its error output.
pub open spec fn failure_text(id: Seq<char>, program: Seq<char>, status: Seq<char>, stderr: Seq<char>) -> Seq<char> {
    let ls = lines_of(stderr);
    id + ": `"@ + program + "` failed with "@ + status + " and printed no findings: "@ + last_said(ls, ls.len() as int)
}

/// What a run of the rule's command comes to: the findings `found` in its
/// output, unless it failed (`success` false) and printed none, which is
/// an error naming the program, the exit `status` and the last line of its
/// error output; a linter exits non-zero when it finds something.
pub fn run_result(id: &str, program: &str, success: bool, found: Vec<Finding>, status: &str, stderr: &str) -> (r: Result<Vec<Finding>, String>)
    ensures
        success || found.len() > 0 ==> r == Ok::<Vec<Finding>, String>(found),
        !success && found.len() == 0 ==> (r matches Err(e) && e@ == failure_text(id@, program@, status@, stderr@)),
{
    if success || found.len() > 0 {
        return Ok(found);
    }
    let ls = lines(stderr);
    let ghost lv = ls@.map_values(|x: String| x@);
    let mut n = ls.len();
    while n > 0 && crate::text::is_blank(ls[n - 1].as_str())
        invariant
            n <= ls.len(),
            lv == ls@.map_values(|x: String| x@),
            last_said(lv, ls.len() as int) == last_said(lv, n as int),
        decreases n,
    {
        assert(lv[n - 1] == ls@[n - 1]@);
        n = n - 1;
    }
    let mut e = crate::text::copy_str(id);
    crate::text::push_str(&mut e, ": `");
    crate::text::push_str(&mut e, program);
    crate::text::push_str(&mut e, "` failed with ");
    crate::text::push_str(&mut e, status);
    crate::text::push_str(&mut e, " and printed no findings: ");
    if n > 0 {
        assert(lv[n - 1] == ls@[n - 1]@);
        crate::text::push_str(&mut e, ls[n - 1].as_str());
    }
    Err(e)
}

/// The error of a rule whose command is empty.
pub open spec fn empty_command_text(id: Seq<char>) -> Seq<char> {
    id + ": the command is empty"@
}

/// The error for a rule whose command expands to nothing.
pub fn empty_command(id: &str) -> (r: String)
    ensures
        r@ == empty_command_text(id@),
{
    let mut e = crate::text::copy_str(id);
    crate::text::push_str(&mut e, ": the command is empty");
    e
}

/// The findings in a tool's output, each under the rule `id`; other lines
/// are ignored.
pub fn parse(id: &str, output: &str) -> (r: Vec<Finding>)
    ensures
        r.len() == found_in(lines_of(output@)).len(),
        forall|j: int|
            0 <= j < r.len() ==> {
                let x = found_in(lines_of(output@))[j];
                &&& (#[trigger] r@[j]).file@ == x.0
                &&& r@[j].line == x.1
                &&& r@[j].rule@ == id@
                &&& r@[j].message@ == x.2
                &&& r@[j].anchor@ == x.2
                &&& r@[j].measure is None
            },
{
    let ls = lines(output);
    let ghost lv = ls@.map_values(|x: String| x@);
    let mut out: Vec<Finding> = Vec::new();
    let mut i: usize = 0;
    while i < ls.len()
        invariant
            i <= ls.len(),
            lv == ls@.map_values(|x: String| x@),
            lv == lines_of(output@),
            out.len() == found_in(lv.take(i as int)).len(),
            forall|j: int|
                0 <= j < out.len() ==> {
                    let x = found_in(lv.take(i as int))[j];
                    &&& (#[trigger] out@[j]).file@ == x.0
                    &&& out@[j].line == x.1
                    &&& out@[j].rule@ == id@
                    &&& out@[j].message@ == x.2
                    &&& out@[j].anchor@ == x.2
                    &&& out@[j].measure is None
                },
        decreases ls.len() - i,
    {
        proof {
            assert(lv.take(i as int + 1).drop_last() =~= lv.take(i as int));
            assert(lv.take(i as int + 1).last() == ls@[i as int]@);
        }
        let v = chars_of(ls[i].as_str());
        let n = v.len();
        let end = trim_white_end(&v, n);
        let t = chars_range(&v, 0, end);
        proof {
            assert(v@.take(n as int) =~= v@);
            assert(t@ =~= trim_end(v@));
        }
        match line_finding(&t) {
            Some((f, d, m)) => {
                proof {
                    lemma_match_digits(t@);
                    assert(line_match(t@).unwrap().1 == d@);
                }
                match digits_u32(&d) {
                    Some(line) => {
                        out.push(Finding {
                            file: string_of(&f),
                            line,
                            rule: crate::text::copy_str(id),
                            message: string_of(&m),
                            anchor: string_of(&m),
                            measure: None,
                        });
                    },
                    None => {},
                }
            },
            None => {},
        }
        i = i + 1;
    }
    proof {
        assert(lv.take(i as int) =~= lv);
    }
    out
}

/// Whether `d` is all ASCII digits.
pub open spec fn digits_only(d: Seq<char>) -> bool {
    forall|k: int| 0 <= k < d.len() ==> is_digit(#[trigger] d[k])
}

proof fn lemma_match_digits(s: Seq<char>)
    ensures
        line_match(s) is Some ==> digits_only(line_match(s).unwrap().1),
{
    if let Some((f, d, m)) = match_from(s, 2) {
        lemma_match_from_digits(s, 2);
    }
    if let Some((f, d, m)) = match_from(s, 0) {
        lemma_match_from_digits(s, 0);
    }
}

proof fn lemma_match_from_digits(s: Seq<char>, p: int)
    requires
        match_from(s, p) is Some,
    ensures
        digits_only(match_from(s, p).unwrap().1),
{
    lemma_runs(s, p + 1);
    let c = colon_from(s, p + 1);
    lemma_runs(s, c + 1);
}

} // verus!
