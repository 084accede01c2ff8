//! `[guard.citations]`: a pointer in a comment, such as `(T1024)`, has to
//! name a heading in a Markdown file, so a pointer never points nowhere.
//! These are the names the headings give.
use vstd::prelude::*;
use crate::strset::{insert_str, str_set, str_sorted, views_of};
use crate::text::{
    chars_of, chars_range, is_white, is_white_char, lemma_lead_white, lines, lines_of, skip_white,
    string_of, trim_start, words, words_of,
};

verus! {

/// `s` without the `:` and `.` at its end.
pub open spec fn trim_end_marks(s: Seq<char>) -> Seq<char>
    decreases s.len(),
{
    if s.len() > 0 && (s.last() == ':' || s.last() == '.') {
        trim_end_marks(s.drop_last())
    } else {
        s
    }
}

/// How many `#` start `s`.
pub open spec fn lead_hashes(s: Seq<char>) -> nat
    decreases s.len(),
{
    if s.len() > 0 && s[0] == '#' { 1 + lead_hashes(s.drop_first()) } else { 0 }
}

/// The name a Markdown line gives, if it is a heading: past its white
/// space and its `#`s, white space and then a word, whose trailing `:` and
/// `.` are dropped, so `## T1024: title` names `T1024`.
pub open spec fn heading_name(line: Seq<char>) -> Option<Seq<char>> {
    let t = trim_start(line);
    if t.len() > 0 && t[0] == '#' {
        let rest = t.skip(lead_hashes(t) as int);
        if rest.len() > 0 && is_white(rest[0]) && words_of(rest).len() > 0 {
            Some(trim_end_marks(words_of(rest)[0]))
        } else {
            None
        }
    } else {
        None
    }
}

/// The names that the first `i` lines give.
pub open spec fn names_upto(ls: Seq<Seq<char>>, i: int) -> Set<Seq<char>> {
    Set::new(|n: Seq<char>| exists|j: int| 0 <= j < i && heading_name(#[trigger] ls[j]) == Some(n))
}

/// Every name the headings of `markdown` give.
pub open spec fn heading_set(markdown: Seq<char>) -> Set<Seq<char>> {
    names_upto(lines_of(markdown), lines_of(markdown).len() as int)
}

fn heading_of(line: &str) -> (r: Option<String>)
    ensures
        match r {
            Some(n) => heading_name(line@) == Some(n@),
            None => heading_name(line@) is None,
        },
{
    let v = chars_of(line);
    let n = v.len();
    let s = skip_white(&v, 0);
    proof {
        assert(v@.skip(0) =~= v@);
        lemma_lead_white(v@);
    }
    let ghost t = trim_start(v@);
    if s < n && v[s] == '#' {
        proof {
            assert(t[0] == v@[s as int]);
        }
        let mut h = s;
        proof {
            assert(v@.skip(s as int) =~= t);
        }
        while h < n && v[h] == '#'
            invariant
                s <= h <= n == v.len(),
                t == v@.skip(s as int),
                lead_hashes(t) == (h - s) + lead_hashes(v@.skip(h as int)),
            decreases n - h,
        {
            proof {
                assert(v@.skip(h as int).drop_first() =~= v@.skip(h as int + 1));
            }
            h = h + 1;
        }
        let rest = chars_range(&v, h, n);
        proof {
            assert(rest@ =~= t.skip(lead_hashes(t) as int));
        }
        if rest.len() > 0 && is_white_char(rest[0]) {
            let ws = words(&rest);
            if ws.len() > 0 {
                proof {
                    assert(ws@[0]@ == words_of(rest@)[0]);
                }
                let mut e = ws[0].len();
                proof {
                    assert(ws@[0]@.take(e as int) =~= ws@[0]@);
                }
                while e > 0 && (ws[0][e - 1] == ':' || ws[0][e - 1] == '.')
                    invariant
                        e <= ws@[0].len(),
                        ws.len() > 0,
                        trim_end_marks(ws@[0]@) == trim_end_marks(ws@[0]@.take(e as int)),
                    decreases e,
                {
                    proof {
                        assert(ws@[0]@.take(e as int).drop_last() =~= ws@[0]@.take(e as int - 1));
                    }
                    e = e - 1;
                }
                proof {
                    assert(ws@[0]@.take(ws@[0].len() as int) =~= ws@[0]@);
                }
                let word = chars_range(&ws[0], 0, e);
                proof {
                    assert(word@ =~= ws@[0]@.take(e as int));
                }
                return Some(string_of(&word));
            }
        }
        None
    } else {
        proof {
            if s < n {
                assert(t[0] == v@[s as int]);
            }
        }
        None
    }
}

/// Each heading's first word, with a trailing `:` or `.` dropped, so
/// `## T1024: title` names `T1024`; sorted, each once.
pub fn heading_names(markdown: &str) -> (r: Vec<String>)
    ensures
        str_sorted(r@),
        str_set(r@) == heading_set(markdown@),
{
    let ls = lines(markdown);
    let ghost lv = views_of(ls@);
    proof {
        assert(lv =~= lines_of(markdown@));
    }
    let mut out: Vec<String> = Vec::new();
    let mut i: usize = 0;
    proof {
        assert(str_set(out@) =~= names_upto(lv, 0));
    }
    while i < ls.len()
        invariant
            i <= ls.len(),
            lv == views_of(ls@),
            str_sorted(out@),
            str_set(out@) == names_upto(lv, i as int),
        decreases ls.len() - i,
    {
        let found = heading_of(ls[i].as_str());
        proof {
            assert(lv[i as int] == ls@[i as int]@);
        }
        match found {
            Some(name) => {
                let ghost before = str_set(out@);
                let ghost nv = name@;
                insert_str(&mut out, name);
                proof {
                    assert(str_set(out@) =~= names_upto(lv, i as int + 1)) by {
                        assert forall|x: Seq<char>| names_upto(lv, i as int + 1).contains(x) implies
                            before.insert(nv).contains(x) by {
                            let j = choose|j: int| 0 <= j < i + 1 && heading_name(#[trigger] lv[j]) == Some(x);
                            if j < i {
                                assert(names_upto(lv, i as int).contains(x));
                            }
                        }
                        assert forall|x: Seq<char>| before.insert(nv).contains(x) implies
                            names_upto(lv, i as int + 1).contains(x) by {
                            if x == nv {
                                assert(heading_name(lv[i as int]) == Some(x));
                            } else {
                                let j = choose|j: int| 0 <= j < i && heading_name(#[trigger] lv[j]) == Some(x);
                                assert(0 <= j < i + 1);
                            }
                        }
                    }
                }
            },
            None => {
                proof {
                    assert(str_set(out@) =~= names_upto(lv, i as int + 1)) by {
                        assert forall|x: Seq<char>| names_upto(lv, i as int + 1).contains(x) implies
                            names_upto(lv, i as int).contains(x) by {
                            let j = choose|j: int| 0 <= j < i + 1 && heading_name(#[trigger] lv[j]) == Some(x);
                            assert(j != i);
                        }
                        assert forall|x: Seq<char>| names_upto(lv, i as int).contains(x) implies
                            names_upto(lv, i as int + 1).contains(x) by {
                            let j = choose|j: int| 0 <= j < i && heading_name(#[trigger] lv[j]) == Some(x);
                            assert(0 <= j < i + 1);
                        }
                    }
                }
            },
        }
        i = i + 1;
    }
    out
}

} // verus!
