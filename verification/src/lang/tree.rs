//! The files Fairlead reads: everything git doesn't ignore, never
//! `node_modules` or `.git`. Paths are repo-relative with `/` separators on
//! every platform, so they match globs and print the same everywhere.
use vstd::prelude::*;

use crate::text::{
    chars_of, ends_with_lit, eq_lit, join, join_chars, last_index, lemma_last_index, rfind_char,
    split, split_chars, string_of, views,
};

verus! {

/// The extensions of JavaScript and TypeScript sources.
pub open spec fn is_source_extension(ext: Seq<char>) -> bool {
    ||| ext == "ts"@
    ||| ext == "tsx"@
    ||| ext == "mts"@
    ||| ext == "cts"@
    ||| ext == "js"@
    ||| ext == "jsx"@
    ||| ext == "mjs"@
    ||| ext == "cjs"@
}

pub fn source_extension(ext: &Vec<char>) -> (r: bool)
    ensures
        r == is_source_extension(ext@),
{
    eq_lit(ext, "ts") || eq_lit(ext, "tsx") || eq_lit(ext, "mts") || eq_lit(ext, "cts")
        || eq_lit(ext, "js") || eq_lit(ext, "jsx") || eq_lit(ext, "mjs") || eq_lit(ext, "cjs")
}

/// A source file: a JavaScript or TypeScript extension after the last dot,
/// and not a declaration file (`.d.ts`).
pub open spec fn is_source_path(rel: Seq<char>) -> bool {
    match last_index(rel, '.') {
        None => false,
        Some(i) => is_source_extension(rel.skip(i + 1)) && !".d"@.is_suffix_of(rel.take(i)),
    }
}

/// Everything before the last `/`, or nothing.
pub open spec fn parent_of(rel: Seq<char>) -> Seq<char> {
    match last_index(rel, '/') {
        Some(i) => rel.take(i),
        None => Seq::empty(),
    }
}

/// The pieces of a path that name something: not empty, not `.`.
pub open spec fn named(pieces: Seq<Seq<char>>) -> Seq<Seq<char>>
    decreases pieces.len(),
{
    if pieces.len() == 0 {
        Seq::empty()
    } else if pieces.last().len() == 0 || pieces.last() == "."@ {
        named(pieces.drop_last())
    } else {
        named(pieces.drop_last()).push(pieces.last())
    }
}

/// The non-empty pieces of a path.
pub open spec fn nonempty(pieces: Seq<Seq<char>>) -> Seq<Seq<char>>
    decreases pieces.len(),
{
    if pieces.len() == 0 {
        Seq::empty()
    } else if pieces.last().len() == 0 {
        nonempty(pieces.drop_last())
    } else {
        nonempty(pieces.drop_last()).push(pieces.last())
    }
}

/// Walks `segs` from `parts`: empty pieces and `.` stay, `..` climbs, and
/// climbing above the top fails.
pub open spec fn walk(parts: Seq<Seq<char>>, segs: Seq<Seq<char>>) -> Option<Seq<Seq<char>>>
    decreases segs.len(),
{
    if segs.len() == 0 {
        Some(parts)
    } else if segs[0].len() == 0 || segs[0] == "."@ {
        walk(parts, segs.drop_first())
    } else if segs[0] == ".."@ {
        if parts.len() == 0 {
            None
        } else {
            walk(parts.drop_last(), segs.drop_first())
        }
    } else {
        walk(parts.push(segs[0]), segs.drop_first())
    }
}

/// `rel` joined onto `dir` with `.` and `..` resolved; a `rel` that starts
/// with `/` starts from the top. None when it climbs above the top or
/// names nothing.
pub open spec fn normalized(dir: Seq<char>, rel: Seq<char>) -> Option<Seq<char>> {
    let start = if rel.len() > 0 && rel[0] == '/' {
        Seq::empty()
    } else {
        nonempty(split(dir, '/'))
    };
    match walk(start, split(rel, '/')) {
        None => None,
        Some(parts) => if parts.len() == 0 {
            None
        } else {
            Some(join(parts, "/"@))
        },
    }
}

/// `abs` relative to `root`, with `/` between the pieces; none when `abs`
/// isn't under `root` or is `root` itself.
pub open spec fn relative_to(root: Seq<char>, abs: Seq<char>) -> Option<Seq<char>> {
    if root.len() <= abs.len() && abs.take(root.len() as int) == root && (abs.len() == root.len()
        || abs[root.len() as int] == '/' || (root.len() > 0 && root.last() == '/')) {
        let parts = named(split(abs.skip(root.len() as int), '/'));
        if parts.len() == 0 {
            None
        } else {
            Some(join(parts, "/"@))
        }
    } else {
        None
    }
}

/// The directory part of a repo path: everything before its last `/`.
pub fn parent(rel: &str) -> (r: &str)
    ensures
        r@ == parent_of(rel@),
{
    let v = chars_of(rel);
    proof {
        lemma_last_index(v@, '/');
    }
    match rfind_char(&v, '/') {
        Some(i) => rel.substring_char(0, i),
        None => {
            proof {
                assert(rel@.subrange(0, 0) =~= Seq::<char>::empty());
            }
            rel.substring_char(0, 0)
        },
    }
}

fn slash() -> (r: Vec<char>)
    ensures
        r@ == "/"@,
{
    let r = chars_of("/");
    r
}

fn is_dot(v: &Vec<char>) -> (r: bool)
    ensures
        r == (v@ == "."@),
{
    eq_lit(v, ".")
}

fn is_dot_dot(v: &Vec<char>) -> (r: bool)
    ensures
        r == (v@ == ".."@),
{
    eq_lit(v, "..")
}

proof fn lemma_walk_step(parts: Seq<Seq<char>>, segs: Seq<Seq<char>>, i: int)
    requires
        0 <= i < segs.len(),
    ensures
        segs.skip(i)[0] == segs[i],
        segs.skip(i).drop_first() == segs.skip(i + 1),
{
    assert(segs.skip(i).drop_first() =~= segs.skip(i + 1));
}

/// Joins a `/`-separated path onto a directory and resolves `.` and `..`,
/// without touching the filesystem. `None` if it climbs above the root.
pub fn normalize(dir: &str, rel: &str) -> (r: Option<String>)
    ensures
        r matches Some(s) ==> normalized(dir@, rel@) == Some(s@),
        r is None ==> normalized(dir@, rel@) is None,
{
    let d = chars_of(dir);
    let rv = chars_of(rel);
    let mut parts: Vec<Vec<char>> = Vec::new();
    if !(rv.len() > 0 && rv[0] == '/') {
        let pieces = split_chars(&d, '/');
        let mut i: usize = 0;
        while i < pieces.len()
            invariant
                i <= pieces.len(),
                views(parts@) == nonempty(views(pieces@).take(i as int)),
            decreases pieces.len() - i,
        {
            proof {
                assert(views(pieces@).take(i as int + 1).drop_last() =~= views(pieces@).take(i as int));
            }
            if pieces[i].len() > 0 {
                let ghost before = views(parts@);
                parts.push(pieces[i].clone());
                proof {
                    assert(views(parts@) =~= before.push(pieces@[i as int]@));
                }
            }
            i = i + 1;
        }
        proof {
            assert(views(pieces@).take(i as int) =~= views(pieces@));
        }
    }
    let ghost start = views(parts@);
    proof {
        assert(start == (if rel@.len() > 0 && rel@[0] == '/' { Seq::empty() } else { nonempty(split(dir@, '/')) }));
    }
    let segs = split_chars(&rv, '/');
    let ghost all = views(segs@);
    let mut i: usize = 0;
    proof {
        assert(all.skip(0) =~= all);
    }
    while i < segs.len()
        invariant
            i <= segs.len(),
            all == views(segs@),
            all == split(rel@, '/'),
            start == (if rel@.len() > 0 && rel@[0] == '/' { Seq::empty() } else { nonempty(split(dir@, '/')) }),
            walk(start, all) == walk(views(parts@), all.skip(i as int)),
        decreases segs.len() - i,
    {
        proof {
            lemma_walk_step(views(parts@), all, i as int);
        }
        let seg = &segs[i];
        proof {
            assert(all[i as int] == seg@);
        }
        if seg.len() == 0 || is_dot(seg) {
        } else if is_dot_dot(seg) {
            if parts.len() == 0 {
                proof {
                    reveal_strlit("..");
                    reveal_strlit(".");
                    assert(all.skip(i as int)[0] == ".."@);
                    assert(walk(views(parts@), all.skip(i as int)) is None);
                }
                return None;
            }
            let ghost before = views(parts@);
            parts.pop();
            proof {
                assert(views(parts@) =~= before.drop_last());
            }
        } else {
            let ghost before = views(parts@);
            parts.push(seg.clone());
            proof {
                assert(views(parts@) =~= before.push(all[i as int]));
            }
        }
        i = i + 1;
    }
    proof {
        assert(all.skip(i as int) =~= Seq::<Seq<char>>::empty());
    }
    if parts.len() == 0 {
        return None;
    }
    let joined = join_chars(&parts, &slash());
    Some(string_of(&joined))
}

/// `abs` relative to `root`, with `/` separators.
pub fn relative(root: &str, abs: &str) -> (r: Option<String>)
    ensures
        r matches Some(s) ==> relative_to(root@, abs@) == Some(s@),
        r is None ==> relative_to(root@, abs@) is None,
{
    let rv = chars_of(root);
    let av = chars_of(abs);
    if rv.len() > av.len() {
        return None;
    }
    let mut i: usize = 0;
    while i < rv.len()
        invariant
            i <= rv.len() <= av.len(),
            rv@ == root@,
            av@ == abs@,
            forall|j: int| 0 <= j < i ==> rv@[j] == av@[j],
        decreases rv.len() - i,
    {
        if rv[i] != av[i] {
            proof {
                assert(av@.take(rv.len() as int)[i as int] == av@[i as int]);
                assert(av@.take(rv.len() as int) != rv@);
                assert(abs@.take(root@.len() as int) != root@);
            }
            return None;
        }
        i = i + 1;
    }
    proof {
        assert(av@.take(rv.len() as int) =~= rv@);
    }
    let n = rv.len();
    if !(av.len() == n || av[n] == '/' || (n > 0 && rv[n - 1] == '/')) {
        return None;
    }
    let mut rest: Vec<char> = Vec::new();
    let mut k: usize = n;
    while k < av.len()
        invariant
            n <= k <= av.len(),
            rest@ == av@.subrange(n as int, k as int),
        decreases av.len() - k,
    {
        rest.push(av[k]);
        proof {
            assert(av@.subrange(n as int, k as int + 1) =~= av@.subrange(n as int, k as int).push(av@[k as int]));
        }
        k = k + 1;
    }
    proof {
        assert(rest@ =~= av@.skip(n as int));
    }
    let pieces = split_chars(&rest, '/');
    let mut parts: Vec<Vec<char>> = Vec::new();
    let mut i: usize = 0;
    while i < pieces.len()
        invariant
            i <= pieces.len(),
            views(parts@) == named(views(pieces@).take(i as int)),
        decreases pieces.len() - i,
    {
        proof {
            assert(views(pieces@).take(i as int + 1).drop_last() =~= views(pieces@).take(i as int));
        }
        if pieces[i].len() > 0 && !is_dot(&pieces[i]) {
            let ghost before = views(parts@);
            parts.push(pieces[i].clone());
            proof {
                assert(views(parts@) =~= before.push(pieces@[i as int]@));
            }
        }
        i = i + 1;
    }
    proof {
        assert(views(pieces@).take(i as int) =~= views(pieces@));
    }
    if parts.len() == 0 {
        return None;
    }
    let joined = join_chars(&parts, &slash());
    Some(string_of(&joined))
}

/// The repository's files, sorted, relative to `root`.
#[derive(Debug, Clone)]
pub struct Tree {
    pub root: String,
    pub files: Vec<String>,
}

/// Whether `rel` is one of `files`.
pub open spec fn listed(files: Seq<String>, rel: Seq<char>) -> bool {
    exists|i: int| 0 <= i < files.len() && (#[trigger] files[i])@ == rel
}

/// The source files among `files`, in order.
pub open spec fn sources_of(files: Seq<String>) -> Seq<String>
    decreases files.len(),
{
    if files.len() == 0 {
        Seq::empty()
    } else if is_source_path(files.last()@) {
        sources_of(files.drop_last()).push(files.last())
    } else {
        sources_of(files.drop_last())
    }
}

impl Tree {
    pub fn from_files(root: &str, files: Vec<String>) -> (t: Tree)
        ensures
            t.root@ == root@,
            t.files == files,
    {
        Tree { root: root.to_owned(), files }
    }

    pub fn contains(&self, rel: &str) -> (r: bool)
        ensures
            r == listed(self.files@, rel@),
    {
        let want = rel.to_owned();
        let mut i: usize = 0;
        while i < self.files.len()
            invariant
                i <= self.files.len(),
                want@ == rel@,
                forall|j: int| 0 <= j < i ==> (#[trigger] self.files@[j])@ != rel@,
            decreases self.files.len() - i,
        {
            if self.files[i] == want {
                return true;
            }
            i = i + 1;
        }
        false
    }

    /// A JavaScript or TypeScript source that isn't a declaration file.
    pub fn is_source(rel: &str) -> (r: bool)
        ensures
            r == is_source_path(rel@),
    {
        let v = chars_of(rel);
        proof {
            lemma_last_index(v@, '.');
        }
        match rfind_char(&v, '.') {
            None => false,
            Some(i) => {
                assert(i < v.len());
                let mut ext: Vec<char> = Vec::new();
                let mut k = i + 1;
                while k < v.len()
                    invariant
                        i < k <= v.len(),
                        ext@ == v@.subrange(i + 1, k as int),
                    decreases v.len() - k,
                {
                    ext.push(v[k]);
                    proof {
                        assert(v@.subrange(i + 1, k as int + 1) =~= v@.subrange(i + 1, k as int).push(v@[k as int]));
                    }
                    k = k + 1;
                }
                let mut stem: Vec<char> = Vec::new();
                let mut k: usize = 0;
                while k < i
                    invariant
                        k <= i < v.len(),
                        stem@ == v@.take(k as int),
                    decreases i - k,
                {
                    stem.push(v[k]);
                    proof {
                        assert(v@.take(k as int + 1) =~= v@.take(k as int).push(v@[k as int]));
                    }
                    k = k + 1;
                }
                proof {
                    assert(ext@ =~= v@.skip(i + 1));
                }
                source_extension(&ext) && !ends_with_lit(&stem, ".d")
            },
        }
    }

    /// The source files, in the tree's order.
    pub fn sources(&self) -> (r: Vec<String>)
        ensures
            r@ == sources_of(self.files@),
    {
        let mut out: Vec<String> = Vec::new();
        let mut i: usize = 0;
        while i < self.files.len()
            invariant
                i <= self.files.len(),
                out@ == sources_of(self.files@.take(i as int)),
            decreases self.files.len() - i,
        {
            proof {
                assert(self.files@.take(i as int + 1).drop_last() =~= self.files@.take(i as int));
            }
            if Tree::is_source(self.files[i].as_str()) {
                out.push(self.files[i].clone());
            }
            i = i + 1;
        }
        proof {
            assert(self.files@.take(i as int) =~= self.files@);
        }
        out
    }

    /// A repo path under the root: `root/rel`.
    pub fn abs(&self, rel: &str) -> (r: String)
        ensures
            r@ == self.root@ + "/"@ + rel@,
    {
        let mut s = self.root.clone();
        s.append("/");
        s.append(rel);
        s
    }

    /// A path under the root, relative to it.
    pub fn rel(&self, abs: &str) -> (r: Option<String>)
        ensures
            r matches Some(s) ==> relative_to(self.root@, abs@) == Some(s@),
            r is None ==> relative_to(self.root@, abs@) is None,
    {
        relative(self.root.as_str(), abs)
    }
}

} // verus!
