//! The parse cache: each file's extraction result, keyed by its git blob id
//! and extension. Reading and writing the cache file is the application's.
use vstd::prelude::*;

use crate::lang::extract::Extracted;
use crate::text::{chars_of, decimal, digit_char, last_index, push_str, rfind_char, same_str, string_range};

verus! {

/// The SHA-1 digest of `data`, as forty lower-case hex digits.
pub uninterp spec fn sha1_text(data: Seq<u8>) -> Seq<char>;

pub open spec fn is_hex_digit(c: char) -> bool {
    ('0' <= c <= '9') || ('a' <= c <= 'f')
}

/// `sha1_smol::Sha1::from(data).digest()`, printed. Its `Display` writes
/// each of the five state words as eight hex digits, so the text is forty
/// lower-case hex digits; the contract claims that, and names the digest.
#[verifier::external_body]
pub(crate) fn sha1_hex(data: &[u8]) -> (r: String)
    ensures
        r@ == sha1_text(data@),
        r@.len() == 40,
        forall|i: int| 0 <= i < 40 ==> is_hex_digit(#[trigger] r@[i]),
{
    sha1_smol::Sha1::from(data).digest().to_string()
}

/// The ASCII bytes of a text of ASCII characters.
pub open spec fn ascii_bytes(s: Seq<char>) -> Seq<u8> {
    s.map_values(|c: char| c as u8)
}

/// What git hashes for a blob: `blob <length>\0`, then the bytes.
pub open spec fn blob_bytes(bytes: Seq<u8>) -> Seq<u8> {
    ascii_bytes("blob "@) + ascii_bytes(decimal(bytes.len())) + seq![0u8] + bytes
}

/// The git blob id of `bytes`.
pub open spec fn blob_text(bytes: Seq<u8>) -> Seq<char> {
    sha1_text(blob_bytes(bytes))
}

/// `git hash-object` for these bytes.
pub fn blob_id(bytes: &[u8]) -> (r: String)
    ensures
        r@ == blob_text(bytes@),
        r@.len() == 40,
{
    let n = crate::text::decimal_string(bytes.len() as u64);
    let digits = chars_of(n.as_str());
    let head = chars_of("blob ");
    let mut data: Vec<u8> = Vec::new();
    let mut i: usize = 0;
    proof {
        reveal_strlit("blob ");
    }
    while i < head.len()
        invariant
            i <= head.len(),
            head@ == "blob "@,
            data@ == ascii_bytes(head@.take(i as int)),
        decreases head.len() - i,
    {
        data.push(head[i] as u8);
        proof {
            assert(ascii_bytes(head@.take(i as int + 1)) =~= ascii_bytes(head@.take(i as int)).push(head@[i as int] as u8));
        }
        i = i + 1;
    }
    proof {
        assert(head@.take(i as int) =~= head@);
    }
    let ghost first = data@;
    let mut j: usize = 0;
    while j < digits.len()
        invariant
            j <= digits.len(),
            data@ == first + ascii_bytes(digits@.take(j as int)),
        decreases digits.len() - j,
    {
        data.push(digits[j] as u8);
        proof {
            assert(ascii_bytes(digits@.take(j as int + 1)) =~= ascii_bytes(digits@.take(j as int)).push(digits@[j as int] as u8));
        }
        j = j + 1;
    }
    proof {
        assert(digits@.take(j as int) =~= digits@);
    }
    data.push(0u8);
    let ghost second = data@;
    let mut k: usize = 0;
    while k < bytes.len()
        invariant
            k <= bytes.len(),
            data@ == second + bytes@.take(k as int),
        decreases bytes.len() - k,
    {
        data.push(bytes[k]);
        proof {
            assert(bytes@.take(k as int + 1) =~= bytes@.take(k as int).push(bytes@[k as int]));
        }
        k = k + 1;
    }
    proof {
        assert(bytes@.take(k as int) =~= bytes@);
        assert(data@ =~= blob_bytes(bytes@));
    }
    sha1_hex(data.as_slice())
}

/// The text after the last `.` of a path, or nothing.
pub open spec fn ext_of(rel: Seq<char>) -> Seq<char> {
    match last_index(rel, '.') {
        Some(i) => rel.skip(i + 1),
        None => Seq::empty(),
    }
}

/// The cache's key for a file: blob id and extension, since the same bytes
/// parse differently as TypeScript and JavaScript.
pub open spec fn key_text(rel: Seq<char>, bytes: Seq<u8>) -> Seq<char> {
    blob_text(bytes) + seq!['.'] + ext_of(rel)
}

pub fn key(rel: &str, bytes: &[u8]) -> (r: String)
    ensures
        r@ == key_text(rel@, bytes@),
{
    let v = chars_of(rel);
    let mut out = blob_id(bytes);
    crate::text::push_char(&mut out, '.');
    match rfind_char(&v, '.') {
        Some(i) => {
            proof {
                crate::text::lemma_last_index(v@, '.');
            }
            let n = v.len();
            let e = string_range(&v, i + 1, n);
            push_str(&mut out, e.as_str());
            proof {
                assert(e@ =~= v@.skip(i as int + 1));
            }
        },
        None => {},
    }
    proof {
        assert(out@ =~= key_text(rel@, bytes@));
    }
    out
}

#[derive(Debug, Clone, Copy, Default, PartialEq, Eq)]
pub struct CacheStats {
    pub enabled: bool,
    pub hits: usize,
    pub misses: usize,
}

/// The cache: where it lives, if anywhere, and its entries by key.
#[derive(Debug, Default)]
pub struct ParseCache {
    dir: Option<String>,
    entries: Vec<(String, Extracted)>,
}

/// The first entry named `key`, from the `i`th on.
pub open spec fn entry_at(entries: Seq<(String, Extracted)>, key: Seq<char>, i: int) -> Option<int>
    decreases entries.len() - i,
{
    if i < 0 || i >= entries.len() {
        None
    } else if entries[i].0@ == key {
        Some(i)
    } else {
        entry_at(entries, key, i + 1)
    }
}

impl ParseCache {
    pub closed spec fn dir_view(&self) -> Option<Seq<char>> {
        match self.dir {
            Some(d) => Some(d@),
            None => None,
        }
    }

    pub closed spec fn entries_view(&self) -> Seq<(String, Extracted)> {
        self.entries@
    }

    /// A cache that holds nothing and saves nothing.
    pub fn disabled() -> (r: ParseCache)
        ensures
            r.dir_view() is None,
            r.entries_view().len() == 0,
    {
        ParseCache { dir: None, entries: Vec::new() }
    }

    /// A cache kept in `dir`, holding what was read from it.
    pub fn at(dir: String, entries: Vec<(String, Extracted)>) -> (r: ParseCache)
        ensures
            r.dir_view() == Some(dir@),
            r.entries_view() == entries@,
    {
        ParseCache { dir: Some(dir), entries }
    }

    /// Where the cache lives.
    pub fn dir(&self) -> (r: Option<&str>)
        ensures
            match self.dir_view() {
                Some(d) => r matches Some(x) && x@ == d,
                None => r is None,
            },
    {
        match &self.dir {
            Some(d) => Some(d.as_str()),
            None => None,
        }
    }

    pub fn enabled(&self) -> (r: bool)
        ensures
            r == (self.dir_view() is Some),
    {
        self.dir.is_some()
    }

    /// The entry for `key`, if the cache holds one.
    pub fn get(&self, key: &str) -> (r: Option<&Extracted>)
        ensures
            match entry_at(self.entries_view(), key@, 0) {
                Some(i) => r == Some(&self.entries_view()[i].1),
                None => r is None,
            },
    {
        let mut i: usize = 0;
        while i < self.entries.len()
            invariant
                i <= self.entries.len(),
                entry_at(self.entries@, key@, 0) == entry_at(self.entries@, key@, i as int),
            decreases self.entries.len() - i,
        {
            if same_str(self.entries[i].0.as_str(), key) {
                return Some(&self.entries[i].1);
            }
            i = i + 1;
        }
        None
    }
}

} // verus!

verus! {

/// The git dir a worktree's `.git` file names: the rest of its first line
/// that starts with `gitdir:`, trimmed.
pub open spec fn gitdir_from(ls: Seq<Seq<char>>) -> Option<Seq<char>>
    decreases ls.len(),
{
    if ls.len() == 0 {
        None
    } else if "gitdir:"@.is_prefix_of(ls[0]) {
        Some(crate::text::trim(ls[0].skip(7)))
    } else {
        gitdir_from(ls.drop_first())
    }
}

/// `b` joined onto `a` as `Path::join` does: an absolute `b` replaces `a`.
pub open spec fn path_join(a: Seq<char>, b: Seq<char>) -> Seq<char> {
    if b.len() > 0 && b[0] == '/' { b } else { crate::config::load::joined(a, b) }
}

/// Where the repository at `root` keeps its cache: `<git dir>/fairlead`,
/// `.git` itself when it is a folder (`git_is_dir`), else the git dir its
/// `.git` file names (`git_file`, the file's text when it could be read);
/// none outside a repository.
pub open spec fn cache_dir(root: Seq<char>, git_is_dir: bool, git_file: Option<Seq<char>>) -> Option<Seq<char>> {
    if git_is_dir {
        Some(crate::config::load::joined(crate::config::load::joined(root, ".git"@), "fairlead"@))
    } else {
        match git_file {
            None => None,
            Some(t) => match gitdir_from(crate::text::lines_of(t)) {
                None => None,
                Some(g) => Some(crate::config::load::joined(path_join(root, g), "fairlead"@)),
            },
        }
    }
}

fn trimmed_rest(l: &str) -> (r: String)
    ensures
        l@.len() >= 7 ==> r@ == crate::text::trim(l@.skip(7)),
{
    let v = chars_of(l);
    if v.len() < 7 {
        return String::new();
    }
    let n = v.len();
    let rest = crate::text::chars_range(&v, 7, n);
    proof {
        assert(rest@ =~= l@.skip(7));
    }
    let t = crate::text::trimmed(&rest);
    crate::text::string_of(&t)
}

/// Where the repository at `root` keeps its cache.
pub fn dir_for(root: &str, git_is_dir: bool, git_file: Option<&str>) -> (r: Option<String>)
    ensures
        match cache_dir(root@, git_is_dir, crate::replay::extract::str_opt(git_file)) {
            Some(d) => r matches Some(s) && s@ == d,
            None => r is None,
        },
{
    proof {
        reveal_strlit(".git");
        reveal_strlit("fairlead");
    }
    if git_is_dir {
        let g = crate::config::load::join_path(root, ".git");
        return Some(crate::config::load::join_path(g.as_str(), "fairlead"));
    }
    let text = match git_file {
        Some(t) => t,
        None => return None,
    };
    let ls = crate::text::lines(text);
    let ghost lv = ls@.map_values(|l: String| l@);
    let mut i: usize = 0;
    proof {
        reveal_strlit("gitdir:");
        assert(lv.skip(0) =~= lv);
    }
    while i < ls.len()
        invariant
            i <= ls.len(),
            lv == ls@.map_values(|l: String| l@),
            lv == crate::text::lines_of(text@),
            crate::replay::extract::str_opt(git_file) == Some(text@),
            !git_is_dir,
            gitdir_from(lv) == gitdir_from(lv.skip(i as int)),
        decreases ls.len() - i,
    {
        proof {
            reveal_strlit("gitdir:");
            assert(lv.skip(i as int)[0] == ls@[i as int]@);
            assert(lv.skip(i as int).drop_first() =~= lv.skip(i as int + 1));
        }
        if crate::text::starts_with_lit(&chars_of(ls[i].as_str()), "gitdir:") {
            let g = trimmed_rest(ls[i].as_str());
            proof {
                reveal_strlit("gitdir:");
                reveal_strlit("fairlead");
                assert("gitdir:"@.len() == 7);
                assert(gitdir_from(lv.skip(i as int)) == Some(crate::text::trim(ls@[i as int]@.skip(7))));
            }
            let joined = if g.unicode_len() > 0 && g.get_char(0) == '/' {
                copy_g(&g)
            } else {
                crate::config::load::join_path(root, g.as_str())
            };
            return Some(crate::config::load::join_path(joined.as_str(), "fairlead"));
        }
        i = i + 1;
    }
    None
}

fn copy_g(g: &String) -> (r: String)
    ensures
        r@ == g@,
{
    crate::text::copy_str(g.as_str())
}

} // verus!
