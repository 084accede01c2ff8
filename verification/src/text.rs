//! Text as sequences of characters: the few string operations the rest of
//! the library builds on, each with the sequence it produces.
use vstd::prelude::*;

verus! {

/// `String::push`: appends one character.
#[verifier::external_body]
pub fn push_char(s: &mut String, c: char)
    ensures
        final(s)@ == old(s)@.push(c),
{
    s.push(c);
}

/// The characters of `s`, in order.
pub fn chars_of(s: &str) -> (v: Vec<char>)
    ensures
        v@ == s@,
{
    let mut v: Vec<char> = Vec::new();
    for c in it: s.chars()
        invariant
            v@ == it.seq().take(it.index() as int),
            it.seq() == s@,
    {
        v.push(c);
        proof {
            assert(it.seq().take(it.index() as int + 1) =~= v@);
        }
    }
    proof {
        assert(v@ =~= s@);
    }
    v
}

} // verus!

verus! {

/// The characters of `v` as a string.
pub fn string_of(v: &Vec<char>) -> (s: String)
    ensures
        s@ == v@,
{
    let mut s = String::new();
    let mut i: usize = 0;
    while i < v.len()
        invariant
            i <= v.len(),
            s@ == v@.take(i as int),
        decreases v.len() - i,
    {
        push_char(&mut s, v[i]);
        proof {
            assert(v@.take(i as int + 1) =~= v@.take(i as int).push(v@[i as int]));
        }
        i = i + 1;
    }
    proof {
        assert(v@.take(v.len() as int) =~= v@);
    }
    s
}

/// A copy of `s`.
pub fn copy_str(s: &str) -> (r: String)
    ensures
        r@ == s@,
{
    s.to_owned()
}

/// Lexicographic order on characters, which is the order Rust gives
/// `str`: UTF-8 keeps code point order byte for byte. `-1`, `0` or `1`.
pub open spec fn seq_order(a: Seq<char>, b: Seq<char>) -> int
    decreases a.len(),
{
    if a.len() == 0 {
        if b.len() == 0 { 0 } else { -1 }
    } else if b.len() == 0 {
        1
    } else if a[0] < b[0] {
        -1
    } else if a[0] > b[0] {
        1
    } else {
        seq_order(a.drop_first(), b.drop_first())
    }
}

proof fn lemma_seq_order_skip(a: Seq<char>, b: Seq<char>, i: int)
    requires
        0 <= i <= a.len(),
        i <= b.len(),
        a.take(i) == b.take(i),
    ensures
        seq_order(a, b) == seq_order(a.skip(i), b.skip(i)),
    decreases i,
{
    if i > 0 {
        assert(a[0] == a.take(i)[0]);
        assert(b[0] == b.take(i)[0]);
        assert(a.drop_first().take(i - 1) =~= a.take(i).drop_first());
        assert(b.drop_first().take(i - 1) =~= b.take(i).drop_first());
        lemma_seq_order_skip(a.drop_first(), b.drop_first(), i - 1);
        assert(a.drop_first().skip(i - 1) =~= a.skip(i));
        assert(b.drop_first().skip(i - 1) =~= b.skip(i));
    } else {
        assert(a.skip(0) =~= a);
        assert(b.skip(0) =~= b);
    }
}

/// The order is total: two texts are equal exactly when neither comes
/// first, and swapping them flips the answer.
pub proof fn lemma_seq_order_basics(a: Seq<char>, b: Seq<char>)
    ensures
        seq_order(a, b) == 0 <==> a == b,
        seq_order(a, b) == -seq_order(b, a),
        -1 <= seq_order(a, b) <= 1,
    decreases a.len(),
{
    if a.len() > 0 && b.len() > 0 {
        lemma_seq_order_basics(a.drop_first(), b.drop_first());
        if a[0] == b[0] && a.drop_first() == b.drop_first() {
            assert(a =~= seq![a[0]] + a.drop_first());
            assert(b =~= seq![b[0]] + b.drop_first());
        }
        if a == b {
            assert(a.drop_first() == b.drop_first());
        }
    } else if a.len() == 0 && b.len() == 0 {
        assert(a =~= b);
    }
}

/// The order is transitive.
pub proof fn lemma_seq_order_trans(a: Seq<char>, b: Seq<char>, c: Seq<char>)
    requires
        seq_order(a, b) < 0,
        seq_order(b, c) < 0,
    ensures
        seq_order(a, c) < 0,
    decreases a.len(),
{
    if a.len() > 0 && b.len() > 0 && c.len() > 0 && a[0] == b[0] && b[0] == c[0] {
        lemma_seq_order_trans(a.drop_first(), b.drop_first(), c.drop_first());
    }
}

/// Whether two strings are equal.
pub fn same_str(a: &str, b: &str) -> (r: bool)
    ensures
        r == (a@ == b@),
{
    let c = compare_str(a, b);
    proof {
        lemma_seq_order_basics(a@, b@);
    }
    c == 0
}

/// Compares two strings as `str::cmp` does: `-1`, `0` or `1`.
pub fn compare_str(a: &str, b: &str) -> (r: i8)
    ensures
        r as int == seq_order(a@, b@),
{
    let x = chars_of(a);
    let y = chars_of(b);
    let mut i: usize = 0;
    while i < x.len() && i < y.len()
        invariant
            x@ == a@,
            y@ == b@,
            i <= x.len(),
            i <= y.len(),
            x@.take(i as int) == y@.take(i as int),
        decreases x.len() - i,
    {
        if x[i] < y[i] {
            proof {
                lemma_seq_order_skip(x@, y@, i as int);
            }
            return -1;
        }
        if x[i] > y[i] {
            proof {
                lemma_seq_order_skip(x@, y@, i as int);
            }
            return 1;
        }
        proof {
            assert(x@.take(i as int + 1) =~= x@.take(i as int).push(x@[i as int]));
            assert(y@.take(i as int + 1) =~= y@.take(i as int).push(y@[i as int]));
        }
        i = i + 1;
    }
    proof {
        lemma_seq_order_skip(x@, y@, i as int);
    }
    if i < x.len() {
        1
    } else if i < y.len() {
        -1
    } else {
        0
    }
}

} // verus!

verus! {

/// The decimal digits of `n`, most significant first, with no leading zero.
pub open spec fn decimal(n: nat) -> Seq<char>
    decreases n,
{
    if n < 10 {
        seq![digit_char(n)]
    } else {
        decimal(n / 10).push(digit_char(n % 10))
    }
}

/// The ASCII digit for `d`, for `d` under ten.
pub open spec fn digit_char(d: nat) -> char {
    if d == 0 { '0' }
    else if d == 1 { '1' }
    else if d == 2 { '2' }
    else if d == 3 { '3' }
    else if d == 4 { '4' }
    else if d == 5 { '5' }
    else if d == 6 { '6' }
    else if d == 7 { '7' }
    else if d == 8 { '8' }
    else { '9' }
}

fn digit(d: u64) -> (c: char)
    requires
        d < 10,
    ensures
        c == digit_char(d as nat),
{
    if d == 0 { '0' }
    else if d == 1 { '1' }
    else if d == 2 { '2' }
    else if d == 3 { '3' }
    else if d == 4 { '4' }
    else if d == 5 { '5' }
    else if d == 6 { '6' }
    else if d == 7 { '7' }
    else if d == 8 { '8' }
    else { '9' }
}

/// Appends the decimal form of `n`.
pub fn push_decimal(s: &mut String, n: u64)
    ensures
        final(s)@ == old(s)@ + decimal(n as nat),
    decreases n,
{
    if n < 10 {
        push_char(s, digit(n));
        proof {
            assert(old(s)@.push(digit_char(n as nat)) =~= old(s)@ + decimal(n as nat));
        }
    } else {
        push_decimal(s, n / 10);
        push_char(s, digit(n % 10));
        proof {
            assert(decimal(n as nat) == decimal((n / 10) as nat).push(digit_char((n % 10) as nat)));
            assert(old(s)@ + decimal((n / 10) as nat).push(digit_char((n % 10) as nat))
                =~= (old(s)@ + decimal((n / 10) as nat)).push(digit_char((n % 10) as nat)));
        }
    }
}

/// The decimal form of `n`.
pub fn decimal_string(n: u64) -> (s: String)
    ensures
        s@ == decimal(n as nat),
{
    let mut s = String::new();
    push_decimal(&mut s, n);
    proof {
        assert(Seq::<char>::empty() + decimal(n as nat) =~= decimal(n as nat));
    }
    s
}

/// Appends `t`.
pub fn push_str(s: &mut String, t: &str)
    ensures
        final(s)@ == old(s)@ + t@,
{
    s.append(t);
}

} // verus!

verus! {

/// The position of the last `c` in `s`.
pub open spec fn last_index(s: Seq<char>, c: char) -> Option<int>
    decreases s.len(),
{
    if s.len() == 0 {
        None
    } else if s.last() == c {
        Some(s.len() - 1)
    } else {
        last_index(s.drop_last(), c)
    }
}

/// The position of the first `c` in `s`.
pub open spec fn first_index(s: Seq<char>, c: char) -> Option<int>
    decreases s.len(),
{
    if s.len() == 0 {
        None
    } else if s[0] == c {
        Some(0)
    } else {
        match first_index(s.drop_first(), c) {
            Some(i) => Some(i + 1),
            None => None,
        }
    }
}

pub proof fn lemma_last_index(s: Seq<char>, c: char)
    ensures
        last_index(s, c) matches Some(i) ==> 0 <= i < s.len() && s[i] == c
            && forall|j: int| i < j < s.len() ==> s[j] != c,
        last_index(s, c) is None ==> forall|j: int| 0 <= j < s.len() ==> s[j] != c,
    decreases s.len(),
{
    if s.len() > 0 && s.last() != c {
        lemma_last_index(s.drop_last(), c);
        assert forall|j: int| 0 <= j < s.len() - 1 implies s[j] == s.drop_last()[j] by {}
    }
}

pub proof fn lemma_first_index(s: Seq<char>, c: char)
    ensures
        first_index(s, c) matches Some(i) ==> 0 <= i < s.len() && s[i] == c
            && forall|j: int| 0 <= j < i ==> s[j] != c,
        first_index(s, c) is None ==> forall|j: int| 0 <= j < s.len() ==> s[j] != c,
    decreases s.len(),
{
    if s.len() > 0 && s[0] != c {
        lemma_first_index(s.drop_first(), c);
        assert forall|j: int| 1 <= j < s.len() implies s[j] == s.drop_first()[j - 1] by {}
    }
}

/// Finds the last `c` in `v`.
pub fn rfind_char(v: &Vec<char>, c: char) -> (r: Option<usize>)
    ensures
        match r {
            Some(i) => last_index(v@, c) == Some(i as int),
            None => last_index(v@, c) is None,
        },
{
    let mut i: usize = v.len();
    proof {
        lemma_last_index_take(v@, c);
    }
    while i > 0
        invariant
            i <= v.len(),
            last_index(v@, c) == last_index(v@.take(i as int), c),
        decreases i,
    {
        if v[i - 1] == c {
            return Some(i - 1);
        }
        proof {
            assert(v@.take(i as int).drop_last() =~= v@.take(i as int - 1));
        }
        i = i - 1;
    }
    None
}

proof fn lemma_last_index_take(s: Seq<char>, c: char)
    ensures
        last_index(s, c) == last_index(s.take(s.len() as int), c),
{
    assert(s.take(s.len() as int) =~= s);
}

/// Finds the first `c` in `v`.
pub fn find_char(v: &Vec<char>, c: char) -> (r: Option<usize>)
    ensures
        match r {
            Some(i) => first_index(v@, c) == Some(i as int),
            None => first_index(v@, c) is None,
        },
{
    proof {
        lemma_first_index(v@, c);
    }
    let mut i: usize = 0;
    while i < v.len()
        invariant
            i <= v.len(),
            forall|j: int| 0 <= j < i ==> v@[j] != c,
        decreases v.len() - i,
    {
        if v[i] == c {
            proof {
                lemma_first_index_at(v@, c, i as int);
            }
            return Some(i);
        }
        i = i + 1;
    }
    None
}

pub proof fn lemma_first_index_at(s: Seq<char>, c: char, i: int)
    requires
        0 <= i < s.len(),
        s[i] == c,
        forall|j: int| 0 <= j < i ==> s[j] != c,
    ensures
        first_index(s, c) == Some(i),
    decreases i,
{
    if i > 0 {
        lemma_first_index_at(s.drop_first(), c, i - 1);
    }
}

/// The characters `v[from..to]` as a string.
pub fn string_range(v: &Vec<char>, from: usize, to: usize) -> (s: String)
    requires
        from <= to <= v.len(),
    ensures
        s@ == v@.subrange(from as int, to as int),
{
    let mut s = String::new();
    let mut i: usize = from;
    while i < to
        invariant
            from <= i <= to <= v.len(),
            s@ == v@.subrange(from as int, i as int),
        decreases to - i,
    {
        push_char(&mut s, v[i]);
        proof {
            assert(v@.subrange(from as int, i as int + 1) =~= v@.subrange(from as int, i as int).push(v@[i as int]));
        }
        i = i + 1;
    }
    s
}

/// Whether `v` starts with `p`.
pub fn starts_with_at(v: &Vec<char>, at: usize, p: &str) -> (r: bool)
    ensures
        r == (at <= v.len() && p@.len() <= v.len() - at && v@.subrange(at as int, at + p@.len()) == p@),
{
    let q = chars_of(p);
    if at > v.len() || q.len() > v.len() - at {
        return false;
    }
    let mut i: usize = 0;
    while i < q.len()
        invariant
            q@ == p@,
            at + q.len() <= v.len(),
            i <= q.len(),
            forall|j: int| 0 <= j < i ==> v@[at + j] == q@[j],
        decreases q.len() - i,
    {
        if v[at + i] != q[i] {
            proof {
                assert(v@.subrange(at as int, at + p@.len())[i as int] == v@[at + i]);
            }
            return false;
        }
        i = i + 1;
    }
    proof {
        assert(v@.subrange(at as int, at + p@.len()) =~= p@);
    }
    true
}

} // verus!

verus! {

/// `s` cut at every `c`, as `str::split` cuts it: always at least one piece.
pub open spec fn split(s: Seq<char>, c: char) -> Seq<Seq<char>>
    decreases s.len(),
{
    if s.len() == 0 {
        seq![Seq::empty()]
    } else {
        let p = split(s.drop_last(), c);
        if s.last() == c {
            p.push(Seq::empty())
        } else {
            p.update(p.len() - 1, p.last().push(s.last()))
        }
    }
}

pub proof fn lemma_split_len(s: Seq<char>, c: char)
    ensures
        split(s, c).len() >= 1,
    decreases s.len(),
{
    if s.len() > 0 {
        lemma_split_len(s.drop_last(), c);
    }
}

/// The views of a list of character vectors.
pub open spec fn views(v: Seq<Vec<char>>) -> Seq<Seq<char>> {
    v.map_values(|x: Vec<char>| x@)
}

/// `pieces` joined with `sep` between each two.
pub open spec fn join(pieces: Seq<Seq<char>>, sep: Seq<char>) -> Seq<char>
    decreases pieces.len(),
{
    if pieces.len() == 0 {
        Seq::empty()
    } else if pieces.len() == 1 {
        pieces[0]
    } else {
        join(pieces.drop_last(), sep) + sep + pieces.last()
    }
}

/// Cuts `v` at every `c`.
pub fn split_chars(v: &Vec<char>, c: char) -> (r: Vec<Vec<char>>)
    ensures
        views(r@) == split(v@, c),
        r.len() >= 1,
{
    let mut out: Vec<Vec<char>> = Vec::new();
    let mut cur: Vec<char> = Vec::new();
    let mut i: usize = 0;
    while i < v.len()
        invariant
            i <= v.len(),
            views(out@).push(cur@) == split(v@.take(i as int), c),
        decreases v.len() - i,
    {
        proof {
            assert(v@.take(i as int + 1).drop_last() =~= v@.take(i as int));
            lemma_split_len(v@.take(i as int), c);
        }
        if v[i] == c {
            let ghost before = views(out@);
            let done = cur;
            out.push(done);
            cur = Vec::new();
            proof {
                assert(views(out@) =~= before.push(done@));
                assert(views(out@).push(cur@) =~= split(v@.take(i as int + 1), c));
            }
        } else {
            let ghost before = views(out@);
            cur.push(v[i]);
            proof {
                assert(views(out@) =~= before);
                assert(views(out@).push(cur@) =~= split(v@.take(i as int + 1), c));
            }
        }
        i = i + 1;
    }
    let ghost before = views(out@);
    out.push(cur);
    proof {
        assert(views(out@) =~= before.push(cur@));
        assert(v@.take(i as int) =~= v@);
    }
    out
}

/// Joins `pieces` with `sep` between each two.
pub fn join_chars(pieces: &Vec<Vec<char>>, sep: &Vec<char>) -> (r: Vec<char>)
    ensures
        r@ == join(views(pieces@), sep@),
{
    let mut out: Vec<char> = Vec::new();
    let mut i: usize = 0;
    while i < pieces.len()
        invariant
            i <= pieces.len(),
            out@ == join(views(pieces@.take(i as int)), sep@),
        decreases pieces.len() - i,
    {
        proof {
            assert(views(pieces@.take(i as int + 1)).drop_last() =~= views(pieces@.take(i as int)));
        }
        if i > 0 {
            let mut j: usize = 0;
            while j < sep.len()
                invariant
                    j <= sep.len(),
                    out@ == join(views(pieces@.take(i as int)), sep@) + sep@.take(j as int),
                decreases sep.len() - j,
            {
                out.push(sep[j]);
                proof {
                    assert(sep@.take(j as int + 1) =~= sep@.take(j as int).push(sep@[j as int]));
                }
                j = j + 1;
            }
        }
        let ghost mid = out@;
        let mut j: usize = 0;
        while j < pieces[i].len()
            invariant
                j <= pieces@[i as int].len(),
                i < pieces.len(),
                out@ == mid + pieces@[i as int]@.take(j as int),
            decreases pieces@[i as int].len() - j,
        {
            out.push(pieces[i][j]);
            proof {
                assert(pieces@[i as int]@.take(j as int + 1) =~= pieces@[i as int]@.take(j as int).push(pieces@[i as int]@[j as int]));
            }
            j = j + 1;
        }
        proof {
            assert(pieces@[i as int]@.take(j as int) =~= pieces@[i as int]@);
            assert(sep@.take(sep.len() as int) =~= sep@);
            if i == 0 {
                assert(views(pieces@.take(1))[0] == pieces@[0]@);
                assert(out@ =~= join(views(pieces@.take(1)), sep@));
            } else {
                assert(views(pieces@.take(i as int + 1)).last() == pieces@[i as int]@);
                assert(out@ =~= join(views(pieces@.take(i as int + 1)), sep@));
            }
        }
        i = i + 1;
    }
    proof {
        assert(pieces@.take(i as int) =~= pieces@);
    }
    out
}

} // verus!

verus! {

/// Whether `v` spells `s`.
pub fn eq_lit(v: &Vec<char>, s: &str) -> (r: bool)
    ensures
        r == (v@ == s@),
{
    let ok = starts_with_at(v, 0, s);
    proof {
        if ok {
            assert(v@.subrange(0, s@.len() as int) == s@);
        }
    }
    if ok && v.len() == s.unicode_len() {
        proof {
            assert(v@ =~= v@.subrange(0, s@.len() as int));
        }
        true
    } else {
        proof {
            if v@ == s@ {
                assert(v@.subrange(0, s@.len() as int) =~= v@);
            }
        }
        false
    }
}

/// Whether `v` ends with `s`.
pub fn ends_with_lit(v: &Vec<char>, s: &str) -> (r: bool)
    ensures
        r == s@.is_suffix_of(v@),
{
    let n = s.unicode_len();
    if n > v.len() {
        return false;
    }
    let ok = starts_with_at(v, v.len() - n, s);
    proof {
        if ok {
            assert(v@.subrange(v@.len() - s@.len(), v@.len() as int) =~= s@);
        } else if s@.is_suffix_of(v@) {
            assert(v@.subrange(v@.len() - s@.len(), v@.len() as int) =~= s@);
        }
    }
    ok
}

/// Whether `v` starts with `s`.
pub fn starts_with_lit(v: &Vec<char>, s: &str) -> (r: bool)
    ensures
        r == s@.is_prefix_of(v@),
{
    let ok = starts_with_at(v, 0, s);
    proof {
        if ok {
            assert(v@.subrange(0, s@.len() as int) =~= s@);
        } else if s@.is_prefix_of(v@) {
            assert(v@.subrange(0, s@.len() as int) =~= s@);
        }
    }
    ok
}

/// A copy of the characters `v[from..to]`.
pub fn chars_range(v: &Vec<char>, from: usize, to: usize) -> (r: Vec<char>)
    requires
        from <= to <= v.len(),
    ensures
        r@ == v@.subrange(from as int, to as int),
{
    let mut r: Vec<char> = Vec::new();
    let mut i: usize = from;
    while i < to
        invariant
            from <= i <= to <= v.len(),
            r@ == v@.subrange(from as int, i as int),
        decreases to - i,
    {
        r.push(v[i]);
        proof {
            assert(v@.subrange(from as int, i as int + 1) =~= v@.subrange(from as int, i as int).push(v@[i as int]));
        }
        i = i + 1;
    }
    r
}

} // verus!

verus! {

/// How many bytes `c` takes in UTF-8.
pub open spec fn utf8_len(c: char) -> nat {
    if (c as u32) < 0x80 {
        1
    } else if (c as u32) < 0x800 {
        2
    } else if (c as u32) < 0x10000 {
        3
    } else {
        4
    }
}

/// The characters of the first `n` bytes of `s`, as `str::get(..n)` gives
/// them: none where `s` is shorter or byte `n` falls inside a character.
pub open spec fn byte_prefix(s: Seq<char>, n: nat) -> Option<Seq<char>>
    decreases s.len(),
{
    if n == 0 {
        Some(Seq::empty())
    } else if s.len() == 0 || utf8_len(s[0]) > n {
        None
    } else {
        match byte_prefix(s.drop_first(), (n - utf8_len(s[0])) as nat) {
            Some(p) => Some(seq![s[0]] + p),
            None => None,
        }
    }
}

fn char_width(c: char) -> (r: usize)
    ensures
        r as nat == utf8_len(c),
{
    let u = c as u32;
    if u < 0x80 {
        1
    } else if u < 0x800 {
        2
    } else if u < 0x10000 {
        3
    } else {
        4
    }
}

/// How many characters the first `n` bytes of `v` hold, if byte `n` is a
/// character boundary within `v`.
pub fn byte_prefix_len(v: &Vec<char>, n: usize) -> (r: Option<usize>)
    ensures
        match byte_prefix(v@, n as nat) {
            Some(p) => r == Some(p.len() as usize) && p.len() <= v@.len() && p == v@.take(p.len() as int),
            None => r is None,
        },
{
    let mut i: usize = 0;
    let mut left: usize = n;
    proof {
        assert(v@.skip(0) =~= v@);
        match byte_prefix(v@, n as nat) {
            Some(p) => {
                assert(v@.take(0) + p =~= p);
            },
            None => {},
        }
    }
    while i < v.len() && left > 0
        invariant
            i <= v.len(),
            left <= n,
            byte_prefix(v@, n as nat) == match byte_prefix(v@.skip(i as int), left as nat) {
                Some(p) => Some(v@.take(i as int) + p),
                None => None::<Seq<char>>,
            },
        decreases v.len() - i,
    {
        let w = char_width(v[i]);
        proof {
            assert(v@.skip(i as int)[0] == v@[i as int]);
            assert(v@.skip(i as int).drop_first() =~= v@.skip(i as int + 1));
            assert(v@.take(i as int + 1) =~= v@.take(i as int).push(v@[i as int]));
        }
        if w > left {
            return None;
        }
        proof {
            match byte_prefix(v@.skip(i as int + 1), (left - w) as nat) {
                Some(p) => {
                    assert(v@.take(i as int) + (seq![v@[i as int]] + p) =~= v@.take(i as int + 1) + p);
                },
                None => {},
            }
        }
        left = left - w;
        i = i + 1;
    }
    if left > 0 {
        proof {
            assert(v@.skip(i as int).len() == 0);
        }
        None
    } else {
        proof {
            assert(v@.take(i as int) + Seq::<char>::empty() =~= v@.take(i as int));
        }
        Some(i)
    }
}

/// The value of a run of ASCII digits.
pub open spec fn digits_value(q: Seq<char>) -> int
    decreases q.len(),
{
    if q.len() == 0 {
        0
    } else {
        digits_value(q.drop_last()) * 10 + (q.last() as int - '0' as int)
    }
}

pub open spec fn all_digits(q: Seq<char>) -> bool {
    forall|i: int| 0 <= i < q.len() ==> '0' <= #[trigger] q[i] <= '9'
}

/// `s` read as `str::parse::<i64>` reads it: an optional sign, then one or
/// more ASCII digits, and a value that fits.
pub open spec fn parse_i64(s: Seq<char>) -> Option<int> {
    let neg = s.len() > 0 && s[0] == '-';
    let body = if s.len() > 0 && (s[0] == '-' || s[0] == '+') { s.drop_first() } else { s };
    if body.len() == 0 || !all_digits(body) {
        None
    } else {
        let v = if neg { -digits_value(body) } else { digits_value(body) };
        if i64::MIN <= v <= i64::MAX { Some(v) } else { None }
    }
}

pub proof fn lemma_digits_value_nonneg(q: Seq<char>)
    requires
        all_digits(q),
    ensures
        digits_value(q) >= 0,
    decreases q.len(),
{
    if q.len() > 0 {
        lemma_digits_value_nonneg(q.drop_last());
    }
}

/// A run of digits is worth at least any prefix of it.
pub proof fn lemma_digits_prefix_grows(q: Seq<char>, i: int)
    requires
        all_digits(q),
        0 <= i <= q.len(),
    ensures
        digits_value(q.take(i)) <= digits_value(q),
    decreases q.len() - i,
{
    if i < q.len() {
        lemma_digits_prefix_grows(q, i + 1);
        assert(q.take(i + 1).drop_last() =~= q.take(i));
        lemma_digits_value_nonneg(q.take(i));
        assert(q.take(i + 1).last() == q[i]);
        assert(digits_value(q.take(i)) <= digits_value(q.take(i + 1))) by (nonlinear_arith)
            requires
                digits_value(q.take(i + 1)) == digits_value(q.take(i)) * 10 + (q[i] as int - '0' as int),
                digits_value(q.take(i)) >= 0,
                '0' <= q[i] <= '9',
        {
        }
    } else {
        assert(q.take(i) =~= q);
    }
}

/// Reads `v` as `str::parse::<i64>` does.
pub fn parse_i64_chars(v: &Vec<char>) -> (r: Option<i64>)
    ensures
        match parse_i64(v@) {
            Some(x) => r == Some(x as i64),
            None => r is None,
        },
{
    let neg = v.len() > 0 && v[0] == '-';
    let start: usize = if v.len() > 0 && (v[0] == '-' || v[0] == '+') { 1 } else { 0 };
    let ghost body = if v@.len() > 0 && (v@[0] == '-' || v@[0] == '+') { v@.drop_first() } else { v@ };
    proof {
        assert(body =~= v@.skip(start as int));
    }
    if start >= v.len() {
        return None;
    }
    // the magnitude, up to one past what an i64 can hold
    let limit: u64 = 9_223_372_036_854_775_808;
    let mut value: u64 = 0;
    let mut i: usize = start;
    while i < v.len()
        invariant
            start <= i <= v.len(),
            body == v@.skip(start as int),
            body == if v@.len() > 0 && (v@[0] == '-' || v@[0] == '+') { v@.drop_first() } else { v@ },
            neg == (v@.len() > 0 && v@[0] == '-'),
            limit == 9_223_372_036_854_775_808u64,
            value <= limit,
            all_digits(v@.subrange(start as int, i as int)),
            value == digits_value(v@.subrange(start as int, i as int)),
        decreases v.len() - i,
    {
        let c = v[i];
        proof {
            assert(v@.subrange(start as int, i as int + 1).drop_last() =~= v@.subrange(start as int, i as int));
        }
        if c < '0' || c > '9' {
            proof {
                assert(body[i - start] == c);
                assert(!all_digits(body));
            }
            return None;
        }
        let d = (c as u32 - '0' as u32) as u64;
        assert(d <= 9);
        if value > (limit - d) / 10 {
            proof {
                let q = v@.subrange(start as int, v.len() as int);
                let k = (i - start) as int + 1;
                assert(q.take(k) =~= v@.subrange(start as int, i as int + 1));
                assert(q.take(k).drop_last() =~= v@.subrange(start as int, i as int));
                assert(q.take(k).last() == c);
                assert(digits_value(q.take(k)) == value * 10 + d);
                assert(value * 10 + d > limit) by (nonlinear_arith)
                    requires
                        value > (limit - d) / 10,
                        d <= 9,
                        limit == 9_223_372_036_854_775_808u64,
                ;
                assert(all_digits(q.take(k)));
                lemma_big_stays_big(q, k, limit as int);
                assert(v@.subrange(start as int, i as int + 1) =~= v@.subrange(start as int, v.len() as int).take((i - start) as int + 1));
                assert(v@.subrange(start as int, v.len() as int) =~= body);
            }
            return None;
        }
        value = value * 10 + d;
        i = i + 1;
    }
    proof {
        assert(v@.subrange(start as int, v.len() as int) =~= body);
    }
    if neg {
        if value == limit {
            Some(-9_223_372_036_854_775_807 - 1)
        } else {
            Some(-(value as i64))
        }
    } else {
        if value == limit {
            None
        } else {
            Some(value as i64)
        }
    }
}

/// Once a digit prefix is over `limit`, the whole run is, or it is not all
/// digits.
proof fn lemma_big_stays_big(q: Seq<char>, k: int, limit: int)
    requires
        0 < k <= q.len(),
        limit >= 0,
        all_digits(q.take(k)),
        digits_value(q.take(k)) > limit,
    ensures
        all_digits(q) ==> digits_value(q) > limit,
    decreases q.len() - k,
{
    if k < q.len() {
        if all_digits(q) {
            assert(q.take(k + 1).drop_last() =~= q.take(k));
            assert(all_digits(q.take(k + 1)));
            lemma_big_stays_big(q, k + 1, limit);
        }
    } else {
        assert(q.take(k) =~= q);
    }
}

/// `count` zeros.
pub open spec fn zeros(count: int) -> Seq<char> {
    Seq::new(if count > 0 { count as nat } else { 0 }, |i: int| '0')
}

/// `n` as `format!("{n:0w$}")` writes it: at least `w` characters, the sign
/// first and zeros after it.
pub open spec fn padded(n: int, w: nat) -> Seq<char> {
    if n >= 0 {
        zeros(w - decimal(n as nat).len()) + decimal(n as nat)
    } else {
        seq!['-'] + zeros(w - 1 - decimal((-n) as nat).len()) + decimal((-n) as nat)
    }
}

/// Appends `n` zero-padded to `w` characters.
pub fn push_padded(s: &mut String, n: i64, w: usize)
    requires
        n > i64::MIN,
    ensures
        final(s)@ == old(s)@ + padded(n as int, w as nat),
{
    let digits = if n >= 0 { decimal_string(n as u64) } else { decimal_string((-n) as u64) };
    let ghost dv = digits@;
    let len = digits.unicode_len();
    let mut fill: usize = if n >= 0 {
        if w > len { w - len } else { 0 }
    } else {
        if w > len && w - len > 1 { w - len - 1 } else { 0 }
    };
    if n < 0 {
        push_char(s, '-');
    }
    let ghost start = s@;
    let mut k: usize = 0;
    while k < fill
        invariant
            k <= fill,
            s@ == start + zeros(k as int),
        decreases fill - k,
    {
        push_char(s, '0');
        proof {
            assert(start + zeros(k as int + 1) =~= (start + zeros(k as int)).push('0'));
        }
        k = k + 1;
    }
    push_str(s, digits.as_str());
    proof {
        if n >= 0 {
            assert(zeros(fill as int) =~= zeros(w - decimal(n as nat).len()));
            assert(old(s)@ + padded(n as int, w as nat) =~= start + zeros(fill as int) + dv);
        } else {
            assert(zeros(fill as int) =~= zeros(w - 1 - decimal((-n) as nat).len()));
            assert(old(s)@ + padded(n as int, w as nat) =~= start + zeros(fill as int) + dv);
        }
    }
}

/// The pieces of a text are no longer than the text.
pub proof fn lemma_split_pieces_short(s: Seq<char>, c: char)
    ensures
        forall|i: int| 0 <= i < split(s, c).len() ==> (#[trigger] split(s, c)[i]).len() <= s.len(),
    decreases s.len(),
{
    if s.len() > 0 {
        lemma_split_pieces_short(s.drop_last(), c);
        lemma_split_len(s.drop_last(), c);
    }
}

} // verus!

verus! {

/// Unicode `White_Space`, which `char::is_whitespace` and `str::trim` use.
pub open spec fn is_white(c: char) -> bool {
    ||| ('\u{9}' <= c <= '\u{d}')
    ||| c == ' '
    ||| c == '\u{85}'
    ||| c == '\u{a0}'
    ||| c == '\u{1680}'
    ||| ('\u{2000}' <= c <= '\u{200a}')
    ||| c == '\u{2028}'
    ||| c == '\u{2029}'
    ||| c == '\u{202f}'
    ||| c == '\u{205f}'
    ||| c == '\u{3000}'
}

pub fn is_white_char(c: char) -> (r: bool)
    ensures
        r == is_white(c),
{
    ('\u{9}' <= c && c <= '\u{d}') || c == ' ' || c == '\u{85}' || c == '\u{a0}' || c == '\u{1680}'
        || ('\u{2000}' <= c && c <= '\u{200a}') || c == '\u{2028}' || c == '\u{2029}' || c == '\u{202f}'
        || c == '\u{205f}' || c == '\u{3000}'
}

/// How many leading characters of `s` are white space.
pub open spec fn lead_white(s: Seq<char>) -> nat
    decreases s.len(),
{
    if s.len() > 0 && is_white(s[0]) { 1 + lead_white(s.drop_first()) } else { 0 }
}

/// How many trailing characters of `s` are white space.
pub open spec fn trail_white(s: Seq<char>) -> nat
    decreases s.len(),
{
    if s.len() > 0 && is_white(s.last()) { 1 + trail_white(s.drop_last()) } else { 0 }
}

/// `str::trim_start`.
pub open spec fn trim_start(s: Seq<char>) -> Seq<char> {
    s.skip(lead_white(s) as int)
}

/// `str::trim_end`.
pub open spec fn trim_end(s: Seq<char>) -> Seq<char> {
    s.take(s.len() - trail_white(s))
}

/// `str::trim`.
pub open spec fn trim(s: Seq<char>) -> Seq<char> {
    trim_end(trim_start(s))
}

pub proof fn lemma_lead_white(s: Seq<char>)
    ensures
        lead_white(s) <= s.len(),
        forall|i: int| 0 <= i < lead_white(s) ==> is_white(#[trigger] s[i]),
        lead_white(s) < s.len() ==> !is_white(s[lead_white(s) as int]),
    decreases s.len(),
{
    if s.len() > 0 && is_white(s[0]) {
        lemma_lead_white(s.drop_first());
        assert forall|i: int| 0 <= i < lead_white(s) implies is_white(#[trigger] s[i]) by {
            if i > 0 {
                assert(s[i] == s.drop_first()[i - 1]);
            }
        }
    }
}

pub proof fn lemma_trail_white(s: Seq<char>)
    ensures
        trail_white(s) <= s.len(),
        forall|i: int| s.len() - trail_white(s) <= i < s.len() ==> is_white(#[trigger] s[i]),
        trail_white(s) < s.len() ==> !is_white(s[s.len() - trail_white(s) - 1]),
    decreases s.len(),
{
    if s.len() > 0 && is_white(s.last()) {
        lemma_trail_white(s.drop_last());
        assert forall|i: int| s.len() - trail_white(s) <= i < s.len() implies is_white(#[trigger] s[i]) by {
            if i < s.len() - 1 {
                assert(s[i] == s.drop_last()[i]);
            }
        }
    }
}

/// How many leading characters of `v`, from `from`, are white space.
pub fn skip_white(v: &Vec<char>, from: usize) -> (r: usize)
    requires
        from <= v.len(),
    ensures
        r == from + lead_white(v@.skip(from as int)),
        r <= v.len(),
{
    let mut i = from;
    proof {
        lemma_lead_white(v@.skip(from as int));
    }
    while i < v.len() && is_white_char(v[i])
        invariant
            from <= i <= v.len(),
            lead_white(v@.skip(from as int)) == (i - from) + lead_white(v@.skip(i as int)),
        decreases v.len() - i,
    {
        proof {
            assert(v@.skip(i as int).drop_first() =~= v@.skip(i as int + 1));
        }
        i = i + 1;
    }
    i
}

/// Where the trailing white space of `v[..to]` starts.
pub fn trim_white_end(v: &Vec<char>, to: usize) -> (r: usize)
    requires
        to <= v.len(),
    ensures
        r == to - trail_white(v@.take(to as int)),
{
    let mut j = to;
    while j > 0 && is_white_char(v[j - 1])
        invariant
            j <= to <= v.len(),
            trail_white(v@.take(to as int)) == (to - j) + trail_white(v@.take(j as int)),
        decreases j,
    {
        proof {
            assert(v@.take(j as int).drop_last() =~= v@.take(j as int - 1));
        }
        j = j - 1;
    }
    j
}

/// Whether `s` holds only white space, so that `trim` leaves nothing.
pub fn is_blank(s: &str) -> (r: bool)
    ensures
        r == (trim(s@).len() == 0),
{
    let v = chars_of(s);
    let i = skip_white(&v, 0);
    proof {
        assert(v@.skip(0) =~= v@);
        lemma_lead_white(v@);
        lemma_trail_white(trim_start(v@));
        if i < v.len() {
            assert(!is_white(trim_start(v@)[0]));
            assert(trim_start(v@).len() > 0);
            assert(trail_white(trim_start(v@)) < trim_start(v@).len()) by {
                if trail_white(trim_start(v@)) == trim_start(v@).len() {
                    assert(is_white(trim_start(v@)[0]));
                }
            }
        }
    }
    i == v.len()
}

/// Whether `needle` occurs in `s` at `at`.
pub open spec fn occurs_at(s: Seq<char>, needle: Seq<char>, at: int) -> bool {
    0 <= at && at + needle.len() <= s.len() && s.subrange(at, at + needle.len()) == needle
}

/// The first place `needle` occurs in `s`, as `str::find` gives it.
pub open spec fn find_sub(s: Seq<char>, needle: Seq<char>) -> Option<int> {
    if exists|at: int| occurs_at(s, needle, at) {
        Some(choose|at: int| occurs_at(s, needle, at) && forall|b: int| 0 <= b < at ==> !occurs_at(s, needle, b))
    } else {
        None
    }
}

/// Whether `needle` occurs in `v` at `at`.
pub fn occurs_at_exec(v: &Vec<char>, needle: &Vec<char>, at: usize) -> (r: bool)
    ensures
        r == occurs_at(v@, needle@, at as int),
{
    if at > v.len() || needle.len() > v.len() - at {
        return false;
    }
    let mut k: usize = 0;
    while k < needle.len()
        invariant
            at + needle.len() <= v.len(),
            k <= needle.len(),
            forall|j: int| 0 <= j < k ==> v@[at + j] == needle@[j],
        decreases needle.len() - k,
    {
        if v[at + k] != needle[k] {
            proof {
                assert(v@.subrange(at as int, at + needle.len())[k as int] != needle@[k as int]);
            }
            return false;
        }
        k = k + 1;
    }
    proof {
        assert(v@.subrange(at as int, at + needle.len()) =~= needle@);
    }
    true
}

/// The first place from `from` on where `needle` occurs in `v`.
pub fn find_from(v: &Vec<char>, needle: &Vec<char>, from: usize) -> (r: Option<usize>)
    requires
        from <= v.len(),
    ensures
        match find_sub(v@.skip(from as int), needle@) {
            Some(at) => r == Some((from + at) as usize),
            None => r is None,
        },
{
    let ghost rest = v@.skip(from as int);
    let mut i = from;
    loop
        invariant
            from <= i <= v.len(),
            rest == v@.skip(from as int),
            forall|b: int| 0 <= b < i - from ==> !occurs_at(rest, needle@, b),
        decreases v.len() - i,
    {
        let here = occurs_at_exec(v, needle, i);
        proof {
            if i + needle.len() <= v.len() {
                assert(rest.subrange(i - from, i - from + needle.len()) =~= v@.subrange(i as int, i + needle.len()));
            }
        }
        if here {
            proof {
                let at = (i - from) as int;
                assert(occurs_at(rest, needle@, at));
                let c = choose|c: int| occurs_at(rest, needle@, c) && forall|b: int| 0 <= b < c ==> !occurs_at(rest, needle@, b);
                if c < at {
                } else if c > at {
                    assert(!occurs_at(rest, needle@, at));
                }
            }
            return Some(i);
        }
        if i == v.len() {
            proof {
                assert forall|at: int| !occurs_at(rest, needle@, at) by {
                    if 0 <= at < i - from {
                    } else if at == i - from {
                    }
                }
            }
            return None;
        }
        i = i + 1;
    }
}

} // verus!

verus! {

/// How many bytes `s` takes in UTF-8, as `str::len` counts.
pub open spec fn byte_len(s: Seq<char>) -> nat
    decreases s.len(),
{
    if s.len() == 0 { 0 } else { byte_len(s.drop_last()) + utf8_len(s.last()) }
}

/// `str::len`: the length of `s` in bytes, counted up to `cap`.
pub fn byte_len_upto(s: &str, cap: usize) -> (r: usize)
    ensures
        r == if byte_len(s@) <= cap { byte_len(s@) } else { cap as nat },
{
    let v = chars_of(s);
    let mut total: usize = 0;
    let mut i: usize = 0;
    while i < v.len()
        invariant
            i <= v.len(),
            v@ == s@,
            total <= cap,
            total == if byte_len(v@.take(i as int)) <= cap { byte_len(v@.take(i as int)) } else { cap as nat },
        decreases v.len() - i,
    {
        proof {
            assert(v@.take(i as int + 1).drop_last() =~= v@.take(i as int));
            lemma_byte_len_grows(v@.take(i as int + 1));
        }
        let w = char_width(v[i]);
        if total < cap {
            if w <= cap - total {
                total = total + w;
            } else {
                total = cap;
            }
        }
        i = i + 1;
    }
    proof {
        assert(v@.take(i as int) =~= v@);
    }
    total
}

proof fn lemma_byte_len_grows(s: Seq<char>)
    requires
        s.len() > 0,
    ensures
        byte_len(s) >= byte_len(s.drop_last()),
{
}

/// `s` with every leading `p` stripped, as `str::trim_start_matches` does.
pub open spec fn strip_all(s: Seq<char>, p: Seq<char>) -> Seq<char>
    decreases s.len(),
{
    if p.len() > 0 && p.len() <= s.len() && s.take(p.len() as int) == p {
        strip_all(s.skip(p.len() as int), p)
    } else {
        s
    }
}

} // verus!

verus! {

/// `s` read as `str::parse::<u64>` reads it: an optional `+`, then one or
/// more ASCII digits, and a value that fits.
pub open spec fn parse_u64(s: Seq<char>) -> Option<int> {
    let body = if s.len() > 0 && s[0] == '+' { s.drop_first() } else { s };
    if body.len() == 0 || !all_digits(body) || digits_value(body) > u64::MAX {
        None
    } else {
        Some(digits_value(body))
    }
}

/// Reads `v` as `str::parse::<u64>` does.
pub fn parse_u64_chars(v: &Vec<char>) -> (r: Option<u64>)
    ensures
        match parse_u64(v@) {
            Some(x) => r == Some(x as u64),
            None => r is None,
        },
{
    let start: usize = if v.len() > 0 && v[0] == '+' { 1 } else { 0 };
    let ghost body = if v@.len() > 0 && v@[0] == '+' { v@.drop_first() } else { v@ };
    proof {
        assert(body =~= v@.skip(start as int));
    }
    if start >= v.len() {
        return None;
    }
    let mut value: u64 = 0;
    let mut i: usize = start;
    while i < v.len()
        invariant
            start <= i <= v.len(),
            body == v@.skip(start as int),
            body == if v@.len() > 0 && v@[0] == '+' { v@.drop_first() } else { v@ },
            all_digits(v@.subrange(start as int, i as int)),
            value == digits_value(v@.subrange(start as int, i as int)),
        decreases v.len() - i,
    {
        let c = v[i];
        proof {
            assert(v@.subrange(start as int, i as int + 1).drop_last() =~= v@.subrange(start as int, i as int));
        }
        if c < '0' || c > '9' {
            proof {
                assert(body[i - start] == c);
                assert(!all_digits(body));
            }
            return None;
        }
        let d = (c as u32 - '0' as u32) as u64;
        assert(d <= 9);
        if value > (u64::MAX - d) / 10 {
            proof {
                let q = v@.subrange(start as int, v.len() as int);
                let k = (i - start) as int + 1;
                assert(q.take(k) =~= v@.subrange(start as int, i as int + 1));
                assert(q.take(k).drop_last() =~= v@.subrange(start as int, i as int));
                assert(q.take(k).last() == c);
                assert(digits_value(q.take(k)) == value * 10 + d);
                assert(value * 10 + d > u64::MAX) by (nonlinear_arith)
                    requires
                        value > (u64::MAX - d) / 10,
                        d <= 9,
                ;
                assert(all_digits(q.take(k)));
                lemma_big_stays_big(q, k, u64::MAX as int);
                assert(q =~= body);
            }
            return None;
        }
        value = value * 10 + d;
        i = i + 1;
    }
    proof {
        assert(v@.subrange(start as int, v.len() as int) =~= body);
    }
    Some(value)
}

} // verus!

verus! {

/// The lines of `s` as `str::lines` gives them: split after each `\n`, the
/// `\n` and a `\r` just before it dropped, and no line after a final `\n`.
pub open spec fn lines_of(s: Seq<char>) -> Seq<Seq<char>>
    decreases s.len(),
{
    if s.len() == 0 {
        Seq::empty()
    } else {
        match first_index(s, '\n') {
            None => seq![s],
            Some(i) => {
                proof {
                    lemma_first_index(s, '\n');
                }
                let line = s.take(i);
                let line = if line.len() > 0 && line.last() == '\r' { line.drop_last() } else { line };
                seq![line] + lines_of(s.skip(i + 1))
            },
        }
    }
}

/// The lines of `s`, as `str::lines` gives them.
pub fn lines(s: &str) -> (r: Vec<String>)
    ensures
        r@.map_values(|x: String| x@) == lines_of(s@),
{
    let v = chars_of(s);
    let mut out: Vec<String> = Vec::new();
    let mut at: usize = 0;
    proof {
        assert(v@.skip(0) =~= v@);
        assert(out@.map_values(|x: String| x@) + lines_of(v@.skip(0)) =~= lines_of(s@));
    }
    while at < v.len()
        invariant
            at <= v.len(),
            v@ == s@,
            out@.map_values(|x: String| x@) + lines_of(v@.skip(at as int)) == lines_of(s@),
        decreases v.len() - at,
    {
        let ghost rest = v@.skip(at as int);
        let mut e = at;
        while e < v.len() && v[e] != '\n'
            invariant
                at <= e <= v.len(),
                forall|j: int| at <= j < e ==> v@[j] != '\n',
            decreases v.len() - e,
        {
            e = e + 1;
        }
        proof {
            lemma_first_index(rest, '\n');
        }
        let end = if e > at && v[e - 1] == '\r' && e < v.len() { e - 1 } else { e };
        let line = string_range(&v, at, end);
        let ghost before = out@;
        out.push(line);
        proof {
            if e < v.len() {
                lemma_first_index_at(rest, '\n', (e - at) as int);
                assert(rest.take((e - at) as int) =~= v@.subrange(at as int, e as int));
                assert(rest.skip((e - at) as int + 1) =~= v@.skip(e as int + 1));
                assert(line@ =~= (if v@.subrange(at as int, e as int).len() > 0 && v@.subrange(at as int, e as int).last() == '\r' {
                    v@.subrange(at as int, e as int).drop_last()
                } else {
                    v@.subrange(at as int, e as int)
                }));
            } else {
                assert(first_index(rest, '\n') is None) by {
                    if let Some(k) = first_index(rest, '\n') {
                        assert(rest[k] == v@[at + k]);
                    }
                }
                assert(line@ =~= rest);
                assert(v@.skip(e as int).len() == 0);
                assert(lines_of(v@.skip(e as int)) =~= Seq::<Seq<char>>::empty());
            }
            assert(out@.map_values(|x: String| x@) =~= before.map_values(|x: String| x@).push(line@));
        }
        at = if e < v.len() { e + 1 } else { e };
        proof {
            assert(out@.map_values(|x: String| x@) + lines_of(v@.skip(at as int)) =~= lines_of(s@));
        }
    }
    proof {
        assert(v@.skip(at as int).len() == 0);
        assert(out@.map_values(|x: String| x@) + lines_of(v@.skip(at as int)) =~= out@.map_values(|x: String| x@));
    }
    out
}

/// The ASCII lower case of `c`.
pub open spec fn lower(c: char) -> char {
    if 'A' <= c <= 'Z' { ((c as u32) + 32) as char } else { c }
}

/// `str::to_ascii_lowercase`.
pub open spec fn lower_all(s: Seq<char>) -> Seq<char> {
    s.map_values(|c: char| lower(c))
}

pub fn lower_char(c: char) -> (r: char)
    ensures
        r == lower(c),
{
    if 'A' <= c && c <= 'Z' {
        let b = (c as u32 + 32) as u8;
        b as char
    } else {
        c
    }
}

pub fn lower_chars(v: &Vec<char>) -> (r: Vec<char>)
    ensures
        r@ == lower_all(v@),
{
    let mut out: Vec<char> = Vec::new();
    let mut i: usize = 0;
    while i < v.len()
        invariant
            i <= v.len(),
            out@ == lower_all(v@.take(i as int)),
        decreases v.len() - i,
    {
        out.push(lower_char(v[i]));
        proof {
            assert(lower_all(v@.take(i as int + 1)) =~= lower_all(v@.take(i as int)).push(lower(v@[i as int])));
        }
        i = i + 1;
    }
    proof {
        assert(v@.take(i as int) =~= v@);
    }
    out
}

/// The words of `s`: the runs of characters between white space, as
/// `str::split_whitespace` gives them.
pub open spec fn words_of(s: Seq<char>) -> Seq<Seq<char>>
    decreases s.len(),
{
    if s.len() == 0 {
        Seq::empty()
    } else if is_white(s[0]) {
        words_of(s.drop_first())
    } else {
        let n = word_len(s);
        proof {
            lemma_word_len(s);
        }
        seq![s.take(n as int)] + words_of(s.skip(n as int))
    }
}

/// How many leading characters of `s` are not white space.
pub open spec fn word_len(s: Seq<char>) -> nat
    decreases s.len(),
{
    if s.len() > 0 && !is_white(s[0]) { 1 + word_len(s.drop_first()) } else { 0 }
}

pub proof fn lemma_word_len(s: Seq<char>)
    ensures
        word_len(s) <= s.len(),
        s.len() > 0 && !is_white(s[0]) ==> word_len(s) > 0,
        forall|i: int| 0 <= i < word_len(s) ==> !is_white(#[trigger] s[i]),
        word_len(s) < s.len() ==> is_white(s[word_len(s) as int]),
    decreases s.len(),
{
    if s.len() > 0 && !is_white(s[0]) {
        lemma_word_len(s.drop_first());
        assert forall|i: int| 0 <= i < word_len(s) implies !is_white(#[trigger] s[i]) by {
            if i > 0 {
                assert(s[i] == s.drop_first()[i - 1]);
            }
        }
    }
}

/// The words of `v`, as `str::split_whitespace` gives them.
pub fn words(v: &Vec<char>) -> (r: Vec<Vec<char>>)
    ensures
        views(r@) == words_of(v@),
{
    let mut out: Vec<Vec<char>> = Vec::new();
    let mut at: usize = 0;
    proof {
        assert(v@.skip(0) =~= v@);
        assert(views(out@) + words_of(v@.skip(0)) =~= words_of(v@));
    }
    while at < v.len()
        invariant
            at <= v.len(),
            views(out@) + words_of(v@.skip(at as int)) == words_of(v@),
        decreases v.len() - at,
    {
        let ghost rest = v@.skip(at as int);
        if is_white_char(v[at]) {
            proof {
                assert(rest[0] == v@[at as int]);
                assert(rest.drop_first() =~= v@.skip(at as int + 1));
            }
            at = at + 1;
        } else {
            let mut e = at;
            while e < v.len() && !is_white_char(v[e])
                invariant
                    at <= e <= v.len(),
                    forall|j: int| at <= j < e ==> !is_white(v@[j]),
                decreases v.len() - e,
            {
                e = e + 1;
            }
            proof {
                lemma_word_len(rest);
                assert(rest[0] == v@[at as int]);
                assert(word_len(rest) == e - at) by {
                    if word_len(rest) < e - at {
                        assert(is_white(rest[word_len(rest) as int]));
                        assert(rest[word_len(rest) as int] == v@[at + word_len(rest)]);
                    } else if word_len(rest) > e - at {
                        assert(!is_white(rest[(e - at) as int]));
                        assert(rest[(e - at) as int] == v@[e as int]);
                    }
                }
                assert(rest.take((e - at) as int) =~= v@.subrange(at as int, e as int));
                assert(rest.skip((e - at) as int) =~= v@.skip(e as int));
            }
            let w = chars_range(v, at, e);
            let ghost before = views(out@);
            out.push(w);
            proof {
                assert(views(out@) =~= before.push(w@));
                assert(views(out@) + words_of(v@.skip(e as int)) =~= before + words_of(rest));
            }
            at = e;
        }
    }
    proof {
        assert(v@.skip(at as int).len() == 0);
        assert(views(out@) + words_of(v@.skip(at as int)) =~= views(out@));
    }
    out
}

/// `v` without its leading and trailing white space.
pub fn trimmed(v: &Vec<char>) -> (r: Vec<char>)
    ensures
        r@ == trim(v@),
{
    let n = v.len();
    let start = skip_white(v, 0);
    proof {
        assert(v@.skip(0) =~= v@);
    }
    let rest = chars_range(v, start, n);
    proof {
        assert(rest@ =~= trim_start(v@));
    }
    let m = rest.len();
    let end = trim_white_end(&rest, m);
    proof {
        assert(rest@.take(m as int) =~= rest@);
    }
    chars_range(&rest, 0, end)
}

/// The second word of `v`, if it has two.
pub fn second_word(v: &Vec<char>) -> (r: Option<Vec<char>>)
    ensures
        match r {
            Some(w) => words_of(v@).len() >= 2 && w@ == words_of(v@)[1],
            None => words_of(v@).len() < 2,
        },
{
    let mut at: usize = 0;
    let mut found: usize = 0;
    proof {
        assert(v@.skip(0) =~= v@);
    }
    while at < v.len()
        invariant
            at <= v.len(),
            found <= 1,
            words_of(v@) == (if found == 1 { seq![words_of(v@)[0]] } else { Seq::empty() }) + words_of(v@.skip(at as int)),
            found == 1 ==> words_of(v@).len() >= 1,
        decreases v.len() - at,
    {
        let ghost rest = v@.skip(at as int);
        if is_white_char(v[at]) {
            proof {
                assert(rest[0] == v@[at as int]);
                assert(rest.drop_first() =~= v@.skip(at as int + 1));
            }
            at = at + 1;
        } else {
            let mut e = at;
            while e < v.len() && !is_white_char(v[e])
                invariant
                    at <= e <= v.len(),
                    forall|j: int| at <= j < e ==> !is_white(v@[j]),
                decreases v.len() - e,
            {
                e = e + 1;
            }
            proof {
                lemma_word_len(rest);
                assert(rest[0] == v@[at as int]);
                assert(word_len(rest) == e - at) by {
                    if word_len(rest) < e - at {
                        assert(is_white(rest[word_len(rest) as int]));
                        assert(rest[word_len(rest) as int] == v@[at + word_len(rest)]);
                    } else if word_len(rest) > e - at {
                        assert(!is_white(rest[(e - at) as int]));
                        assert(rest[(e - at) as int] == v@[e as int]);
                    }
                }
                assert(rest.take((e - at) as int) =~= v@.subrange(at as int, e as int));
                assert(rest.skip((e - at) as int) =~= v@.skip(e as int));
            }
            if found == 1 {
                let w = chars_range(v, at, e);
                return Some(w);
            }
            found = 1;
            at = e;
        }
    }
    proof {
        assert(v@.skip(at as int).len() == 0);
    }
    None
}

} // verus!

verus! {

pub proof fn lemma_find_sub(s: Seq<char>, needle: Seq<char>)
    ensures
        find_sub(s, needle) matches Some(i) ==> occurs_at(s, needle, i)
            && forall|b: int| 0 <= b < i ==> !occurs_at(s, needle, b),
        find_sub(s, needle) is None ==> forall|b: int| !occurs_at(s, needle, b),
{
    if exists|at: int| occurs_at(s, needle, at) {
        let at = choose|at: int| occurs_at(s, needle, at);
        lemma_first_occurrence(s, needle, at);
    }
}

/// Where something occurs, it first occurs somewhere.
proof fn lemma_first_occurrence(s: Seq<char>, needle: Seq<char>, at: int)
    requires
        occurs_at(s, needle, at),
    ensures
        exists|f: int| occurs_at(s, needle, f) && forall|b: int| 0 <= b < f ==> !occurs_at(s, needle, b),
    decreases at,
{
    if exists|b: int| 0 <= b < at && occurs_at(s, needle, b) {
        let b = choose|b: int| 0 <= b < at && occurs_at(s, needle, b);
        lemma_first_occurrence(s, needle, b);
    }
}

} // verus!

verus! {

/// The last place `needle` occurs in `s`.
pub open spec fn rfind_sub(s: Seq<char>, needle: Seq<char>) -> Option<int> {
    if exists|at: int| occurs_at(s, needle, at) {
        Some(choose|at: int| occurs_at(s, needle, at) && forall|b: int| at < b ==> !occurs_at(s, needle, b))
    } else {
        None
    }
}

/// The last place from which `needle` occurs in `v`.
pub fn rfind_in(v: &Vec<char>, needle: &Vec<char>) -> (r: Option<usize>)
    ensures
        match rfind_sub(v@, needle@) {
            Some(at) => r == Some(at as usize),
            None => r is None,
        },
{
    let mut i: usize = v.len();
    loop
        invariant
            i <= v.len(),
            forall|b: int| i < b ==> !occurs_at(v@, needle@, b),
        decreases i,
    {
        if occurs_at_exec(v, needle, i) {
            proof {
                let at = choose|at: int| occurs_at(v@, needle@, at) && forall|b: int| at < b ==> !occurs_at(v@, needle@, b);
                if at < i {
                    assert(!occurs_at(v@, needle@, i as int));
                }
            }
            return Some(i);
        }
        if i == 0 {
            proof {
                assert forall|at: int| !occurs_at(v@, needle@, at) by {
                    if at == 0 {
                    }
                }
            }
            return None;
        }
        i = i - 1;
    }
}

} // verus!

verus! {

pub proof fn lemma_rfind_sub(s: Seq<char>, needle: Seq<char>)
    ensures
        rfind_sub(s, needle) matches Some(a) ==> occurs_at(s, needle, a)
            && forall|b: int| a < b ==> !occurs_at(s, needle, b),
{
    if exists|at: int| occurs_at(s, needle, at) {
        let at = choose|at: int| occurs_at(s, needle, at);
        lemma_last_occurrence(s, needle, at);
    }
}

proof fn lemma_last_occurrence(s: Seq<char>, needle: Seq<char>, at: int)
    requires
        occurs_at(s, needle, at),
    ensures
        exists|l: int| occurs_at(s, needle, l) && forall|b: int| l < b ==> !occurs_at(s, needle, b),
    decreases s.len() - at,
{
    if exists|b: int| at < b && occurs_at(s, needle, b) {
        let b = choose|b: int| at < b && occurs_at(s, needle, b);
        lemma_last_occurrence(s, needle, b);
    }
}

/// The UTF-8 bytes of a text.
pub open spec fn utf8_bytes(s: Seq<char>) -> Seq<u8> {
    vstd::utf8::encode_utf8(s)
}

} // verus!

verus! {

/// The lines joined, a newline between each two.
pub fn join_lines(lines: &[String]) -> (r: String)
    ensures
        r@ == join(lines@.map_values(|l: String| l@), seq!['\n']),
{
    let ghost ls = lines@.map_values(|l: String| l@);
    let mut out = String::new();
    let mut i: usize = 0;
    while i < lines.len()
        invariant
            i <= lines.len(),
            ls == lines@.map_values(|l: String| l@),
            out@ == join(ls.take(i as int), seq!['\n']),
        decreases lines.len() - i,
    {
        proof {
            assert(ls.take(i as int + 1).drop_last() =~= ls.take(i as int));
            assert(ls.take(i as int + 1).last() == lines@[i as int]@);
        }
        if i > 0 {
            push_char(&mut out, '\n');
        }
        push_str(&mut out, lines[i].as_str());
        proof {
            if i == 0 {
                assert(out@ =~= join(ls.take(1), seq!['\n']));
            } else {
                assert(out@ =~= join(ls.take(i as int + 1), seq!['\n']));
            }
        }
        i = i + 1;
    }
    proof {
        assert(ls.take(i as int) =~= ls);
    }
    out
}

} // verus!

verus! {

/// The lowercase of a text, as `str::to_lowercase` maps it.
pub uninterp spec fn lowercase(text: Seq<char>) -> Seq<char>;

/// `str::to_lowercase`; the contract names its result.
#[verifier::external_body]
pub fn to_lower(text: &str) -> (r: String)
    ensures
        r@ == lowercase(text@),
{
    text.to_lowercase()
}

} // verus!
