//! Character-level utilities shared by the parser and the upsert engine:
//! whitespace trimming, splitting on a separator character, and joining a
//! sequence of pieces with a separator.

use vstd::prelude::*;

verus! {

/// Whitespace as recognized by the trimming operations.
pub open spec fn is_ws(c: char) -> bool {
    c == ' ' || c == '\t' || c == '\r' || c == '\n'
}

/// `s` with leading whitespace removed.
pub open spec fn trim_front(s: Seq<char>) -> Seq<char>
    decreases s.len(),
{
    if s.len() > 0 && is_ws(s[0]) {
        trim_front(s.drop_first())
    } else {
        s
    }
}

/// `s` with trailing whitespace removed.
pub open spec fn trim_back(s: Seq<char>) -> Seq<char>
    decreases s.len(),
{
    if s.len() > 0 && is_ws(s.last()) {
        trim_back(s.drop_last())
    } else {
        s
    }
}

/// `s` with both leading and trailing whitespace removed.
pub open spec fn trim(s: Seq<char>) -> Seq<char> {
    trim_back(trim_front(s))
}

pub proof fn lemma_trim_front_at(s: Seq<char>, a: int)
    requires
        0 <= a <= s.len(),
        forall|j: int| 0 <= j < a ==> is_ws(s[j]),
        a == s.len() || !is_ws(s[a]),
    ensures
        trim_front(s) == s.subrange(a, s.len() as int),
    decreases a,
{
    if a == 0 {
        assert(s.subrange(0, s.len() as int) =~= s);
    } else {
        assert(is_ws(s[0]));
        lemma_trim_front_at(s.drop_first(), a - 1);
        assert(s.drop_first().subrange(a - 1, s.drop_first().len() as int) =~= s.subrange(
            a,
            s.len() as int,
        ));
    }
}

pub proof fn lemma_trim_back_at(s: Seq<char>, b: int)
    requires
        0 <= b <= s.len(),
        forall|j: int| b <= j < s.len() ==> is_ws(s[j]),
        b == 0 || !is_ws(s[b - 1]),
    ensures
        trim_back(s) == s.subrange(0, b),
    decreases s.len(),
{
    if b == s.len() {
        if s.len() > 0 {
            assert(!is_ws(s.last()));
        }
        assert(s.subrange(0, b) =~= s);
    } else {
        assert(is_ws(s.last()));
        lemma_trim_back_at(s.drop_last(), b);
        assert(s.drop_last().subrange(0, b) =~= s.subrange(0, b));
    }
}

/// A wholly-whitespace prefix disappears under `trim_front`.
pub proof fn lemma_trim_front_concat_ws(a: Seq<char>, b: Seq<char>)
    requires
        forall|j: int| 0 <= j < a.len() ==> is_ws(a[j]),
    ensures
        trim_front(a + b) == trim_front(b),
    decreases a.len(),
{
    if a.len() == 0 {
        assert(a + b =~= b);
    } else {
        assert(is_ws((a + b)[0]));
        lemma_trim_front_concat_ws(a.drop_first(), b);
        assert((a + b).drop_first() =~= a.drop_first() + b);
    }
}

/// When the head survives trimming, a suffix rides along unchanged.
pub proof fn lemma_trim_front_concat(a: Seq<char>, b: Seq<char>)
    requires
        trim_front(a).len() > 0,
    ensures
        trim_front(a + b) == trim_front(a) + b,
    decreases a.len(),
{
    if a.len() == 0 {
    } else if is_ws(a[0]) {
        assert(is_ws((a + b)[0]));
        lemma_trim_front_concat(a.drop_first(), b);
        assert((a + b).drop_first() =~= a.drop_first() + b);
    } else {
        assert((a + b)[0] == a[0]);
        assert(trim_front(a + b) == a + b);
        assert(trim_front(a) == a);
    }
}

/// A non-whitespace last character survives trimming at both ends, and
/// stays last.
pub proof fn lemma_trim_keeps_last(s: Seq<char>)
    requires
        s.len() > 0,
        !is_ws(s.last()),
    ensures
        trim(s).len() > 0,
        trim(s).last() == s.last(),
    decreases s.len(),
{
    lemma_trim_front_keeps_last(s);
    let t = trim_front(s);
    assert(trim_back(t) == t);
}

proof fn lemma_trim_front_keeps_last(s: Seq<char>)
    requires
        s.len() > 0,
        !is_ws(s.last()),
    ensures
        trim_front(s).len() > 0,
        trim_front(s).last() == s.last(),
    decreases s.len(),
{
    if is_ws(s[0]) {
        assert(s.len() >= 2);
        assert(s.drop_first().last() == s.last());
        lemma_trim_front_keeps_last(s.drop_first());
    }
}

/// What survives `trim_front` never begins with whitespace.
pub proof fn lemma_trim_front_head(s: Seq<char>)
    ensures
        trim_front(s).len() > 0 ==> !is_ws(trim_front(s)[0]),
    decreases s.len(),
{
    if s.len() > 0 && is_ws(s[0]) {
        lemma_trim_front_head(s.drop_first());
    }
}

/// What survives `trim_back` never ends with whitespace.
pub proof fn lemma_trim_back_last(s: Seq<char>)
    ensures
        trim_back(s).len() > 0 ==> !is_ws(trim_back(s).last()),
    decreases s.len(),
{
    if s.len() > 0 && is_ws(s.last()) {
        lemma_trim_back_last(s.drop_last());
    }
}

/// `trim_back` keeps a prefix of its argument, and what it drops is all
/// whitespace.
pub proof fn lemma_trim_back_prefix(s: Seq<char>)
    ensures
        trim_back(s).len() <= s.len(),
        trim_back(s) == s.take(trim_back(s).len() as int),
        forall|m: int| trim_back(s).len() <= m < s.len() ==> is_ws(s[m]),
    decreases s.len(),
{
    if s.len() > 0 && is_ws(s.last()) {
        lemma_trim_back_prefix(s.drop_last());
        assert(s.drop_last().take(trim_back(s).len() as int) =~= s.take(
            trim_back(s).len() as int,
        ));
        assert forall|m: int| trim_back(s).len() <= m < s.len() implies is_ws(s[m]) by {
            if m < s.len() - 1 {
                assert(is_ws(s.drop_last()[m]));
            }
        }
    } else {
        assert(s.take(s.len() as int) =~= s);
    }
}

/// A trimmed sequence is a fixed point of trimming.
pub proof fn lemma_trim_fixed(s: Seq<char>)
    ensures
        trim_front(trim(s)) == trim(s),
        trim_back(trim(s)) == trim(s),
        trim(trim(s)) == trim(s),
{
    let f = trim_front(s);
    let t = trim(s);
    lemma_trim_front_head(s);
    lemma_trim_back_prefix(f);
    lemma_trim_back_last(f);
    if t.len() > 0 {
        assert(t[0] == f[0]);
        assert(!is_ws(t[0]));
    }
    assert(trim_front(t) == t);
    assert(trim_back(t) == t) by {
        if t.len() > 0 {
            assert(!is_ws(t.last()));
        }
    }
}

/// Whether `c` counts as whitespace for trimming.
pub fn is_ws_char(c: char) -> (r: bool)
    ensures
        r == is_ws(c),
{
    c == ' ' || c == '\t' || c == '\r' || c == '\n'
}

/// `s` with leading and trailing whitespace removed.
pub fn trim_str<'a>(s: &'a str) -> (r: &'a str)
    ensures
        r@ == trim(s@),
{
    let n = s.unicode_len();
    let mut a: usize = 0;
    while a < n && is_ws_char(s.get_char(a))
        invariant
            n == s@.len(),
            0 <= a <= n,
            forall|j: int| 0 <= j < a ==> is_ws(s@[j]),
        decreases n - a,
    {
        a = a + 1;
    }
    proof {
        lemma_trim_front_at(s@, a as int);
    }
    let mut b: usize = n;
    while b > a && is_ws_char(s.get_char(b - 1))
        invariant
            n == s@.len(),
            a <= b <= n,
            forall|j: int| b <= j < n ==> is_ws(s@[j]),
        decreases b,
    {
        b = b - 1;
    }
    proof {
        lemma_trim_back_at(s@.subrange(a as int, n as int), b - a);
        assert(s@.subrange(a as int, n as int).subrange(0, b - a) =~= s@.subrange(
            a as int,
            b as int,
        ));
    }
    s.substring_char(a, b)
}

/// Index of the first occurrence of `c` in `s`, or `s.len()` if absent.
pub open spec fn find_char(s: Seq<char>, c: char) -> int
    decreases s.len(),
{
    if s.len() == 0 {
        0
    } else if s[0] == c {
        0
    } else {
        1 + find_char(s.drop_first(), c)
    }
}

pub proof fn lemma_find_char(s: Seq<char>, c: char)
    ensures
        0 <= find_char(s, c) <= s.len(),
        find_char(s, c) < s.len() ==> s[find_char(s, c)] == c,
        forall|j: int| 0 <= j < find_char(s, c) ==> s[j] != c,
    decreases s.len(),
{
    if s.len() == 0 {
    } else if s[0] == c {
    } else {
        lemma_find_char(s.drop_first(), c);
        assert forall|j: int| 0 <= j < find_char(s, c) implies s[j] != c by {
            if j > 0 {
                assert(s.drop_first()[j - 1] != c);
            }
        }
    }
}

/// The first occurrence of `c` is exactly `k` when everything before `k`
/// differs from `c` and position `k` (if inside `s`) holds `c`.
pub proof fn lemma_find_char_at(s: Seq<char>, c: char, k: int)
    requires
        0 <= k <= s.len(),
        forall|j: int| 0 <= j < k ==> s[j] != c,
        k == s.len() || s[k] == c,
    ensures
        find_char(s, c) == k,
{
    lemma_find_char(s, c);
    let f = find_char(s, c);
    if f < k {
        assert(s[f] == c);
    }
    if f > k {
        assert(k < s.len());
    }
}

/// `s` divided at each occurrence of `sep`; always at least one piece, and
/// no piece contains `sep`.
pub open spec fn split_sep(s: Seq<char>, sep: char) -> Seq<Seq<char>>
    decreases s.len(),
{
    if s.len() == 0 {
        seq![Seq::<char>::empty()]
    } else if s[0] == sep {
        seq![Seq::<char>::empty()] + split_sep(s.drop_first(), sep)
    } else {
        let r = split_sep(s.drop_first(), sep);
        seq![seq![s[0]] + r[0]] + r.drop_first()
    }
}

/// `ls` joined into one sequence with `sep` between consecutive pieces.
pub open spec fn join_with(ls: Seq<Seq<char>>, sep: char) -> Seq<char>
    decreases ls.len(),
{
    if ls.len() == 0 {
        Seq::empty()
    } else if ls.len() == 1 {
        ls[0]
    } else {
        ls[0] + seq![sep] + join_with(ls.drop_first(), sep)
    }
}

pub proof fn lemma_split_basic(s: Seq<char>, sep: char)
    ensures
        split_sep(s, sep).len() >= 1,
        forall|i: int, j: int|
            0 <= i < split_sep(s, sep).len() && 0 <= j < split_sep(s, sep)[i].len()
                ==> split_sep(s, sep)[i][j] != sep,
    decreases s.len(),
{
    if s.len() == 0 {
    } else {
        lemma_split_basic(s.drop_first(), sep);
        if s[0] == sep {
        } else {
            let r = split_sep(s.drop_first(), sep);
            let w = seq![seq![s[0]] + r[0]] + r.drop_first();
            assert forall|i: int, j: int| 0 <= i < w.len() && 0 <= j < w[i].len() implies w[i][j]
                != sep by {
                if i == 0 {
                    if j > 0 {
                        assert(w[0][j] == r[0][j - 1]);
                    }
                } else {
                    assert(w[i] == r[i]);
                }
            }
        }
    }
}

/// A sequence without the separator splits into itself alone.
pub proof fn lemma_split_no_sep(u: Seq<char>, sep: char)
    requires
        forall|j: int| 0 <= j < u.len() ==> u[j] != sep,
    ensures
        split_sep(u, sep) == seq![u],
    decreases u.len(),
{
    if u.len() == 0 {
        assert(u =~= Seq::<char>::empty());
        assert(split_sep(u, sep) =~= seq![u]);
    } else {
        assert(u[0] != sep);
        lemma_split_no_sep(u.drop_first(), sep);
        let r = split_sep(u.drop_first(), sep);
        assert(r == seq![u.drop_first()]);
        assert(r[0] == u.drop_first());
        assert(split_sep(u, sep) == seq![seq![u[0]] + r[0]] + r.drop_first());
        assert(seq![u[0]] + u.drop_first() =~= u);
        assert(r.drop_first() =~= Seq::<Seq<char>>::empty());
        assert(split_sep(u, sep) =~= seq![u]);
    }
}

/// Splitting `u + [sep] + v` where `u` is separator-free peels off `u` as
/// the first piece.
pub proof fn lemma_split_append_sep(u: Seq<char>, v: Seq<char>, sep: char)
    requires
        forall|j: int| 0 <= j < u.len() ==> u[j] != sep,
    ensures
        split_sep(u + seq![sep] + v, sep) == seq![u] + split_sep(v, sep),
    decreases u.len(),
{
    let s = u + seq![sep] + v;
    if u.len() == 0 {
        assert(s[0] == sep);
        assert(s.drop_first() =~= v);
        assert(u =~= Seq::<char>::empty());
        assert(split_sep(s, sep) =~= seq![u] + split_sep(v, sep));
    } else {
        lemma_split_append_sep(u.drop_first(), v, sep);
        assert(s.drop_first() =~= u.drop_first() + seq![sep] + v);
        assert(s[0] == u[0]);
        assert(s[0] != sep);
        let r = split_sep(s.drop_first(), sep);
        assert(r == seq![u.drop_first()] + split_sep(v, sep));
        assert(r[0] == u.drop_first());
        assert(seq![s[0]] + r[0] =~= u);
        assert(r.drop_first() =~= split_sep(v, sep));
        assert(split_sep(s, sep) =~= seq![u] + split_sep(v, sep));
    }
}

/// Joining the pieces of a split restores the original sequence.
pub proof fn lemma_join_split(s: Seq<char>, sep: char)
    ensures
        join_with(split_sep(s, sep), sep) == s,
    decreases s.len(),
{
    if s.len() == 0 {
    } else if s[0] == sep {
        lemma_join_split(s.drop_first(), sep);
        lemma_split_basic(s.drop_first(), sep);
        let r = split_sep(s.drop_first(), sep);
        let w = seq![Seq::<char>::empty()] + r;
        assert(w.drop_first() =~= r);
        assert(join_with(w, sep) =~= s);
    } else {
        lemma_join_split(s.drop_first(), sep);
        lemma_split_basic(s.drop_first(), sep);
        let r = split_sep(s.drop_first(), sep);
        let w = seq![seq![s[0]] + r[0]] + r.drop_first();
        if r.len() == 1 {
            assert(w.len() == 1);
            assert(join_with(r, sep) == r[0]);
            assert(join_with(w, sep) =~= s);
        } else {
            assert(w.len() >= 2);
            assert(w.drop_first() =~= r.drop_first());
            assert(join_with(r, sep) == r[0] + seq![sep] + join_with(r.drop_first(), sep));
            assert(join_with(w, sep) == w[0] + seq![sep] + join_with(r.drop_first(), sep));
            assert(join_with(w, sep) =~= seq![s[0]] + join_with(r, sep));
            assert(seq![s[0]] + s.drop_first() =~= s);
        }
    }
}

/// Appending one more piece extends the join by a separator and that piece.
pub proof fn lemma_join_push(ls: Seq<Seq<char>>, x: Seq<char>, sep: char)
    ensures
        ls.len() == 0 ==> join_with(ls.push(x), sep) == x,
        ls.len() > 0 ==> join_with(ls.push(x), sep) == join_with(ls, sep) + seq![sep] + x,
    decreases ls.len(),
{
    if ls.len() == 0 {
        assert(ls.push(x).len() == 1);
        assert(join_with(ls.push(x), sep) == ls.push(x)[0]);
        assert(ls.push(x)[0] == x);
    } else if ls.len() == 1 {
        assert(ls.push(x).drop_first() =~= seq![x]);
        assert(join_with(seq![x], sep) == x);
        assert(ls.push(x)[0] == ls[0]);
        assert(join_with(ls.push(x), sep) == ls[0] + seq![sep] + x);
    } else {
        lemma_join_push(ls.drop_first(), x, sep);
        assert(ls.push(x).drop_first() =~= ls.drop_first().push(x));
        assert(join_with(ls.push(x), sep) == ls[0] + seq![sep] + join_with(
            ls.drop_first().push(x),
            sep,
        ));
        assert(join_with(ls.drop_first().push(x), sep) == join_with(ls.drop_first(), sep)
            + seq![sep] + x);
        assert(ls[0] + seq![sep] + (join_with(ls.drop_first(), sep) + seq![sep] + x) =~= (ls[0]
            + seq![sep] + join_with(ls.drop_first(), sep)) + seq![sep] + x);
    }
}

/// The views of a sequence of owned strings.
pub open spec fn views(ls: Seq<String>) -> Seq<Seq<char>> {
    ls.map_values(|l: String| l@)
}

/// Whether two string slices hold the same characters.
pub fn str_eq(a: &str, b: &str) -> (r: bool)
    ensures
        r == (a@ == b@),
{
    let an = a.unicode_len();
    let bn = b.unicode_len();
    if an != bn {
        return false;
    }
    let mut i: usize = 0;
    while i < an
        invariant
            an == a@.len(),
            an == b@.len(),
            0 <= i <= an,
            forall|j: int| 0 <= j < i ==> a@[j] == b@[j],
        decreases an - i,
    {
        if a.get_char(i) != b.get_char(i) {
            return false;
        }
        i = i + 1;
    }
    proof {
        assert(a@ =~= b@);
    }
    true
}

/// `s` divided at each occurrence of `sep`, as owned strings.
pub fn split_on(s: &str, sep: char) -> (r: Vec<String>)
    ensures
        views(r@) == split_sep(s@, sep),
{
    let n = s.unicode_len();
    let mut done: Vec<String> = Vec::new();
    let mut st: usize = 0;
    let mut i: usize = 0;
    proof {
        assert(s@.subrange(0, n as int) =~= s@);
        assert(views(done@) =~= Seq::<Seq<char>>::empty());
    }
    while i < n
        invariant
            n == s@.len(),
            0 <= st <= i <= n,
            forall|j: int| st <= j < i ==> s@[j] != sep,
            split_sep(s@, sep) =~= views(done@) + split_sep(s@.subrange(st as int, n as int), sep),
        decreases n - i,
    {
        if s.get_char(i) == sep {
            let piece = s.substring_char(st, i);
            proof {
                lemma_split_append_sep(
                    s@.subrange(st as int, i as int),
                    s@.subrange(i + 1, n as int),
                    sep,
                );
                assert(s@.subrange(st as int, n as int) =~= s@.subrange(st as int, i as int)
                    + seq![sep] + s@.subrange(i + 1, n as int));
            }
            done.push(String::from_str(piece));
            st = i + 1;
            proof {
                assert(views(done@) =~= views(done@.drop_last()).push(piece@));
                assert(views(done@.drop_last()).push(piece@) + split_sep(
                    s@.subrange(st as int, n as int),
                    sep,
                ) =~= views(done@.drop_last()) + (seq![piece@] + split_sep(
                    s@.subrange(st as int, n as int),
                    sep,
                )));
            }
        }
        i = i + 1;
    }
    let piece = s.substring_char(st, n);
    proof {
        lemma_split_no_sep(s@.subrange(st as int, n as int), sep);
    }
    done.push(String::from_str(piece));
    proof {
        assert(views(done@) =~= views(done@.drop_last()).push(piece@));
        assert(views(done@.drop_last()) + seq![piece@] =~= views(done@.drop_last()).push(piece@));
    }
    done
}

} // verus!
