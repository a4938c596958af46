//! Character-level helpers on strings and the lexicographic order of strings.

use vstd::prelude::*;

verus! {

/// The character sequences of a vector of strings.
pub open spec fn views(v: Seq<String>) -> Seq<Seq<char>> {
    v.map_values(|s: String| s@)
}

/// Relies on `String::push`: the character is appended at the end.
#[verifier::external_body]
pub(crate) fn push_char(s: &mut String, c: char)
    ensures
        final(s)@ == old(s)@.push(c),
{
    s.push(c);
}

/// The characters of `s`, in order.
pub fn chars_of(s: &str) -> (r: Vec<char>)
    ensures
        r@ == s@,
{
    let mut r: Vec<char> = Vec::new();
    for c in it: s.chars()
        invariant
            r@ == it.seq().subrange(0, it.index() as int),
    {
        r.push(c);
    }
    r
}


/// A string holding the characters of `cs`.
pub fn string_of(cs: &[char]) -> (r: String)
    ensures
        r@ == cs@,
{
    let mut r = String::new();
    let mut i: usize = 0;
    while i < cs.len()
        invariant
            i <= cs.len(),
            r@ == cs@.subrange(0, i as int),
        decreases cs.len() - i,
    {
        push_char(&mut r, cs[i]);
        i = i + 1;
    }
    r
}

/// Appends the characters of `t` to `s`.
pub fn push_chars(s: &mut String, t: &str)
    ensures
        final(s)@ == old(s)@ + t@,
{
    s.append(t);
}

/// Strict lexicographic order on character sequences, by code point.
pub open spec fn lex_lt(a: Seq<char>, b: Seq<char>) -> bool
    decreases a.len(),
{
    if a.len() == 0 {
        b.len() > 0
    } else if b.len() == 0 {
        false
    } else if a[0] != b[0] {
        (a[0] as int) < (b[0] as int)
    } else {
        lex_lt(a.drop_first(), b.drop_first())
    }
}

/// `lex_lt` is irreflexive and total on distinct sequences.
pub proof fn lemma_lex_trichotomy(a: Seq<char>, b: Seq<char>)
    ensures
        !lex_lt(a, a),
        a != b ==> (lex_lt(a, b) || lex_lt(b, a)),
        !(lex_lt(a, b) && lex_lt(b, a)),
    decreases a.len(),
{
    if a.len() > 0 {
        lemma_lex_trichotomy(a.drop_first(), a.drop_first());
        if b.len() > 0 {
            lemma_lex_trichotomy(a.drop_first(), b.drop_first());
            if a != b && a[0] == b[0] {
                assert(a =~= seq![a[0]] + a.drop_first());
                assert(b =~= seq![b[0]] + b.drop_first());
            }
        }
    } else if b.len() == 0 {
        assert(a =~= b);
    }
}

/// `lex_lt` is transitive.
pub proof fn lemma_lex_transitive(a: Seq<char>, b: Seq<char>, c: Seq<char>)
    requires
        lex_lt(a, b),
        lex_lt(b, c),
    ensures
        lex_lt(a, c),
    decreases a.len(),
{
    if a.len() > 0 && b.len() > 0 && c.len() > 0 && a[0] == b[0] && b[0] == c[0] {
        lemma_lex_transitive(a.drop_first(), b.drop_first(), c.drop_first());
    }
}

/// Decides `lex_lt(a@, b@)`.
pub fn str_lt(a: &str, b: &str) -> (r: bool)
    ensures
        r == lex_lt(a@, b@),
{
    let x = chars_of(a);
    let y = chars_of(b);
    let mut i: usize = 0;
    assert(x@.subrange(0, x@.len() as int) =~= x@);
    assert(y@.subrange(0, y@.len() as int) =~= y@);
    while i < x.len() && i < y.len() && x[i] == y[i]
        invariant
            i <= x.len(),
            i <= y.len(),
            x@.subrange(0, i as int) == y@.subrange(0, i as int),
            lex_lt(x@, y@) == lex_lt(x@.subrange(i as int, x@.len() as int), y@.subrange(i as int, y@.len() as int)),
        decreases x.len() - i,
    {
        assert(x@.subrange(i as int, x@.len() as int).drop_first() =~= x@.subrange(i + 1, x@.len() as int));
        assert(y@.subrange(i as int, y@.len() as int).drop_first() =~= y@.subrange(i + 1, y@.len() as int));
        assert(x@.subrange(0, i + 1) =~= x@.subrange(0, i as int).push(x[i as int]));
        assert(y@.subrange(0, i + 1) =~= y@.subrange(0, i as int).push(y[i as int]));
        i = i + 1;
    }
    let ghost xs = x@.subrange(i as int, x@.len() as int);
    let ghost ys = y@.subrange(i as int, y@.len() as int);
    if i == x.len() {
        assert(xs.len() == 0);
        i < y.len()
    } else if i == y.len() {
        assert(ys.len() == 0);
        false
    } else {
        assert(xs[0] == x@[i as int] && ys[0] == y@[i as int]);
        x[i] < y[i]
    }
}

proof fn lemma_push_contains(s: Seq<Seq<char>>, e: Seq<char>, y: Seq<char>)
    ensures
        s.push(e).contains(y) <==> (s.contains(y) || y == e),
{
    if s.contains(y) {
        let q = choose|q: int| 0 <= q < s.len() && s[q] == y;
        assert(s.push(e)[q] == y);
    }
    if y == e {
        assert(s.push(e)[s.len() as int] == y);
    }
    if s.push(e).contains(y) && y != e {
        let q = choose|q: int| 0 <= q < s.push(e).len() && s.push(e)[q] == y;
        assert(s[q] == y);
    }
}

/// All elements strictly increasing in `lex_lt`: sorted and free of duplicates.
pub open spec fn strictly_sorted(s: Seq<Seq<char>>) -> bool {
    forall|i: int, j: int| 0 <= i < j < s.len() ==> lex_lt(#[trigger] s[i], #[trigger] s[j])
}

/// The elements of `v`, sorted lexicographically with duplicates removed.
pub fn sort_unique(v: Vec<String>) -> (r: Vec<String>)
    ensures
        strictly_sorted(views(r@)),
        forall|x: Seq<char>| views(r@).contains(x) <==> views(v@).contains(x),
{
    let mut r: Vec<String> = Vec::new();
    let mut i: usize = 0;
    while i < v.len()
        invariant
            i <= v.len(),
            strictly_sorted(views(r@)),
            forall|x: Seq<char>| views(r@).contains(x) <==> views(v@.subrange(0, i as int)).contains(x),
        decreases v.len() - i,
    {
        let x = v[i].clone();
        let mut k: usize = 0;
        while k < r.len() && str_lt(r[k].as_str(), x.as_str())
            invariant
                k <= r.len(),
                forall|j: int| 0 <= j < k ==> lex_lt(#[trigger] r@[j]@, x@),
            decreases r.len() - k,
        {
            k = k + 1;
        }
        let ghost old_r = views(r@);
        let ghost pre = views(v@.subrange(0, i as int));
        assert(views(v@.subrange(0, i + 1)) =~= pre.push(x@));
        if k < r.len() && r[k] == x {
            assert(old_r[k as int] == x@);
            assert forall|y: Seq<char>| views(r@).contains(y) <==> pre.push(x@).contains(y) by {
                lemma_push_contains(pre, x@, y);
            }
        } else {
            if k < r.len() {
                proof { lemma_lex_trichotomy(r@[k as int]@, x@); }
            }
            r.insert(k, x);
            let ghost nr = views(r@);
            assert(nr =~= old_r.insert(k as int, x@));
            assert forall|a: int, b: int| 0 <= a < b < nr.len() implies lex_lt(#[trigger] nr[a], #[trigger] nr[b]) by {
                if a < k && b == k {
                } else if a == k && b > k {
                    if b > k + 1 {
                        lemma_lex_transitive(x@, old_r[k as int], old_r[b - 1]);
                    }
                } else if a < k && b > k {
                    assert(lex_lt(old_r[a], old_r[b - 1]));
                } else if a > k {
                    assert(lex_lt(old_r[a - 1], old_r[b - 1]));
                }
            }
            assert forall|y: Seq<char>| nr.contains(y) <==> pre.push(x@).contains(y) by {
                lemma_push_contains(pre, x@, y);
                if nr.contains(y) && y != x@ {
                    let q = choose|q: int| 0 <= q < nr.len() && nr[q] == y;
                    if q < k {
                        assert(old_r[q] == y);
                    } else {
                        assert(old_r[q - 1] == y);
                    }
                }
                if old_r.contains(y) {
                    let qb = choose|qb: int| 0 <= qb < old_r.len() && old_r[qb] == y;
                    if qb < k {
                        assert(nr[qb] == y);
                    } else {
                        assert(nr[qb + 1] == y);
                    }
                }
                if y == x@ {
                    assert(nr[k as int] == y);
                }
            }
        }
        i = i + 1;
    }
    assert(v@.subrange(0, v.len() as int) =~= v@);
    r
}

/// The first index at or after `i` where `pat` occurs in `s`.
pub open spec fn find_from(s: Seq<char>, pat: Seq<char>, i: int) -> Option<int>
    decreases s.len() + 1 - i,
{
    if i < 0 || i + pat.len() > s.len() {
        None
    } else if s.subrange(i, i + pat.len()) == pat {
        Some(i)
    } else {
        find_from(s, pat, i + 1)
    }
}

/// Where `find_from` answers, the pattern occurs there and nowhere earlier.
pub proof fn lemma_find_from(s: Seq<char>, pat: Seq<char>, i: int)
    requires
        0 <= i,
    ensures
        find_from(s, pat, i) is Some ==> {
            let k = find_from(s, pat, i)->Some_0;
            i <= k && k + pat.len() <= s.len() && s.subrange(k, k + pat.len()) == pat
        },
    decreases s.len() + 1 - i,
{
    if !(i + pat.len() > s.len()) && s.subrange(i, i + pat.len()) != pat {
        lemma_find_from(s, pat, i + 1);
    }
}

/// `find_from(s@, pat@, from)`.
pub fn find_pattern(s: &Vec<char>, pat: &Vec<char>, from: usize) -> (r: Option<usize>)
    ensures
        match r {
            Some(k) => find_from(s@, pat@, from as int) == Some(k as int) && from <= k && k
                + pat.len() <= s.len() && s@.subrange(k as int, k + pat.len()) == pat@,
            None => find_from(s@, pat@, from as int) is None,
        },
{
    let mut i: usize = from;
    while i <= s.len() && pat.len() <= s.len() - i
        invariant
            from <= i,
            find_from(s@, pat@, from as int) == find_from(s@, pat@, i as int),
        decreases s.len() + 1 - i,
    {
        let mut k: usize = 0;
        while k < pat.len() && s[i + k] == pat[k]
            invariant
                k <= pat.len(),
                i + pat.len() <= s.len(),
                forall|j: int| 0 <= j < k ==> s@[i + j] == pat@[j],
            decreases pat.len() - k,
        {
            k = k + 1;
        }
        if k == pat.len() {
            assert(s@.subrange(i as int, i + pat.len()) =~= pat@);
            return Some(i);
        }
        assert(s@.subrange(i as int, i + pat.len())[k as int] != pat@[k as int]);
        i = i + 1;
    }
    None
}

/// The characters of `s` from `lo` up to `hi`.
pub fn slice_chars(s: &Vec<char>, lo: usize, hi: usize) -> (r: Vec<char>)
    requires
        lo <= hi <= s.len(),
    ensures
        r@ == s@.subrange(lo as int, hi as int),
{
    let mut r: Vec<char> = Vec::new();
    let mut i: usize = lo;
    while i < hi
        invariant
            lo <= i <= hi,
            hi <= s.len(),
            r@ == s@.subrange(lo as int, i as int),
        decreases hi - i,
    {
        r.push(s[i]);
        i = i + 1;
    }
    r
}

/// Membership in a concatenation.
pub proof fn lemma_concat_contains(a: Seq<Seq<char>>, b: Seq<Seq<char>>, x: Seq<char>)
    ensures
        (a + b).contains(x) <==> (a.contains(x) || b.contains(x)),
{
    if (a + b).contains(x) {
        let q = choose|q: int| 0 <= q < (a + b).len() && (a + b)[q] == x;
        if q < a.len() {
            assert(a[q] == x);
        } else {
            assert(b[q - a.len()] == x);
        }
    }
    if a.contains(x) {
        let q = choose|q: int| 0 <= q < a.len() && a[q] == x;
        assert((a + b)[q] == x);
    }
    if b.contains(x) {
        let q = choose|q: int| 0 <= q < b.len() && b[q] == x;
        assert((a + b)[q + a.len()] == x);
    }
}

/// The length and the elements of `views(v)`.
pub proof fn lemma_views(v: Seq<String>)
    ensures
        views(v).len() == v.len(),
        forall|i: int| 0 <= i < v.len() ==> #[trigger] views(v)[i] == v[i]@,
{
}

/// Two sorted, duplicate-free sequences with the same elements are equal.
pub proof fn lemma_sorted_unique(xs: Seq<Seq<char>>, ys: Seq<Seq<char>>)
    requires
        strictly_sorted(xs),
        strictly_sorted(ys),
        forall|x: Seq<char>| xs.contains(x) <==> ys.contains(x),
    ensures
        xs == ys,
    decreases xs.len(),
{
    if xs.len() == 0 {
        if ys.len() > 0 {
            assert(ys.contains(ys[0]));
        }
        assert(xs =~= ys);
    } else {
        let a = xs[0];
        assert(xs.contains(a));
        assert(ys.contains(a));
        let j = choose|j: int| 0 <= j < ys.len() && ys[j] == a;
        assert(ys.contains(ys[0]));
        assert(xs.contains(ys[0]));
        let i = choose|i: int| 0 <= i < xs.len() && xs[i] == ys[0];
        if j > 0 {
            assert(lex_lt(ys[0], ys[j]));
            if i > 0 {
                assert(lex_lt(xs[0], xs[i]));
                lemma_lex_trichotomy(a, ys[0]);
            } else {
                lemma_lex_trichotomy(a, a);
            }
        }
        assert(ys[0] == a);
        let ta = xs.drop_first();
        let tb = ys.drop_first();
        assert forall|i: int, k: int| 0 <= i < k < ta.len() implies lex_lt(#[trigger] ta[i], #[trigger] ta[k]) by {
            assert(lex_lt(xs[i + 1], xs[k + 1]));
        }
        assert forall|i: int, k: int| 0 <= i < k < tb.len() implies lex_lt(#[trigger] tb[i], #[trigger] tb[k]) by {
            assert(lex_lt(ys[i + 1], ys[k + 1]));
        }
        assert forall|x: Seq<char>| ta.contains(x) <==> tb.contains(x) by {
            if ta.contains(x) {
                let q = choose|q: int| 0 <= q < ta.len() && ta[q] == x;
                assert(xs[q + 1] == x);
                assert(lex_lt(xs[0], xs[q + 1]));
                lemma_lex_trichotomy(a, x);
                assert(xs.contains(x));
                let r = choose|r: int| 0 <= r < ys.len() && ys[r] == x;
                assert(r != 0);
                assert(tb[r - 1] == x);
            }
            if tb.contains(x) {
                let q = choose|q: int| 0 <= q < tb.len() && tb[q] == x;
                assert(ys[q + 1] == x);
                assert(lex_lt(ys[0], ys[q + 1]));
                lemma_lex_trichotomy(a, x);
                assert(ys.contains(x));
                let r = choose|r: int| 0 <= r < xs.len() && xs[r] == x;
                assert(r != 0);
                assert(ta[r - 1] == x);
            }
        }
        lemma_sorted_unique(ta, tb);
        assert(xs =~= seq![a] + ta);
        assert(ys =~= seq![a] + tb);
    }
}

} // verus!
