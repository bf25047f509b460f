//! Text primitives shared by the version extractors and the snapshot codec:
//! splitting on a separator character, substring search, lexicographic
//! ordering, sorted deduplication and comma-joining, each as a spec-level
//! model with a verified executable counterpart.
use vstd::prelude::*;

verus! {

broadcast use vstd::string::group_string_axioms;

/// The views of a sequence of owned strings.
pub open spec fn views_of(ss: Seq<String>) -> Seq<Seq<char>> {
    ss.map_values(|t: String| t@)
}

/// `needle` occurs contiguously somewhere in `hay`.
pub open spec fn contains_seq(hay: Seq<char>, needle: Seq<char>) -> bool {
    exists|i: int|
        0 <= i && i + needle.len() <= hay.len() && #[trigger] hay.subrange(i, i + needle.len())
            == needle
}

/// Split `s` at every occurrence of `sep`; the separators themselves are
/// dropped.  The result always has one more segment than `s` has separators,
/// so it is never empty.
pub open spec fn split_on(s: Seq<char>, sep: char) -> Seq<Seq<char>>
    decreases s.len(),
{
    if s.len() == 0 {
        seq![Seq::<char>::empty()]
    } else if s[0] == sep {
        seq![Seq::<char>::empty()] + split_on(s.skip(1), sep)
    } else {
        let rest = split_on(s.skip(1), sep);
        seq![seq![s[0]] + rest[0]] + rest.skip(1)
    }
}

pub proof fn lemma_split_on_len(s: Seq<char>, sep: char)
    ensures
        split_on(s, sep).len() >= 1,
    decreases s.len(),
{
    if s.len() == 0 {
    } else if s[0] == sep {
        lemma_split_on_len(s.skip(1), sep);
    } else {
        lemma_split_on_len(s.skip(1), sep);
    }
}

/// A separator-free sequence splits into the single segment `s`.
pub proof fn lemma_split_on_no_sep(s: Seq<char>, sep: char)
    requires
        forall|k: int| 0 <= k < s.len() ==> s[k] != sep,
    ensures
        split_on(s, sep) == seq![s],
    decreases s.len(),
{
    if s.len() == 0 {
        assert(s =~= Seq::<char>::empty());
    } else {
        lemma_split_on_no_sep(s.skip(1), sep);
        let rest = split_on(s.skip(1), sep);
        assert(rest[0] == s.skip(1));
        assert(seq![s[0]] + s.skip(1) =~= s);
        assert(rest.skip(1) =~= Seq::<Seq<char>>::empty());
        assert(split_on(s, sep) =~= seq![s]);
    }
}

/// Splitting at the first separator: everything before it is the first
/// segment, and the rest splits independently.
pub proof fn lemma_split_on_first_sep(s: Seq<char>, sep: char, j: int)
    requires
        0 <= j < s.len(),
        s[j] == sep,
        forall|k: int| 0 <= k < j ==> s[k] != sep,
    ensures
        split_on(s, sep) == seq![s.take(j)] + split_on(s.skip(j + 1), sep),
    decreases j,
{
    if j == 0 {
        assert(s.take(0) =~= Seq::<char>::empty());
        assert(split_on(s, sep) =~= seq![s.take(0)] + split_on(s.skip(1), sep));
    } else {
        let t = s.skip(1);
        assert(t[j - 1] == sep);
        assert(forall|k: int| 0 <= k < j - 1 ==> t[k] == s[k + 1] && t[k] != sep);
        lemma_split_on_first_sep(t, sep, j - 1);
        let rest = split_on(t, sep);
        assert(rest == seq![t.take(j - 1)] + split_on(t.skip(j), sep));
        assert(rest[0] == t.take(j - 1));
        assert(seq![s[0]] + t.take(j - 1) =~= s.take(j));
        assert(rest.skip(1) =~= split_on(t.skip(j), sep));
        assert(t.skip(j) =~= s.skip(j + 1));
        assert(split_on(s, sep) =~= seq![s.take(j)] + split_on(s.skip(j + 1), sep));
    }
}

/// Splits a string at every occurrence of `sep`, as `split_on` describes.
pub fn split_str(s: &str, sep: char) -> (r: Vec<String>)
    ensures
        views_of(r@) == split_on(s@, sep),
{
    let n = s.unicode_len();
    let mut r: Vec<String> = Vec::new();
    let mut start: usize = 0;
    let mut i: usize = 0;
    proof {
        assert(s@.skip(0) =~= s@);
        assert(views_of(r@) + split_on(s@, sep) =~= split_on(s@, sep));
    }
    while i < n
        invariant
            start <= i <= n,
            n == s@.len(),
            forall|k: int| start <= k < i ==> s@[k] != sep,
            split_on(s@, sep) == views_of(r@) + split_on(s@.skip(start as int), sep),
        decreases n - i,
    {
        if s.get_char(i) == sep {
            let seg = s.substring_char(start, i).to_owned();
            proof {
                let t = s@.skip(start as int);
                let j = i - start as int;
                assert(t[j] == sep);
                assert(forall|k: int| 0 <= k < j ==> t[k] == s@[start + k] && t[k] != sep);
                lemma_split_on_first_sep(t, sep, j);
                assert(t.take(j) =~= s@.subrange(start as int, i as int));
                assert(t.skip(j + 1) =~= s@.skip(i + 1));
            }
            let ghost old_r = r@;
            r.push(seg);
            proof {
                assert(views_of(r@) =~= views_of(old_r) + seq![s@.subrange(
                    start as int,
                    i as int,
                )]);
                assert(views_of(old_r) + (seq![s@.subrange(start as int, i as int)] + split_on(
                    s@.skip(i + 1),
                    sep,
                )) =~= views_of(r@) + split_on(s@.skip(i + 1), sep));
            }
            start = i + 1;
        }
        i += 1;
    }
    let seg = s.substring_char(start, n).to_owned();
    proof {
        let t = s@.skip(start as int);
        assert(forall|k: int| 0 <= k < t.len() ==> t[k] == s@[start + k] && t[k] != sep);
        lemma_split_on_no_sep(t, sep);
        assert(t =~= s@.subrange(start as int, n as int));
    }
    let ghost old_r = r@;
    r.push(seg);
    proof {
        assert(views_of(r@) =~= views_of(old_r) + seq![s@.subrange(start as int, n as int)]);
    }
    r
}

/// The segments joined back with the separator between neighbours.
pub open spec fn join_on(parts: Seq<Seq<char>>, sep: char) -> Seq<char>
    decreases parts.len(),
{
    if parts.len() == 0 {
        Seq::<char>::empty()
    } else if parts.len() == 1 {
        parts[0]
    } else {
        parts[0] + seq![sep] + join_on(parts.skip(1), sep)
    }
}

/// Joining the segments of a split restores the original sequence.
pub proof fn lemma_join_on_split_on(s: Seq<char>, sep: char)
    ensures
        join_on(split_on(s, sep), sep) == s,
    decreases s.len(),
{
    if s.len() == 0 {
        assert(join_on(split_on(s, sep), sep) =~= s);
    } else if s[0] == sep {
        lemma_join_on_split_on(s.skip(1), sep);
        lemma_split_on_len(s.skip(1), sep);
        let parts = split_on(s, sep);
        assert(parts.len() >= 2);
        assert(parts[0] =~= Seq::<char>::empty());
        assert(parts.skip(1) =~= split_on(s.skip(1), sep));
        assert(Seq::<char>::empty() + seq![sep] + s.skip(1) =~= s);
    } else {
        lemma_join_on_split_on(s.skip(1), sep);
        let rest = split_on(s.skip(1), sep);
        lemma_split_on_len(s.skip(1), sep);
        let parts = split_on(s, sep);
        assert(parts[0] == seq![s[0]] + rest[0]);
        if rest.len() == 1 {
            assert(parts.len() == 1);
            assert(join_on(rest, sep) == rest[0]);
            assert(seq![s[0]] + rest[0] =~= s);
        } else {
            assert(parts.len() >= 2);
            assert(parts.skip(1) =~= rest.skip(1));
            assert(join_on(rest, sep) == rest[0] + seq![sep] + join_on(rest.skip(1), sep));
            assert((seq![s[0]] + rest[0]) + seq![sep] + join_on(rest.skip(1), sep) =~= seq![s[0]]
                + (rest[0] + seq![sep] + join_on(rest.skip(1), sep)));
            assert(seq![s[0]] + s.skip(1) =~= s);
        }
    }
}

/// The segments of `s@` between newline characters.
pub open spec fn lines_of(s: Seq<char>) -> Seq<Seq<char>> {
    split_on(s, '\n')
}

/// Whether `hay@[i..i + needle@.len()]` equals `needle@`.
fn match_at(hay: &str, needle: &str, i: usize) -> (r: bool)
    requires
        i + needle@.len() <= hay@.len(),
    ensures
        r == (hay@.subrange(i as int, i + needle@.len()) == needle@),
{
    let n = hay.unicode_len();
    let m = needle.unicode_len();
    let ghost sub = hay@.subrange(i as int, i + needle@.len());
    let mut j: usize = 0;
    while j < m
        invariant
            j <= m,
            m == needle@.len(),
            n == hay@.len(),
            i + m <= n,
            sub == hay@.subrange(i as int, i + m as int),
            forall|k: int| 0 <= k < j ==> hay@[i + k] == needle@[k],
        decreases m - j,
    {
        if hay.get_char(i + j) != needle.get_char(j) {
            proof {
                assert(sub[j as int] != needle@[j as int]);
            }
            return false;
        }
        j += 1;
    }
    proof {
        assert(sub =~= needle@);
    }
    true
}

/// Substring search, as `contains_seq` describes.
pub fn contains_str(hay: &str, needle: &str) -> (r: bool)
    ensures
        r == contains_seq(hay@, needle@),
{
    let n = hay.unicode_len();
    let m = needle.unicode_len();
    if m > n {
        return false;
    }
    if m == 0 {
        proof {
            assert(hay@.subrange(0, 0 + needle@.len() as int) =~= needle@);
        }
        return true;
    }
    let mut i: usize = 0;
    while i <= n - m
        invariant
            1 <= m <= n,
            n == hay@.len(),
            m == needle@.len(),
            i <= n - m + 1,
            forall|k: int| 0 <= k < i ==> #[trigger] hay@.subrange(k, k + m as int) != needle@,
        decreases n - i,
    {
        if match_at(hay, needle, i) {
            proof {
                assert(hay@.subrange(i as int, i + m as int) == needle@);
            }
            return true;
        }
        i += 1;
    }
    false
}

/// String equality on character views.
pub fn str_eq(a: &str, b: &str) -> (r: bool)
    ensures
        r == (a@ == b@),
{
    let n = a.unicode_len();
    if n != b.unicode_len() {
        return false;
    }
    let r = match_at(a, b, 0);
    proof {
        assert(a@.subrange(0, a@.len() as int) =~= a@);
    }
    r
}

/// Strict lexicographic order on character sequences, by code point.
pub open spec fn lex_lt(a: Seq<char>, b: Seq<char>) -> bool
    decreases a.len(),
{
    if b.len() == 0 {
        false
    } else if a.len() == 0 {
        true
    } else if a[0] == b[0] {
        lex_lt(a.skip(1), b.skip(1))
    } else {
        (a[0] as u32) < (b[0] as u32)
    }
}

/// `lex_lt` is a strict total order: any two sequences are equal or ordered,
/// and the order is asymmetric.
pub proof fn lemma_lex_total(a: Seq<char>, b: Seq<char>)
    ensures
        lex_lt(a, b) || lex_lt(b, a) || a == b,
        lex_lt(a, b) ==> !lex_lt(b, a) && a != b,
    decreases a.len(),
{
    if b.len() == 0 {
        if a.len() == 0 {
            assert(a =~= b);
        }
    } else if a.len() == 0 {
    } else if a[0] == b[0] {
        lemma_lex_total(a.skip(1), b.skip(1));
        if a.skip(1) == b.skip(1) {
            assert forall|k: int| 0 <= k < a.len() implies a[k] == b[k] by {
                if k >= 1 {
                    assert(a[k] == a.skip(1)[k - 1]);
                    assert(b[k] == b.skip(1)[k - 1]);
                }
            }
            assert(a =~= b);
        }
    } else {
        vstd::utf8::char_u32_cast(a[0], a[0] as u32);
        vstd::utf8::char_u32_cast(b[0], b[0] as u32);
        assert((a[0] as u32) != (b[0] as u32));
    }
}

/// Comparison of two strings in the order `lex_lt` describes.
pub fn lex_lt_str(a: &str, b: &str) -> (r: bool)
    ensures
        r == lex_lt(a@, b@),
{
    let n = a.unicode_len();
    let m = b.unicode_len();
    let mut i: usize = 0;
    proof {
        assert(a@.skip(0) =~= a@);
        assert(b@.skip(0) =~= b@);
    }
    while i < n && i < m
        invariant
            i <= n,
            i <= m,
            n == a@.len(),
            m == b@.len(),
            lex_lt(a@, b@) == lex_lt(a@.skip(i as int), b@.skip(i as int)),
            lex_lt(b@, a@) == lex_lt(b@.skip(i as int), a@.skip(i as int)),
        decreases n - i,
    {
        let ca = a.get_char(i);
        let cb = b.get_char(i);
        if ca as u32 != cb as u32 {
            return (ca as u32) < (cb as u32);
        }
        proof {
            assert(a@.skip(i as int).skip(1) =~= a@.skip(i + 1));
            assert(b@.skip(i as int).skip(1) =~= b@.skip(i + 1));
        }
        i += 1;
    }
    n < m
}

/// `lex_lt` is transitive.
pub proof fn lemma_lex_trans(a: Seq<char>, b: Seq<char>, c: Seq<char>)
    requires
        lex_lt(a, b),
        lex_lt(b, c),
    ensures
        lex_lt(a, c),
    decreases a.len(),
{
    if a.len() == 0 {
    } else {
        if a[0] == b[0] {
            if b[0] == c[0] {
                lemma_lex_trans(a.skip(1), b.skip(1), c.skip(1));
            } else {
                vstd::utf8::char_u32_cast(b[0], b[0] as u32);
                vstd::utf8::char_u32_cast(c[0], c[0] as u32);
                assert((b[0] as u32) < (c[0] as u32));
            }
        } else {
            vstd::utf8::char_u32_cast(a[0], a[0] as u32);
            vstd::utf8::char_u32_cast(b[0], b[0] as u32);
            vstd::utf8::char_u32_cast(c[0], c[0] as u32);
            assert((a[0] as u32) < (b[0] as u32));
            if b[0] == c[0] {
                assert((a[0] as u32) < (c[0] as u32));
            } else {
                assert((b[0] as u32) < (c[0] as u32));
            }
        }
    }
}

/// Ascending and duplicate-free: every earlier entry is strictly below every
/// later one.
pub open spec fn sorted_unique(s: Seq<Seq<char>>) -> bool {
    forall|p: int, q: int| 0 <= p < q < s.len() ==> lex_lt(#[trigger] s[p], #[trigger] s[q])
}

/// Insert `x` into an ascending duplicate-free sequence, keeping it ascending
/// and duplicate-free.
pub open spec fn insert_sorted(x: Seq<char>, s: Seq<Seq<char>>) -> Seq<Seq<char>>
    decreases s.len(),
{
    if s.len() == 0 {
        seq![x]
    } else if lex_lt(x, s[0]) {
        seq![x] + s
    } else if x == s[0] {
        s
    } else {
        seq![s[0]] + insert_sorted(x, s.skip(1))
    }
}

/// `insert_sorted` in terms of the insertion point: the first index whose
/// element is not below `x`.
pub proof fn lemma_insert_sorted_at(x: Seq<char>, s: Seq<Seq<char>>, i: int)
    requires
        0 <= i <= s.len(),
        forall|k: int| 0 <= k < i ==> lex_lt(#[trigger] s[k], x),
        i < s.len() ==> !lex_lt(s[i], x),
    ensures
        insert_sorted(x, s) == (if i < s.len() && s[i] == x {
            s
        } else {
            s.take(i) + seq![x] + s.skip(i)
        }),
    decreases i,
{
    if i == 0 {
        if s.len() == 0 {
            assert(insert_sorted(x, s) =~= s.take(0) + seq![x] + s.skip(0));
        } else {
            lemma_lex_total(x, s[0]);
            if s[0] == x {
            } else {
                assert(lex_lt(x, s[0]));
                assert(seq![x] + s =~= s.take(0) + seq![x] + s.skip(0));
            }
        }
    } else {
        assert(lex_lt(s[0], x));
        lemma_lex_total(x, s[0]);
        let t = s.skip(1);
        assert(forall|k: int| 0 <= k < i - 1 ==> #[trigger] t[k] == s[k + 1]);
        lemma_insert_sorted_at(x, t, i - 1);
        if i < s.len() && s[i] == x {
            assert(t[i - 1] == x);
            assert(seq![s[0]] + t =~= s);
        } else {
            assert(seq![s[0]] + (t.take(i - 1) + seq![x] + t.skip(i - 1)) =~= s.take(i) + seq![x]
                + s.skip(i));
        }
    }
}

/// Inserts `x` into a list kept in the order `insert_sorted` describes,
/// dropping it if an equal entry is already present.
pub fn insert_version(list: Vec<String>, x: String) -> (r: Vec<String>)
    ensures
        views_of(r@) == insert_sorted(x@, views_of(list@)),
{
    let ghost vs = views_of(list@);
    let mut out = list;
    let mut i: usize = 0;
    while i < out.len() && lex_lt_str(out[i].as_str(), x.as_str())
        invariant
            views_of(out@) == vs,
            out@.len() == vs.len(),
            i <= vs.len(),
            forall|k: int| 0 <= k < i ==> lex_lt(#[trigger] vs[k], x@),
        decreases vs.len() - i,
    {
        i += 1;
    }
    if i < out.len() && str_eq(out[i].as_str(), x.as_str()) {
        proof {
            lemma_insert_sorted_at(x@, vs, i as int);
        }
        out
    } else {
        let ghost old_out = out@;
        out.insert(i, x);
        proof {
            lemma_insert_sorted_at(x@, vs, i as int);
            assert(views_of(out@) =~= vs.take(i as int) + seq![x@] + vs.skip(i as int));
        }
        out
    }
}

/// Sorted insertion keeps the sequence ascending and duplicate-free, and
/// adds exactly `x` to the entries.
pub proof fn lemma_insert_sorted_props(x: Seq<char>, s: Seq<Seq<char>>)
    requires
        sorted_unique(s),
    ensures
        sorted_unique(insert_sorted(x, s)),
        insert_sorted(x, s).to_set() == s.to_set().insert(x),
    decreases s.len(),
{
    let r = insert_sorted(x, s);
    if s.len() == 0 {
        assert(r =~= seq![x]);
        assert(r[0] == x);
        assert forall|e: Seq<char>| r.to_set().contains(e) implies s.to_set().insert(x).contains(
            e,
        ) by {
            let i = choose|i: int| 0 <= i < r.len() && r[i] == e;
            assert(e == x);
        }
        assert(r.to_set().contains(x));
        assert(r.to_set() =~= s.to_set().insert(x));
    } else if lex_lt(x, s[0]) {
        assert(r == seq![x] + s);
        assert forall|p: int, q: int| 0 <= p < q < r.len() implies lex_lt(r[p], r[q]) by {
            if p == 0 {
                assert(r[0] == x);
                assert(r[q] == s[q - 1]);
                if q > 1 {
                    assert(lex_lt(s[0], s[q - 1]));
                    lemma_lex_trans(x, s[0], s[q - 1]);
                }
            } else {
                assert(r[p] == s[p - 1]);
                assert(r[q] == s[q - 1]);
            }
        }
        assert forall|e: Seq<char>| r.to_set().contains(e) implies s.to_set().insert(x).contains(
            e,
        ) by {
            let i = choose|i: int| 0 <= i < r.len() && r[i] == e;
            if i > 0 {
                assert(s[i - 1] == e);
            }
        }
        assert forall|e: Seq<char>| s.to_set().insert(x).contains(e) implies r.to_set().contains(
            e,
        ) by {
            if e == x {
                assert(r[0] == e);
            } else {
                let i = choose|i: int| 0 <= i < s.len() && s[i] == e;
                assert(r[i + 1] == e);
            }
        }
        assert(r.to_set() =~= s.to_set().insert(x));
    } else if x == s[0] {
        assert(r == s);
        assert(s[0] == x);
        assert(s.to_set().contains(x));
        assert(r.to_set() =~= s.to_set().insert(x));
    } else {
        lemma_lex_total(x, s[0]);
        assert(lex_lt(s[0], x));
        let t = s.skip(1);
        assert(forall|k: int| 0 <= k < t.len() ==> #[trigger] t[k] == s[k + 1]);
        assert forall|p: int, q: int| 0 <= p < q < t.len() implies lex_lt(t[p], t[q]) by {
            assert(s[p + 1] == t[p]);
            assert(s[q + 1] == t[q]);
        }
        lemma_insert_sorted_props(x, t);
        let w = insert_sorted(x, t);
        assert(r == seq![s[0]] + w);
        assert forall|p: int, q: int| 0 <= p < q < r.len() implies lex_lt(r[p], r[q]) by {
            if p == 0 {
                assert(r[q] == w[q - 1]);
                assert(w.to_set().contains(w[q - 1]));
                assert(t.to_set().insert(x).contains(w[q - 1]));
                if w[q - 1] == x {
                    assert(lex_lt(s[0], x));
                } else {
                    assert(t.to_set().contains(w[q - 1]));
                    let j = choose|j: int| 0 <= j < t.len() && t[j] == w[q - 1];
                    assert(t[j] == s[j + 1]);
                    assert(lex_lt(s[0], s[j + 1]));
                }
            } else {
                assert(r[p] == w[p - 1]);
                assert(r[q] == w[q - 1]);
            }
        }
        assert forall|e: Seq<char>| r.to_set().contains(e) implies s.to_set().insert(x).contains(
            e,
        ) by {
            let i = choose|i: int| 0 <= i < r.len() && r[i] == e;
            if i == 0 {
                assert(s[0] == e);
            } else {
                assert(w[i - 1] == e);
                assert(w.to_set().contains(e));
                assert(t.to_set().insert(x).contains(e));
                if e != x {
                    let j = choose|j: int| 0 <= j < t.len() && t[j] == e;
                    assert(s[j + 1] == e);
                }
            }
        }
        assert forall|e: Seq<char>| s.to_set().insert(x).contains(e) implies r.to_set().contains(
            e,
        ) by {
            if e == x {
                assert(t.to_set().insert(x).contains(e));
                assert(w.to_set().contains(e));
                let j = choose|j: int| 0 <= j < w.len() && w[j] == e;
                assert(r[j + 1] == e);
            } else {
                let i = choose|i: int| 0 <= i < s.len() && s[i] == e;
                if i == 0 {
                    assert(r[0] == e);
                } else {
                    assert(t[i - 1] == e);
                    assert(t.to_set().insert(x).contains(e));
                    assert(w.to_set().contains(e));
                    let j = choose|j: int| 0 <= j < w.len() && w[j] == e;
                    assert(r[j + 1] == e);
                }
            }
        }
        assert(r.to_set() =~= s.to_set().insert(x));
    }
}

/// Sort the entries ascending and drop duplicates, by repeated sorted
/// insertion.
pub open spec fn sort_dedup(s: Seq<Seq<char>>) -> Seq<Seq<char>>
    decreases s.len(),
{
    if s.len() == 0 {
        Seq::<Seq<char>>::empty()
    } else {
        insert_sorted(s.last(), sort_dedup(s.drop_last()))
    }
}

/// `sort_dedup` yields an ascending, duplicate-free sequence holding exactly
/// the set of entries of its input.
pub proof fn lemma_sort_dedup_props(s: Seq<Seq<char>>)
    ensures
        sorted_unique(sort_dedup(s)),
        sort_dedup(s).to_set() == s.to_set(),
    decreases s.len(),
{
    if s.len() == 0 {
        assert(sort_dedup(s).to_set() =~= s.to_set());
    } else {
        let t = s.drop_last();
        lemma_sort_dedup_props(t);
        lemma_insert_sorted_props(s.last(), sort_dedup(t));
        assert forall|e: Seq<char>| s.to_set().contains(e) implies t.to_set().insert(
            s.last(),
        ).contains(e) by {
            let i = choose|i: int| 0 <= i < s.len() && s[i] == e;
            if i < s.len() - 1 {
                assert(t[i] == e);
            }
        }
        assert forall|e: Seq<char>| t.to_set().insert(s.last()).contains(e) implies
            s.to_set().contains(e) by {
            if e == s.last() {
                assert(s[s.len() - 1] == e);
            } else {
                let i = choose|i: int| 0 <= i < t.len() && t[i] == e;
                assert(s[i] == e);
            }
        }
        assert(t.to_set().insert(s.last()) =~= s.to_set());
    }
}

/// Sorts the entries ascending and drops duplicates, as `sort_dedup`
/// describes.
pub fn sort_dedup_strings(items: Vec<String>) -> (r: Vec<String>)
    ensures
        views_of(r@) == sort_dedup(views_of(items@)),
{
    let ghost vs = views_of(items@);
    let mut r: Vec<String> = Vec::new();
    let mut i: usize = 0;
    proof {
        assert(views_of(r@) =~= sort_dedup(vs.take(0)));
    }
    while i < items.len()
        invariant
            i <= vs.len(),
            items@.len() == vs.len(),
            vs == views_of(items@),
            views_of(r@) == sort_dedup(vs.take(i as int)),
        decreases vs.len() - i,
    {
        r = insert_version(r, items[i].clone());
        proof {
            assert(vs.take(i + 1).drop_last() =~= vs.take(i as int));
            assert(vs.take(i + 1).last() == vs[i as int]);
        }
        i += 1;
    }
    proof {
        assert(vs.take(vs.len() as int) =~= vs);
    }
    r
}

/// The entries joined by a single comma between neighbours.
pub open spec fn join_comma(parts: Seq<Seq<char>>) -> Seq<char>
    decreases parts.len(),
{
    if parts.len() == 0 {
        Seq::<char>::empty()
    } else if parts.len() == 1 {
        parts[0]
    } else {
        join_comma(parts.drop_last()) + seq![','] + parts.last()
    }
}

/// Joins the entries with commas, as `join_comma` describes.
pub fn join_with_commas(parts: &Vec<String>) -> (r: String)
    ensures
        r@ == join_comma(views_of(parts@)),
{
    let ghost vs = views_of(parts@);
    let mut out = String::new();
    let mut i: usize = 0;
    proof {
        assert(out@ =~= join_comma(vs.take(0)));
    }
    while i < parts.len()
        invariant
            i <= vs.len(),
            parts@.len() == vs.len(),
            vs == views_of(parts@),
            out@ == join_comma(vs.take(i as int)),
        decreases vs.len() - i,
    {
        if i > 0 {
            out.append(",");
            proof {
                reveal_strlit(",");
                assert(","@ =~= seq![',']);
            }
        }
        out.append(parts[i].as_str());
        proof {
            assert(vs.take(i + 1).drop_last() =~= vs.take(i as int));
            assert(vs.take(i + 1).last() == vs[i as int]);
            if i == 0 {
                assert(out@ =~= vs.take(1)[0]);
            }
        }
        i += 1;
    }
    proof {
        assert(vs.take(vs.len() as int) =~= vs);
    }
    out
}

/// Keeps a character other than `c`, for dropping one character everywhere.
pub open spec fn keep_not(c: char) -> spec_fn(char) -> bool {
    |x: char| x != c
}

/// Removes every occurrence of `c` from `s`.
pub fn remove_char(s: &str, c: char) -> (r: String)
    ensures
        r@ == s@.filter(keep_not(c)),
{
    let n = s.unicode_len();
    let mut out = String::new();
    let mut i: usize = 0;
    proof {
        reveal(Seq::filter);
        assert(out@ =~= s@.take(0).filter(keep_not(c)));
    }
    while i < n
        invariant
            i <= n,
            n == s@.len(),
            out@ == s@.take(i as int).filter(keep_not(c)),
        decreases n - i,
    {
        let ghost old_out = out@;
        let ch = s.get_char(i);
        if ch != c {
            out.append(s.substring_char(i, i + 1));
        }
        proof {
            reveal(Seq::filter);
            assert(s@.take(i + 1).drop_last() =~= s@.take(i as int));
            assert(s@.take(i + 1).last() == s@[i as int]);
            if s@[i as int] != c {
                assert(s@.subrange(i as int, i + 1) =~= seq![s@[i as int]]);
                assert(old_out + seq![s@[i as int]] =~= old_out.push(s@[i as int]));
            }
        }
        i += 1;
    }
    proof {
        assert(s@.take(n as int) =~= s@);
    }
    out
}

/// Keeps a non-empty entry, for filtering token lists.
pub open spec fn non_empty_pred() -> spec_fn(Seq<char>) -> bool {
    |t: Seq<char>| t.len() > 0
}

/// Drops the empty strings, keeping the order of the rest.
pub fn retain_non_empty(toks: &Vec<String>) -> (r: Vec<String>)
    ensures
        views_of(r@) == views_of(toks@).filter(non_empty_pred()),
{
    let ghost vs = views_of(toks@);
    let mut r: Vec<String> = Vec::new();
    let mut i: usize = 0;
    proof {
        reveal(Seq::filter);
        assert(views_of(r@) =~= vs.take(0).filter(non_empty_pred()));
    }
    while i < toks.len()
        invariant
            i <= vs.len(),
            toks@.len() == vs.len(),
            vs == views_of(toks@),
            views_of(r@) == vs.take(i as int).filter(non_empty_pred()),
        decreases vs.len() - i,
    {
        let ghost old_r = r@;
        if toks[i].as_str().unicode_len() > 0 {
            r.push(toks[i].clone());
        }
        proof {
            reveal(Seq::filter);
            assert(vs.take(i + 1).drop_last() =~= vs.take(i as int));
            assert(vs.take(i + 1).last() == vs[i as int]);
            if vs[i as int].len() > 0 {
                assert(views_of(r@) =~= views_of(old_r).push(vs[i as int]));
            }
        }
        i += 1;
    }
    proof {
        assert(vs.take(vs.len() as int) =~= vs);
    }
    r
}

/// The first entry that contains `needle`, if any.
pub open spec fn first_with(ls: Seq<Seq<char>>, needle: Seq<char>) -> Option<Seq<char>>
    decreases ls.len(),
{
    if ls.len() == 0 {
        Option::None
    } else if contains_seq(ls[0], needle) {
        Option::Some(ls[0])
    } else {
        first_with(ls.skip(1), needle)
    }
}

/// When some entry contains the needle, `first_with` finds one of them.
pub proof fn lemma_first_with_found(ls: Seq<Seq<char>>, needle: Seq<char>)
    requires
        exists|i: int| 0 <= i < ls.len() && contains_seq(#[trigger] ls[i], needle),
    ensures
        first_with(ls, needle) is Some,
        contains_seq(first_with(ls, needle).unwrap(), needle),
        exists|i: int| 0 <= i < ls.len() && #[trigger] ls[i] == first_with(ls, needle).unwrap(),
    decreases ls.len(),
{
    if contains_seq(ls[0], needle) {
        assert(ls[0] == first_with(ls, needle).unwrap());
    } else {
        let t = ls.skip(1);
        let i = choose|i: int| 0 <= i < ls.len() && contains_seq(#[trigger] ls[i], needle);
        assert(i > 0);
        assert(t[i - 1] == ls[i]);
        assert(contains_seq(t[i - 1], needle));
        lemma_first_with_found(t, needle);
        let j = choose|j: int| 0 <= j < t.len() && #[trigger] t[j] == first_with(t, needle).unwrap();
        assert(ls[j + 1] == first_with(ls, needle).unwrap());
    }
}

/// Filtering away a character that never occurs changes nothing.
pub proof fn lemma_filter_all_keep(s: Seq<char>, c: char)
    requires
        forall|k: int| 0 <= k < s.len() ==> s[k] != c,
    ensures
        s.filter(keep_not(c)) == s,
    decreases s.len(),
{
    reveal(Seq::filter);
    if s.len() == 0 {
        assert(s.filter(keep_not(c)) =~= s);
    } else {
        lemma_filter_all_keep(s.drop_last(), c);
        assert(s.drop_last().push(s.last()) =~= s);
    }
}

/// Finds the first string that contains `needle`, as `first_with` describes.
pub fn find_first_with(ls: &Vec<String>, needle: &str) -> (r: Option<String>)
    ensures
        match r {
            Option::Some(line) => first_with(views_of(ls@), needle@) == Option::Some(line@),
            Option::None => first_with(views_of(ls@), needle@) is None,
        },
{
    let ghost vs = views_of(ls@);
    let mut i: usize = 0;
    proof {
        assert(vs.skip(0) =~= vs);
    }
    while i < ls.len()
        invariant
            i <= vs.len(),
            ls@.len() == vs.len(),
            vs == views_of(ls@),
            first_with(vs, needle@) == first_with(vs.skip(i as int), needle@),
        decreases vs.len() - i,
    {
        if contains_str(ls[i].as_str(), needle) {
            proof {
                assert(vs.skip(i as int)[0] == vs[i as int]);
            }
            return Option::Some(ls[i].clone());
        }
        proof {
            assert(vs.skip(i as int)[0] == vs[i as int]);
            assert(vs.skip(i as int).skip(1) =~= vs.skip(i + 1));
        }
        i += 1;
    }
    proof {
        assert(vs.skip(vs.len() as int) =~= Seq::<Seq<char>>::empty());
    }
    Option::None
}

} // verus!
