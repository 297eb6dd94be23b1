//! Verified helpers for the string processing the analyzer needs:
//! splitting on separator characters, prefix tests, substring search,
//! and first/last occurrences of a character.

use vstd::prelude::*;

verus! {

/// Splitting a character sequence on a set of separators always yields one
/// segment more than there are separator occurrences; an empty input yields
/// one empty segment.
pub open spec fn spec_split(s: Seq<char>, seps: Seq<char>) -> Seq<Seq<char>>
    decreases s.len(),
{
    if s.len() == 0 {
        seq![Seq::<char>::empty()]
    } else if seps.contains(s[0]) {
        seq![Seq::<char>::empty()].add(spec_split(s.subrange(1, s.len() as int), seps))
    } else {
        let rest = spec_split(s.subrange(1, s.len() as int), seps);
        seq![seq![s[0]].add(rest[0])].add(rest.subrange(1, rest.len() as int))
    }
}

pub proof fn lemma_split_len(s: Seq<char>, seps: Seq<char>)
    ensures
        spec_split(s, seps).len() >= 1,
    decreases s.len(),
{
    if s.len() > 0 {
        lemma_split_len(s.subrange(1, s.len() as int), seps);
    }
}

/// Extending the input by one character either opens a new empty segment
/// (separator) or extends the last segment (ordinary character).
pub proof fn lemma_split_push(s: Seq<char>, c: char, seps: Seq<char>)
    ensures
        seps.contains(c) ==> spec_split(s.push(c), seps) == spec_split(s, seps).push(
            Seq::<char>::empty(),
        ),
        !seps.contains(c) ==> spec_split(s.push(c), seps) == spec_split(s, seps).update(
            spec_split(s, seps).len() - 1,
            spec_split(s, seps).last().push(c),
        ),
    decreases s.len(),
{
    lemma_split_len(s, seps);
    if s.len() == 0 {
        assert(s.push(c).subrange(1, 1) =~= Seq::<char>::empty());
        assert(s.push(c)[0] == c);
        assert(spec_split(Seq::<char>::empty(), seps) == seq![Seq::<char>::empty()]);
        if seps.contains(c) {
            assert(spec_split(s.push(c), seps) =~~= spec_split(s, seps).push(
                Seq::<char>::empty(),
            ));
        } else {
            assert(seq![s.push(c)[0]].add(spec_split(Seq::<char>::empty(), seps)[0]) =~= seq![c]);
            assert(spec_split(s.push(c), seps) =~~= spec_split(s, seps).update(
                0,
                spec_split(s, seps).last().push(c),
            ));
        }
    } else {
        let t = s.subrange(1, s.len() as int);
        lemma_split_push(t, c, seps);
        lemma_split_len(t, seps);
        assert(s.push(c).subrange(1, s.push(c).len() as int) =~= t.push(c));
        assert(s.push(c)[0] == s[0]);
        if seps.contains(s[0]) {
            if seps.contains(c) {
                assert(spec_split(s.push(c), seps) =~~= spec_split(s, seps).push(
                    Seq::<char>::empty(),
                ));
            } else {
                assert(spec_split(s, seps).last() == spec_split(t, seps).last());
                assert(spec_split(s.push(c), seps) =~~= spec_split(s, seps).update(
                    spec_split(s, seps).len() - 1,
                    spec_split(s, seps).last().push(c),
                ));
            }
        } else {
            let rest = spec_split(t, seps);
            let restc = spec_split(t.push(c), seps);
            if seps.contains(c) {
                assert(restc == rest.push(Seq::<char>::empty()));
                assert(restc[0] == rest[0]);
                assert(restc.subrange(1, restc.len() as int) =~~= rest.subrange(
                    1,
                    rest.len() as int,
                ).push(Seq::<char>::empty()));
                assert(spec_split(s.push(c), seps) =~~= spec_split(s, seps).push(
                    Seq::<char>::empty(),
                ));
            } else {
                assert(restc == rest.update(rest.len() - 1, rest.last().push(c)));
                if rest.len() == 1 {
                    assert(restc[0] == rest.last().push(c));
                    assert(spec_split(s.push(c), seps) =~~= spec_split(s, seps).update(
                        spec_split(s, seps).len() - 1,
                        spec_split(s, seps).last().push(c),
                    ));
                } else {
                    assert(restc[0] == rest[0]);
                    assert(restc.subrange(1, restc.len() as int) =~~= rest.subrange(
                        1,
                        rest.len() as int,
                    ).update(rest.len() - 2, rest.last().push(c)));
                    assert(spec_split(s, seps).last() == rest.last());
                    assert(spec_split(s.push(c), seps) =~~= spec_split(s, seps).update(
                        spec_split(s, seps).len() - 1,
                        spec_split(s, seps).last().push(c),
                    ));
                }
            }
        }
    }
}

/// A separator-free sequence splits into itself alone.
pub proof fn lemma_split_sep_free(s: Seq<char>, seps: Seq<char>)
    requires
        forall|i: int| 0 <= i < s.len() ==> !seps.contains(#[trigger] s[i]),
    ensures
        spec_split(s, seps) == seq![s],
    decreases s.len(),
{
    if s.len() == 0 {
        assert(spec_split(s, seps) =~~= seq![s]);
    } else {
        let t = s.subrange(1, s.len() as int);
        lemma_split_sep_free(t, seps);
        assert(seq![s[0]].add(t) =~= s);
        assert(spec_split(s, seps) =~~= seq![s]);
    }
}

/// Splitting `a ++ [c] ++ b` at a separator `c`, with `a` separator-free,
/// yields `a` followed by the segments of `b`.
pub proof fn lemma_split_concat_sep(a: Seq<char>, c: char, b: Seq<char>, seps: Seq<char>)
    requires
        seps.contains(c),
        forall|i: int| 0 <= i < a.len() ==> !seps.contains(#[trigger] a[i]),
    ensures
        spec_split(a.add(seq![c]).add(b), seps) == seq![a].add(spec_split(b, seps)),
    decreases a.len(),
{
    let s = a.add(seq![c]).add(b);
    if a.len() == 0 {
        assert(s[0] == c);
        assert(s.subrange(1, s.len() as int) =~= b);
        assert(spec_split(s, seps) =~~= seq![a].add(spec_split(b, seps)));
    } else {
        let a2 = a.subrange(1, a.len() as int);
        lemma_split_concat_sep(a2, c, b, seps);
        assert(s[0] == a[0]);
        assert(s.subrange(1, s.len() as int) =~= a2.add(seq![c]).add(b));
        lemma_split_len(a2.add(seq![c]).add(b), seps);
        let rest = spec_split(a2.add(seq![c]).add(b), seps);
        assert(rest == seq![a2].add(spec_split(b, seps)));
        assert(rest[0] == a2);
        assert(seq![a[0]].add(a2) =~= a);
        assert(rest.subrange(1, rest.len() as int) =~= spec_split(b, seps));
        assert(spec_split(s, seps) =~~= seq![a].add(spec_split(b, seps)));
    }
}

/// True if `c` occurs in the separator list.
pub fn vec_contains_char(seps: &Vec<char>, c: char) -> (r: bool)
    ensures
        r == seps@.contains(c),
{
    let mut i: usize = 0;
    while i < seps.len()
        invariant
            i <= seps.len(),
            forall|j: int| 0 <= j < i ==> seps@[j] != c,
        decreases seps.len() - i,
    {
        if seps[i] == c {
            return true;
        }
        i = i + 1;
    }
    false
}

/// Split a string on a list of separator characters.
pub fn split_chars(s: &str, seps: &Vec<char>) -> (r: Vec<String>)
    ensures
        r@.map_values(|t: String| t@) == spec_split(s@, seps@),
{
    let n = s.unicode_len();
    let mut r: Vec<String> = Vec::new();
    let mut start: usize = 0;
    let mut i: usize = 0;
    proof {
        assert(s@.subrange(0, 0) =~= Seq::<char>::empty());
        assert(spec_split(s@.subrange(0, 0), seps@) =~= seq![Seq::<char>::empty()]);
        assert(r@.map_values(|t: String| t@).push(s@.subrange(0, 0)) =~= seq![
            Seq::<char>::empty(),
        ]);
    }
    while i < n
        invariant
            n == s@.len(),
            start <= i <= n,
            spec_split(s@.subrange(0, i as int), seps@) == r@.map_values(|t: String| t@).push(
                s@.subrange(start as int, i as int),
            ),
        decreases n - i,
    {
        let c = s.get_char(i);
        proof {
            assert(s@.subrange(0, i + 1) =~= s@.subrange(0, i as int).push(s@[i as int]));
            lemma_split_push(s@.subrange(0, i as int), s@[i as int], seps@);
        }
        if vec_contains_char(seps, c) {
            let seg = String::from_str(s.substring_char(start, i));
            r.push(seg);
            start = i + 1;
            proof {
                assert(s@.subrange(start as int, i + 1) =~= Seq::<char>::empty());
                assert(spec_split(s@.subrange(0, i + 1), seps@) =~= r@.map_values(
                    |t: String| t@,
                ).push(s@.subrange(start as int, i + 1)));
            }
        } else {
            proof {
                let old_split = spec_split(s@.subrange(0, i as int), seps@);
                assert(old_split.last() == s@.subrange(start as int, i as int));
                assert(s@.subrange(start as int, i as int).push(s@[i as int]) =~= s@.subrange(
                    start as int,
                    i + 1,
                ));
                assert(old_split.update(old_split.len() - 1, s@.subrange(start as int, i + 1))
                    =~= r@.map_values(|t: String| t@).push(s@.subrange(start as int, i + 1)));
            }
        }
        i = i + 1;
    }
    let seg = String::from_str(s.substring_char(start, n));
    r.push(seg);
    proof {
        assert(s@.subrange(0, n as int) =~= s@);
    }
    r
}

/// String equality by view.
pub fn eq_str(a: &str, b: &str) -> (r: bool)
    ensures
        r == (a@ == b@),
{
    let na = a.unicode_len();
    let nb = b.unicode_len();
    if na != nb {
        return false;
    }
    let mut i: usize = 0;
    while i < na
        invariant
            na == a@.len(),
            na == b@.len(),
            i <= na,
            forall|j: int| 0 <= j < i ==> a@[j] == b@[j],
        decreases na - i,
    {
        if a.get_char(i) != b.get_char(i) {
            return false;
        }
        i = i + 1;
    }
    proof {
        assert(a@ =~= b@);
    }
    true
}

/// True if `prefix` is a prefix of `s`.
pub open spec fn spec_starts_with(s: Seq<char>, prefix: Seq<char>) -> bool {
    s.len() >= prefix.len() && s.subrange(0, prefix.len() as int) == prefix
}

pub fn starts_with_str(s: &str, prefix: &str) -> (r: bool)
    ensures
        r == spec_starts_with(s@, prefix@),
{
    let n = s.unicode_len();
    let np = prefix.unicode_len();
    if n < np {
        return false;
    }
    let mut i: usize = 0;
    while i < np
        invariant
            n == s@.len(),
            np == prefix@.len(),
            np <= n,
            i <= np,
            forall|j: int| 0 <= j < i ==> #[trigger] s@[j] == prefix@[j],
        decreases np - i,
    {
        if s.get_char(i) != prefix.get_char(i) {
            proof {
                assert(s@.subrange(0, prefix@.len() as int)[i as int] == s@[i as int]);
            }
            return false;
        }
        i = i + 1;
    }
    proof {
        assert(s@.subrange(0, prefix@.len() as int) =~= prefix@);
    }
    true
}

/// First occurrence of `c` in `s`, if any.
pub open spec fn spec_find_char(s: Seq<char>, c: char, from: int) -> Option<int>
    decreases s.len() - from,
{
    if from < 0 || from >= s.len() {
        None
    } else if s[from] == c {
        Some(from)
    } else {
        spec_find_char(s, c, from + 1)
    }
}

pub fn find_char(s: &str, c: char) -> (r: Option<usize>)
    ensures
        match r {
            Some(i) => spec_find_char(s@, c, 0) == Some(i as int) && i < s@.len()
                && s@.index(i as int) == c,
            None => spec_find_char(s@, c, 0) is None,
        },
{
    let n = s.unicode_len();
    let mut i: usize = 0;
    while i < n
        invariant
            n == s@.len(),
            i <= n,
            spec_find_char(s@, c, 0) == spec_find_char(s@, c, i as int),
        decreases n - i,
    {
        if s.get_char(i) == c {
            return Some(i);
        }
        i = i + 1;
    }
    None
}

/// Last occurrence of `c` in `s`, if any.
pub open spec fn spec_rfind_char(s: Seq<char>, c: char, upto: int) -> Option<int>
    decreases upto,
{
    if upto <= 0 || upto > s.len() {
        None
    } else if s[upto - 1] == c {
        Some(upto - 1)
    } else {
        spec_rfind_char(s, c, upto - 1)
    }
}

pub fn rfind_char(s: &str, c: char) -> (r: Option<usize>)
    ensures
        match r {
            Some(i) => spec_rfind_char(s@, c, s@.len() as int) == Some(i as int) && i < s@.len()
                && s@[i as int] == c,
            None => spec_rfind_char(s@, c, s@.len() as int) is None,
        },
{
    let n = s.unicode_len();
    let mut i: usize = n;
    while i > 0
        invariant
            n == s@.len(),
            i <= n,
            spec_rfind_char(s@, c, n as int) == spec_rfind_char(s@, c, i as int),
        decreases i,
    {
        if s.get_char(i - 1) == c {
            return Some(i - 1);
        }
        i = i - 1;
    }
    None
}

/// True if `sub` occurs in `s` as a contiguous subsequence.
pub open spec fn spec_contains_substr(s: Seq<char>, sub: Seq<char>) -> bool {
    exists|i: int|
        0 <= i && i + sub.len() <= s.len() && #[trigger] s.subrange(i, i + sub.len() as int) == sub
}

pub fn contains_substr(s: &str, sub: &str) -> (r: bool)
    ensures
        r == spec_contains_substr(s@, sub@),
{
    let n = s.unicode_len();
    let m = sub.unicode_len();
    if m > n {
        proof {
            assert(!spec_contains_substr(s@, sub@));
        }
        return false;
    }
    if m == 0 {
        proof {
            assert(s@.subrange(0, 0 + sub@.len() as int) =~= sub@);
        }
        return true;
    }
    let limit = n - m;
    let mut i: usize = 0;
    while i <= limit
        invariant
            n == s@.len(),
            m == sub@.len(),
            0 < m <= n,
            limit == n - m,
            i <= limit + 1,
            forall|k: int|
                0 <= k < i ==> #[trigger] s@.subrange(k, k + sub@.len() as int) != sub@,
        decreases limit + 1 - i,
    {
        let piece = s.substring_char(i, i + m);
        if eq_str(piece, sub) {
            return true;
        }
        i = i + 1;
    }
    proof {
        assert forall|k: int| 0 <= k && k + sub@.len() <= s@.len() implies #[trigger] s@.subrange(
            k,
            k + sub@.len() as int,
        ) != sub@ by {
            assert(k < i);
        }
    }
    false
}

} // verus!

verus! {

/// No character of `s` equals `c`.
pub open spec fn seq_free_of(s: Seq<char>, c: char) -> bool {
    forall|i: int| 0 <= i < s.len() ==> s[i] != c
}

pub proof fn lemma_free_concat(a: Seq<char>, b: Seq<char>, c: char)
    requires
        seq_free_of(a, c),
        seq_free_of(b, c),
    ensures
        seq_free_of(a + b, c),
{
    assert forall|i: int| 0 <= i < (a + b).len() implies (a + b)[i] != c by {
        if i < a.len() {
            assert((a + b)[i] == a[i]);
        } else {
            assert((a + b)[i] == b[i - a.len()]);
        }
    }
}

/// A sequence free of `c` has no first occurrence of `c`.
pub proof fn lemma_find_none(s: Seq<char>, c: char, from: int)
    requires
        seq_free_of(s, c),
        0 <= from,
    ensures
        spec_find_char(s, c, from) is None,
    decreases s.len() - from,
{
    if from < s.len() {
        lemma_find_none(s, c, from + 1);
    }
}

/// The first occurrence of `c` in `x ++ [c] ++ y`, with `x` free of `c`,
/// is right after `x`.
pub proof fn lemma_find_concat(x: Seq<char>, c: char, y: Seq<char>)
    requires
        seq_free_of(x, c),
    ensures
        spec_find_char(x.add(seq![c]).add(y), c, 0) == Some(x.len() as int),
{
    lemma_find_concat_from(x, c, y, 0);
}

proof fn lemma_find_concat_from(x: Seq<char>, c: char, y: Seq<char>, from: int)
    requires
        seq_free_of(x, c),
        0 <= from <= x.len(),
    ensures
        spec_find_char(x.add(seq![c]).add(y), c, from) == Some(x.len() as int),
    decreases x.len() - from,
{
    let s = x.add(seq![c]).add(y);
    if from < x.len() {
        assert(s[from] == x[from]);
        lemma_find_concat_from(x, c, y, from + 1);
    } else {
        assert(s[from] == c);
    }
}

} // verus!
