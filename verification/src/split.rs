//! Splitting and joining character sequences on a separator.
//!
//! Query strings are handled as `&`-separated chunks and a pattern is cut
//! at its first `@`; both reduce to the functions here.  The central facts
//! are that `join_with` undoes `split_on`, and `split_on` undoes
//! `join_with` on separator-free chunks.

use vstd::prelude::*;

verus! {

/// The characters of `s` strictly before the first occurrence of `c`
/// (all of `s` if `c` does not occur).
pub open spec fn prefix_until(s: Seq<char>, c: char) -> Seq<char>
    decreases s.len(),
{
    if s.len() == 0 {
        Seq::<char>::empty()
    } else if s[0] == c {
        Seq::<char>::empty()
    } else {
        seq![s[0]] + prefix_until(s.skip(1), c)
    }
}

/// The characters of `s` strictly after the first occurrence of `c`
/// (empty if `c` does not occur).
pub open spec fn suffix_after(s: Seq<char>, c: char) -> Seq<char>
    decreases s.len(),
{
    if s.len() == 0 {
        Seq::<char>::empty()
    } else if s[0] == c {
        s.skip(1)
    } else {
        suffix_after(s.skip(1), c)
    }
}

pub open spec fn contains_char(s: Seq<char>, c: char) -> bool {
    exists|i: int| 0 <= i < s.len() && s[i] == c
}

/// `s` split on `c`: the (always non-empty) sequence of separator-free
/// chunks; `n` separators yield `n + 1` chunks.
pub open spec fn split_on(s: Seq<char>, c: char) -> Seq<Seq<char>>
    decreases s.len(),
{
    if s.len() == 0 {
        seq![Seq::<char>::empty()]
    } else if s[0] == c {
        seq![Seq::<char>::empty()] + split_on(s.skip(1), c)
    } else {
        let rest = split_on(s.skip(1), c);
        rest.update(0, seq![s[0]] + rest[0])
    }
}

/// The chunks of `l`, joined with `c` between consecutive chunks.
pub open spec fn join_with(l: Seq<Seq<char>>, c: char) -> Seq<char>
    decreases l.len(),
{
    if l.len() == 0 {
        Seq::<char>::empty()
    } else if l.len() == 1 {
        l[0]
    } else {
        l[0] + seq![c] + join_with(l.skip(1), c)
    }
}

/// `l` with `p` glued onto the front of its first chunk.
pub open spec fn prepend_first(p: Seq<char>, l: Seq<Seq<char>>) -> Seq<Seq<char>>
    recommends
        l.len() >= 1,
{
    l.update(0, p + l[0])
}

pub proof fn lemma_split_on_len(s: Seq<char>, c: char)
    ensures
        split_on(s, c).len() >= 1,
    decreases s.len(),
{
    if s.len() > 0 {
        lemma_split_on_len(s.skip(1), c);
    }
}

/// `prefix_until` is the chunk before the first separator: if no `c`
/// stands before position `i`, and `i` is either a `c` or the end,
/// then the prefix is exactly `s.take(i)`.
pub proof fn lemma_prefix_until_eq(s: Seq<char>, c: char, i: int)
    requires
        0 <= i <= s.len(),
        forall|j: int| 0 <= j < i ==> s[j] != c,
        i < s.len() ==> s[i] == c,
    ensures
        prefix_until(s, c) == s.take(i),
    decreases s.len(),
{
    if s.len() == 0 {
        assert(prefix_until(s, c) =~= s.take(i));
    } else if i == 0 {
        assert(prefix_until(s, c) =~= s.take(0));
    } else {
        assert(s[0] != c);
        assert(forall|j: int| 0 <= j < i - 1 ==> s.skip(1)[j] == s[j + 1] && s[j + 1] != c);
        assert(i - 1 < s.skip(1).len() ==> s.skip(1)[i - 1] == c);
        lemma_prefix_until_eq(s.skip(1), c, i - 1);
        assert(seq![s[0]] + s.skip(1).take(i - 1) =~= s.take(i));
    }
}

/// `suffix_after` is everything past the first separator.
pub proof fn lemma_suffix_after_eq(s: Seq<char>, c: char, i: int)
    requires
        0 <= i < s.len(),
        s[i] == c,
        forall|j: int| 0 <= j < i ==> s[j] != c,
    ensures
        suffix_after(s, c) == s.skip(i + 1),
    decreases s.len(),
{
    if i == 0 {
    } else {
        assert(s[0] != c);
        assert(forall|j: int| 0 <= j < i - 1 ==> s.skip(1)[j] == s[j + 1] && s[j + 1] != c);
        assert(s.skip(1)[i - 1] == c);
        lemma_suffix_after_eq(s.skip(1), c, i - 1);
        assert(s.skip(1).skip(i) =~= s.skip(i + 1));
    }
}

/// No chunk of a split contains the separator.
pub proof fn lemma_split_no_sep(s: Seq<char>, c: char)
    ensures
        forall|k: int, m: int|
            0 <= k < split_on(s, c).len() && 0 <= m < split_on(s, c)[k].len()
                ==> split_on(s, c)[k][m] != c,
    decreases s.len(),
{
    if s.len() == 0 {
    } else if s[0] == c {
        lemma_split_no_sep(s.skip(1), c);
        let r = split_on(s, c);
        let rest = split_on(s.skip(1), c);
        assert forall|k: int, m: int|
            0 <= k < r.len() && 0 <= m < r[k].len() implies r[k][m] != c by {
            if k > 0 {
                assert(r[k] == rest[k - 1]);
            }
        }
    } else {
        lemma_split_no_sep(s.skip(1), c);
        let r = split_on(s, c);
        let rest = split_on(s.skip(1), c);
        lemma_split_on_len(s.skip(1), c);
        assert forall|k: int, m: int|
            0 <= k < r.len() && 0 <= m < r[k].len() implies r[k][m] != c by {
            if k == 0 {
                assert(r[0] == seq![s[0]] + rest[0]);
                if m > 0 {
                    assert(r[0][m] == rest[0][m - 1]);
                }
            } else {
                assert(r[k] == rest[k]);
            }
        }
    }
}

/// Every character of every chunk of a split is a character of `s`.
pub proof fn lemma_split_chars(s: Seq<char>, c: char)
    ensures
        forall|k: int, m: int|
            0 <= k < split_on(s, c).len() && 0 <= m < split_on(s, c)[k].len()
                ==> s.contains(split_on(s, c)[k][m]),
    decreases s.len(),
{
    if s.len() == 0 {
    } else {
        lemma_split_chars(s.skip(1), c);
        let r = split_on(s, c);
        let rest = split_on(s.skip(1), c);
        lemma_split_on_len(s.skip(1), c);
        assert forall|k: int, m: int|
            0 <= k < r.len() && 0 <= m < r[k].len() implies s.contains(r[k][m]) by {
            if s[0] == c {
                if k > 0 {
                    assert(r[k] == rest[k - 1]);
                    assert(s.skip(1).contains(rest[k - 1][m]));
                    let i = choose|i: int|
                        0 <= i < s.skip(1).len() && s.skip(1)[i] == rest[k - 1][m];
                    assert(s[i + 1] == rest[k - 1][m]);
                }
            } else {
                if k == 0 {
                    assert(r[0] == seq![s[0]] + rest[0]);
                    if m == 0 {
                        assert(s[0] == r[0][0]);
                    } else {
                        assert(r[0][m] == rest[0][m - 1]);
                        assert(s.skip(1).contains(rest[0][m - 1]));
                        let i = choose|i: int|
                            0 <= i < s.skip(1).len() && s.skip(1)[i] == rest[0][m - 1];
                        assert(s[i + 1] == rest[0][m - 1]);
                    }
                } else {
                    assert(r[k] == rest[k]);
                    assert(s.skip(1).contains(rest[k][m]));
                    let i = choose|i: int|
                        0 <= i < s.skip(1).len() && s.skip(1)[i] == rest[k][m];
                    assert(s[i + 1] == rest[k][m]);
                }
            }
        }
    }
}

/// Joining a split gives back the original string.
pub proof fn lemma_join_split(s: Seq<char>, c: char)
    ensures
        join_with(split_on(s, c), c) == s,
    decreases s.len(),
{
    if s.len() == 0 {
    } else if s[0] == c {
        lemma_join_split(s.skip(1), c);
        let rest = split_on(s.skip(1), c);
        lemma_split_on_len(s.skip(1), c);
        let r = seq![Seq::<char>::empty()] + rest;
        assert(r.skip(1) =~~= rest);
        assert(r[0] + seq![c] + join_with(rest, c) =~= s);
    } else {
        lemma_join_split(s.skip(1), c);
        let rest = split_on(s.skip(1), c);
        lemma_split_on_len(s.skip(1), c);
        let r = rest.update(0, seq![s[0]] + rest[0]);
        if rest.len() == 1 {
            assert(join_with(rest, c) == rest[0]);
            assert(r[0] =~= seq![s[0]] + s.skip(1));
            assert(join_with(r, c) =~= s);
        } else {
            assert(r.skip(1) =~~= rest.skip(1));
            assert(join_with(r, c) == r[0] + seq![c] + join_with(rest.skip(1), c));
            assert(rest[0] + seq![c] + join_with(rest.skip(1), c) == s.skip(1));
            assert(join_with(r, c) =~= seq![s[0]] + s.skip(1));
            assert(seq![s[0]] + s.skip(1) =~= s);
        }
    }
}

/// A string without the separator splits into the single chunk of itself.
pub proof fn lemma_split_single(s: Seq<char>, c: char)
    requires
        !contains_char(s, c),
    ensures
        split_on(s, c) == seq![s],
    decreases s.len(),
{
    if s.len() == 0 {
        assert(split_on(s, c) =~~= seq![s]);
    } else {
        assert(s[0] != c);
        assert(!contains_char(s.skip(1), c)) by {
            if contains_char(s.skip(1), c) {
                let i = choose|i: int| 0 <= i < s.skip(1).len() && s.skip(1)[i] == c;
                assert(s[i + 1] == c);
            }
        }
        lemma_split_single(s.skip(1), c);
        let rest = split_on(s.skip(1), c);
        assert(rest[0] == s.skip(1));
        assert(rest.update(0, seq![s[0]] + s.skip(1)) =~~= seq![s]);
    }
}

/// Splitting `a`, a separator, then `t` yields `a` followed by the split of `t`.
pub proof fn lemma_split_prefix(a: Seq<char>, t: Seq<char>, c: char)
    requires
        !contains_char(a, c),
    ensures
        split_on(a + seq![c] + t, c) == seq![a] + split_on(t, c),
    decreases a.len(),
{
    let s = a + seq![c] + t;
    if a.len() == 0 {
        assert(s[0] == c);
        assert(s.skip(1) =~= t);
        assert(split_on(s, c) =~~= seq![a] + split_on(t, c));
    } else {
        assert(s[0] == a[0]);
        assert(a[0] != c);
        assert(!contains_char(a.skip(1), c)) by {
            if contains_char(a.skip(1), c) {
                let i = choose|i: int| 0 <= i < a.skip(1).len() && a.skip(1)[i] == c;
                assert(a[i + 1] == c);
            }
        }
        assert(s.skip(1) =~= a.skip(1) + seq![c] + t);
        lemma_split_prefix(a.skip(1), t, c);
        let rest = split_on(s.skip(1), c);
        assert(rest == seq![a.skip(1)] + split_on(t, c));
        lemma_split_on_len(t, c);
        assert(rest[0] == a.skip(1));
        assert(seq![s[0]] + a.skip(1) =~= a);
        assert(rest.update(0, seq![s[0]] + rest[0]) =~~= seq![a] + split_on(t, c));
    }
}

/// Splitting a join of separator-free chunks gives back the chunks.
pub proof fn lemma_split_join(l: Seq<Seq<char>>, c: char)
    requires
        l.len() >= 1,
        forall|k: int, m: int| 0 <= k < l.len() && 0 <= m < l[k].len() ==> l[k][m] != c,
    ensures
        split_on(join_with(l, c), c) == l,
    decreases l.len(),
{
    assert(!contains_char(l[0], c));
    if l.len() == 1 {
        lemma_split_single(l[0], c);
        assert(split_on(join_with(l, c), c) =~~= l);
    } else {
        let t = join_with(l.skip(1), c);
        lemma_split_prefix(l[0], t, c);
        assert(forall|k: int, m: int|
            0 <= k < l.skip(1).len() && 0 <= m < l.skip(1)[k].len()
                ==> l.skip(1)[k][m] == l[k + 1][m] && l[k + 1][m] != c);
        lemma_split_join(l.skip(1), c);
        assert(seq![l[0]] + l.skip(1) =~~= l);
    }
}

/// Every character of a join is the separator or a character of a chunk.
pub proof fn lemma_join_chars(l: Seq<Seq<char>>, c: char)
    ensures
        forall|ch: char|
            join_with(l, c).contains(ch)
                ==> ch == c || exists|k: int| 0 <= k < l.len() && l[k].contains(ch),
    decreases l.len(),
{
    if l.len() <= 1 {
        assert forall|ch: char| join_with(l, c).contains(ch)
            implies ch == c || exists|k: int| 0 <= k < l.len() && l[k].contains(ch) by {
            if l.len() == 1 {
                assert(l[0].contains(ch));
            }
        }
    } else {
        lemma_join_chars(l.skip(1), c);
        let j = join_with(l, c);
        let rest = join_with(l.skip(1), c);
        assert forall|ch: char| j.contains(ch)
            implies ch == c || exists|k: int| 0 <= k < l.len() && l[k].contains(ch) by {
            let i = choose|i: int| 0 <= i < j.len() && j[i] == ch;
            if i < l[0].len() {
                assert(l[0][i] == ch);
                assert(l[0].contains(ch));
            } else if i == l[0].len() {
                assert(ch == c);
            } else {
                let i2 = i - l[0].len() - 1;
                assert(rest[i2] == ch);
                assert(rest.contains(ch));
                if ch != c {
                    let k = choose|k: int| 0 <= k < l.skip(1).len() && l.skip(1)[k].contains(ch);
                    assert(l[k + 1].contains(ch));
                }
            }
        }
    }
}

/// Extending a join by one more chunk appends a separator and the chunk.
pub proof fn lemma_join_take_step(l: Seq<Seq<char>>, c: char, k: int)
    requires
        0 < k < l.len(),
    ensures
        join_with(l.take(k + 1), c) == join_with(l.take(k), c) + seq![c] + l[k],
    decreases k,
{
    assert(l.take(k + 1)[0] == l[0]);
    assert(l.take(k + 1).skip(1) =~~= l.skip(1).take(k));
    assert(l.take(k).skip(1) =~~= l.skip(1).take(k - 1));
    if k == 1 {
        assert(join_with(l.skip(1).take(1), c) == l.skip(1).take(1)[0]);
        assert(join_with(l.take(1), c) == l.take(1)[0]);
        assert(join_with(l.take(2), c) =~= join_with(l.take(1), c) + seq![c] + l[1]);
    } else {
        lemma_join_take_step(l.skip(1), c, k - 1);
        assert(l.skip(1)[k - 1] == l[k]);
        assert(join_with(l.take(k + 1), c)
            == l[0] + seq![c] + (join_with(l.skip(1).take(k - 1), c) + seq![c] + l[k]));
        assert(join_with(l.take(k), c) == l[0] + seq![c] + join_with(l.skip(1).take(k - 1), c));
        assert(l[0] + seq![c] + (join_with(l.skip(1).take(k - 1), c) + seq![c] + l[k])
            =~= (l[0] + seq![c] + join_with(l.skip(1).take(k - 1), c)) + seq![c] + l[k]);
    }
}

/// The chunks of `l` joined with `c` between consecutive chunks.
pub(crate) fn join_chars(l: &Vec<Vec<char>>, c: char) -> (r: Vec<char>)
    ensures
        r@ == join_with(l.deep_view(), c),
{
    let ghost lv = l.deep_view();
    let mut r: Vec<char> = Vec::new();
    let mut k: usize = 0;
    proof {
        assert(lv.take(0) =~~= Seq::<Seq<char>>::empty());
    }
    while k < l.len()
        invariant
            k <= l@.len(),
            lv == l.deep_view(),
            lv.len() == l@.len(),
            r@ == join_with(lv.take(k as int), c),
        decreases l@.len() - k,
    {
        let ghost base = r@;
        if k > 0 {
            r.push(c);
        }
        let seg = &l[k];
        let mut m: usize = 0;
        while m < seg.len()
            invariant
                m <= seg@.len(),
                r@ == base + (if k > 0 { seq![c] } else { Seq::<char>::empty() })
                    + seg@.take(m as int),
            decreases seg@.len() - m,
        {
            r.push(seg[m]);
            proof {
                assert(seg@.take(m as int).push(seg@[m as int]) =~= seg@.take(m as int + 1));
            }
            m = m + 1;
        }
        proof {
            assert(seg@.take(seg@.len() as int) =~= seg@);
            assert(lv[k as int] == seg@);
            if k == 0 {
                assert(lv.take(1) =~~= seq![lv[0]]);
                assert(join_with(lv.take(1), c) == lv[0]);
                assert(r@ =~= lv[0]);
            } else {
                lemma_join_take_step(lv, c, k as int);
                assert(r@ =~= join_with(lv.take(k as int), c) + seq![c] + lv[k as int]);
            }
        }
        k = k + 1;
    }
    proof {
        assert(lv.take(lv.len() as int) =~~= lv);
    }
    r
}

/// `s` cut at its first occurrence of `c`: the part before it, and, when
/// `c` occurs at all, the part after it.
pub(crate) fn split_at_char(s: &Vec<char>, c: char) -> (r: (Vec<char>, Option<Vec<char>>))
    ensures
        r.0@ == prefix_until(s@, c),
        match r.1 {
            Some(d) => contains_char(s@, c) && d@ == suffix_after(s@, c),
            None => !contains_char(s@, c),
        },
{
    let mut pre: Vec<char> = Vec::new();
    let mut i: usize = 0;
    while i < s.len()
        invariant
            i <= s@.len(),
            pre@ == s@.take(i as int),
            forall|j: int| 0 <= j < i ==> s@[j] != c,
        decreases s@.len() - i,
    {
        if s[i] == c {
            let mut suf: Vec<char> = Vec::new();
            let mut m: usize = i + 1;
            while m < s.len()
                invariant
                    i < s@.len(),
                    i + 1 <= m <= s@.len(),
                    suf@ == s@.subrange(i as int + 1, m as int),
                decreases s@.len() - m,
            {
                suf.push(s[m]);
                proof {
                    assert(s@.subrange(i as int + 1, m as int).push(s@[m as int])
                        =~= s@.subrange(i as int + 1, m as int + 1));
                }
                m = m + 1;
            }
            proof {
                lemma_prefix_until_eq(s@, c, i as int);
                lemma_suffix_after_eq(s@, c, i as int);
                assert(suf@ =~= s@.skip(i as int + 1));
            }
            return (pre, Some(suf));
        }
        pre.push(s[i]);
        proof {
            assert(s@.take(i as int).push(s@[i as int]) =~= s@.take(i as int + 1));
        }
        i = i + 1;
    }
    proof {
        lemma_prefix_until_eq(s@, c, s@.len() as int);
        assert(pre@ =~= s@);
    }
    (pre, None)
}

/// Relies on std's `FromIterator<char> for String`: collecting characters
/// yields the string of exactly those characters, in order.
#[verifier::external_body]
pub(crate) fn string_from_chars(v: &Vec<char>) -> (r: String)
    ensures
        r@ == v@,
{
    v.iter().collect()
}

/// The chunks of `s` between occurrences of `c`, in order.
pub(crate) fn split_chars(s: &Vec<char>, c: char) -> (r: Vec<Vec<char>>)
    ensures
        r.deep_view() == split_on(s@, c),
        r@.len() >= 1,
{
    let ghost whole = split_on(s@, c);
    let mut done: Vec<Vec<char>> = Vec::new();
    let mut cur: Vec<char> = Vec::new();
    let mut i: usize = 0;
    proof {
        lemma_split_on_len(s@, c);
        assert(s@.skip(0) =~= s@);
        assert(done.deep_view() + prepend_first(cur@, split_on(s@.skip(0), c)) =~~= whole);
    }
    while i < s.len()
        invariant
            i <= s@.len(),
            whole == split_on(s@, c),
            whole == done.deep_view() + prepend_first(cur@, split_on(s@.skip(i as int), c)),
        decreases s@.len() - i,
    {
        let x = s[i];
        proof {
            lemma_split_on_len(s@.skip(i as int + 1), c);
            assert(s@.skip(i as int).len() > 0);
            assert(s@.skip(i as int)[0] == x);
            assert(s@.skip(i as int).skip(1) =~= s@.skip(i as int + 1));
        }
        let ghost rest = split_on(s@.skip(i as int + 1), c);
        if x == c {
            proof {
                assert(split_on(s@.skip(i as int), c) == seq![Seq::<char>::empty()] + rest);
                assert(prepend_first(cur@, seq![Seq::<char>::empty()] + rest)
                    =~~= seq![cur@] + rest);
            }
            let ghost old_done = done.deep_view();
            let ghost prev_cur = cur@;
            done.push(cur);
            cur = Vec::new();
            proof {
                assert(done.deep_view() =~~= old_done + seq![prev_cur]);
                assert(prepend_first(Seq::<char>::empty(), rest) =~~= rest);
                assert(old_done + seq![prev_cur] + rest
                    =~~= done.deep_view() + prepend_first(cur@, rest));
            }
        } else {
            let ghost old_cur = cur@;
            cur.push(x);
            proof {
                assert(split_on(s@.skip(i as int), c) == rest.update(0, seq![x] + rest[0]));
                assert(prepend_first(old_cur, rest.update(0, seq![x] + rest[0]))
                    =~~= prepend_first(old_cur + seq![x], rest));
                assert(cur@ == old_cur + seq![x]);
            }
        }
        i = i + 1;
    }
    proof {
        assert(s@.skip(s@.len() as int) =~= Seq::<char>::empty());
        assert(split_on(Seq::<char>::empty(), c) == seq![Seq::<char>::empty()]);
        assert(prepend_first(cur@, seq![Seq::<char>::empty()]) =~~= seq![cur@]);
    }
    let ghost old_done = done.deep_view();
    done.push(cur);
    proof {
        assert(done.deep_view() =~~= old_done + seq![cur@]);
        assert(done.deep_view() =~~= whole);
    }
    done
}

} // verus!
