//! A bounded memoization cache around the rewrite engine.
//!
//! Filtering is a pure function of the text and the pattern list, so
//! results — failures included — are stored and replayed.  The store is
//! bounded: entries are kept most-recently-used first, and the least
//! recently used entry is evicted once the capacity is exceeded.

use crate::rewrite::clean_url;
use crate::rewrite::result_view;
use crate::rewrite::spec_clean;
use crate::rewrite::FilterError;
use vstd::prelude::*;

verus! {

/// How many filtering results the cache holds at most.
pub const CACHE_CAPACITY: usize = 1024;

/// One memoized filtering call: the input text, the pattern list it was
/// filtered under, and the result.
pub struct CacheEntry {
    pub text: String,
    pub patterns: Vec<String>,
    pub result: Result<String, FilterError>,
}

/// The cache: stored calls, most recently used first.
pub struct Cache {
    pub entries: Vec<CacheEntry>,
}

/// The string views of `v`, copied.
fn clone_strings(v: &Vec<String>) -> (r: Vec<String>)
    ensures
        r@ == v@,
{
    let mut r: Vec<String> = Vec::new();
    let mut i: usize = 0;
    while i < v.len()
        invariant
            i <= v@.len(),
            r@ == v@.take(i as int),
        decreases v@.len() - i,
    {
        r.push(v[i].clone());
        proof {
            assert(v@.take(i as int).push(v@[i as int]) =~= v@.take(i as int + 1));
        }
        i = i + 1;
    }
    proof {
        assert(r@ =~= v@);
    }
    r
}

/// A copy of a filtering result.
fn clone_result(r: &Result<String, FilterError>) -> (c: Result<String, FilterError>)
    ensures
        c == *r,
{
    match r {
        Ok(s) => Ok(s.clone()),
        Err(e) => Err(*e),
    }
}

/// Character-wise string equality.
fn str_eq(a: &str, b: &str) -> (r: bool)
    ensures
        r == (a@ == b@),
{
    let na = a.unicode_len();
    let nb = b.unicode_len();
    if na != nb {
        return false;
    }
    let mut i: usize = 0;
    while i < na
        invariant
            na == a@.len(),
            na == b@.len(),
            i <= na,
            forall|j: int| 0 <= j < i ==> a@[j] == b@[j],
        decreases na - i,
    {
        if a.get_char(i) != b.get_char(i) {
            return false;
        }
        i = i + 1;
    }
    proof {
        assert(a@ =~= b@);
    }
    true
}

/// Element-wise equality of two pattern lists.
fn pats_eq(a: &Vec<String>, b: &Vec<String>) -> (r: bool)
    ensures
        r == (a.deep_view() == b.deep_view()),
{
    if a.len() != b.len() {
        proof {
            assert(a.deep_view().len() == a@.len());
            assert(b.deep_view().len() == b@.len());
        }
        return false;
    }
    let mut i: usize = 0;
    while i < a.len()
        invariant
            a@.len() == b@.len(),
            i <= a@.len(),
            forall|j: int| 0 <= j < i ==> a@[j]@ == b@[j]@,
        decreases a@.len() - i,
    {
        if !str_eq(a[i].as_str(), b[i].as_str()) {
            proof {
                assert(a.deep_view()[i as int] == a@[i as int]@);
                assert(b.deep_view()[i as int] == b@[i as int]@);
            }
            return false;
        }
        i = i + 1;
    }
    proof {
        assert(a.deep_view() =~~= b.deep_view());
    }
    true
}

impl Cache {
    /// Every stored result is exactly what the rewrite engine returns
    /// for its key, cleaned outputs are fixpoints, and the store is
    /// within capacity.
    pub open spec fn wf(self) -> bool {
        &&& self.entries@.len() <= CACHE_CAPACITY
        &&& forall|i: int| 0 <= i < self.entries@.len()
            ==> result_view((#[trigger] self.entries@[i]).result)
                == spec_clean(self.entries@[i].text@, self.entries@[i].patterns.deep_view())
        &&& forall|i: int| 0 <= i < self.entries@.len()
            ==> ((#[trigger] self.entries@[i]).result matches Ok(u)
                ==> spec_clean(u@, self.entries@[i].patterns.deep_view())
                    == Ok::<Seq<char>, FilterError>(u@))
    }

    /// Is a call with this text and pattern list stored?
    pub open spec fn spec_has(self, t: Seq<char>, p: Seq<Seq<char>>) -> bool {
        exists|i: int|
            0 <= i < self.entries@.len()
                && (#[trigger] self.entries@[i]).text@ == t
                && self.entries@[i].patterns.deep_view() == p
    }

    /// An empty cache.
    pub fn new() -> (r: Cache)
        ensures
            r.wf(),
            forall|t: Seq<char>, p: Seq<Seq<char>>| !r.spec_has(t, p),
    {
        Cache { entries: Vec::new() }
    }

    /// The memoized rewrite engine: returns exactly what `clean_url`
    /// returns for this text and pattern list, consulting the store
    /// first.  A hit only refreshes recency: the set of stored keys is
    /// unchanged.  A miss stores the new call at the front; below
    /// capacity every older entry is kept, at capacity exactly the
    /// least recently used entry — the last one — is evicted.
    pub fn get_or_compute(&mut self, text: &str, patterns: &Vec<String>) -> (r: Result<
        String,
        FilterError,
    >)
        requires
            old(self).wf(),
        ensures
            final(self).wf(),
            result_view(r) == spec_clean(text@, patterns.deep_view()),
            r matches Ok(u) ==> spec_clean(u@, patterns.deep_view()) == Ok::<
                Seq<char>,
                FilterError,
            >(u@),
            final(self).spec_has(text@, patterns.deep_view()),
            old(self).spec_has(text@, patterns.deep_view())
                ==> forall|t: Seq<char>, p: Seq<Seq<char>>|
                    final(self).spec_has(t, p) == old(self).spec_has(t, p),
            !old(self).spec_has(text@, patterns.deep_view())
                ==> (final(self).entries@.len() >= 1
                    && final(self).entries@[0].text@ == text@
                    && final(self).entries@[0].patterns.deep_view() == patterns.deep_view()),
            !old(self).spec_has(text@, patterns.deep_view())
                    && old(self).entries@.len() < CACHE_CAPACITY
                ==> final(self).entries@.skip(1) == old(self).entries@,
            !old(self).spec_has(text@, patterns.deep_view())
                    && old(self).entries@.len() == CACHE_CAPACITY
                ==> final(self).entries@.skip(1)
                    == old(self).entries@.take(CACHE_CAPACITY as int - 1),
    {
        let ghost tkey = text@;
        let ghost pkey = patterns.deep_view();
        let n = self.entries.len();
        let mut i: usize = 0;
        while i < n
            invariant
                *self == *old(self),
                old(self).wf(),
                n == self.entries@.len(),
                i <= n,
                forall|j: int| 0 <= j < i
                    ==> !((#[trigger] self.entries@[j]).text@ == tkey
                        && self.entries@[j].patterns.deep_view() == pkey),
                tkey == text@,
                pkey == patterns.deep_view(),
            decreases n - i,
        {
            let same_text = str_eq(self.entries[i].text.as_str(), text);
            let same_pats = pats_eq(&self.entries[i].patterns, patterns);
            if same_text && same_pats {
                let ghost before = self.entries@;
                let entry = self.entries.remove(i);
                let result = clone_result(&entry.result);
                self.entries.insert(0, entry);
                proof {
                    let after = self.entries@;
                    assert(old(self).spec_has(tkey, pkey)) by {
                        assert(before[i as int].text@ == tkey
                            && before[i as int].patterns.deep_view() == pkey);
                    }
                    assert(after == before.remove(i as int).insert(0, entry));
                    assert(after.len() == before.len());
                    assert(after[0] == before[i as int]);
                    assert(forall|j: int| 1 <= j < after.len()
                        ==> #[trigger] after[j] == (if j - 1 < i as int {
                            before[j - 1]
                        } else {
                            before[j]
                        }));
                    assert forall|j: int| 0 <= j < after.len()
                        implies exists|k: int|
                            0 <= k < before.len() && (#[trigger] after[j]) == before[k] by {
                        if j == 0 {
                            assert(after[j] == before[i as int]);
                        } else if j - 1 < i as int {
                            assert(after[j] == before[j - 1]);
                        } else {
                            assert(after[j] == before[j]);
                        }
                    }
                    assert((*self).wf());
                    assert((*self).spec_has(tkey, pkey)) by {
                        assert(after[0].text@ == tkey && after[0].patterns.deep_view() == pkey);
                    }
                    assert forall|t: Seq<char>, p: Seq<Seq<char>>|
                        (*self).spec_has(t, p) == old(self).spec_has(t, p) by {
                        if old(self).spec_has(t, p) {
                            let j = choose|j: int|
                                0 <= j < before.len() && (#[trigger] before[j]).text@ == t
                                    && before[j].patterns.deep_view() == p;
                            if j == i as int {
                                assert(after[0] == before[j]);
                            } else if j < i as int {
                                assert(after[j + 1] == before[j]);
                            } else {
                                assert(after[j] == before[j]);
                            }
                            assert((*self).spec_has(t, p));
                        }
                        if (*self).spec_has(t, p) {
                            let j = choose|j: int|
                                0 <= j < after.len() && (#[trigger] after[j]).text@ == t
                                    && after[j].patterns.deep_view() == p;
                            if j == 0 {
                                assert(before[i as int] == after[0]);
                            } else if j - 1 < i as int {
                                assert(before[j - 1] == after[j]);
                            } else {
                                assert(before[j] == after[j]);
                            }
                            assert(old(self).spec_has(t, p));
                        }
                    }
                }
                return result;
            }
            i = i + 1;
        }
        proof {
            assert(!old(self).spec_has(tkey, pkey));
        }
        let r = clean_url(text, patterns);
        let stored = CacheEntry {
            text: text.to_owned(),
            patterns: clone_strings(patterns),
            result: clone_result(&r),
        };
        proof {
            assert(stored.patterns.deep_view() =~~= pkey);
        }
        let ghost before = self.entries@;
        self.entries.insert(0, stored);
        let ghost mid = self.entries@;
        if self.entries.len() > CACHE_CAPACITY {
            let last = self.entries.len() - 1;
            let _evicted = self.entries.remove(last);
            proof {
                assert(before.len() == CACHE_CAPACITY);
                assert(forall|k: int| 1 <= k < mid.len() ==> #[trigger] mid[k] == before[k - 1]);
                assert(self.entries@.skip(1) =~= before.take(CACHE_CAPACITY as int - 1));
            }
        } else {
            proof {
                assert(before.len() < CACHE_CAPACITY);
                assert(self.entries@.skip(1) =~= before);
            }
        }
        proof {
            let after = self.entries@;
            assert(after[0].text@ == tkey && after[0].patterns.deep_view() == pkey);
            assert(forall|j: int| 1 <= j < after.len() ==> #[trigger] after[j] == before[j - 1]);
            assert((*self).wf());
            assert((*self).spec_has(tkey, pkey));
        }
        r
    }
}

} // verus!
