//! The URL rewrite engine.
//!
//! `clean_url` parses a piece of text as an absolute URL, drops every
//! query parameter whose key matches an applicable pattern, and
//! reserializes the URL with the surviving parameters in their original
//! order, path and fragment untouched.  A URL whose whole query is
//! filtered away is rebuilt without a dangling `?`.
//!
//! Parsing and reserialization are done by the `url` crate behind two
//! trusted wrappers; everything between them — splitting the query,
//! matching keys, filtering, joining — is verified against the
//! specification functions in this file.

use crate::glob::chars_vec;
use crate::glob::glob_match_chars;
use crate::glob::glob_matches;
use crate::rules::applies_to;
use crate::rules::domain_glob;
use crate::rules::is_scoped;
use crate::rules::param_glob;
use crate::split::join_chars;
use crate::split::join_with;
use crate::split::lemma_join_chars;
use crate::split::lemma_join_split;
use crate::split::lemma_split_chars;
use crate::split::lemma_split_join;
use crate::split::lemma_split_no_sep;
use crate::split::prefix_until;
use crate::split::split_at_char;
use crate::split::split_chars;
use crate::split::split_on;
use crate::split::string_from_chars;
use vstd::prelude::*;

verus! {

/// Why a piece of text was left alone: it is not an absolute URL at all,
/// or it is a URL without a host (such as a `mailto:` address).  Both are
/// expected, recoverable outcomes.
#[derive(Clone, Copy, Debug, PartialEq, Eq, Structural)]
pub enum FilterError {
    NotAUrl,
    NoHost,
}

/// The key of a query chunk: the characters before its first `=`, or the
/// whole chunk when it carries no value.
///
/// Keys are matched in their serialized spelling: no percent- or
/// plus-decoding is applied, so `delete%5Fme` is a different key than
/// `delete_me`.  This is the defined contract of the matcher.
pub open spec fn seg_key(seg: Seq<char>) -> Seq<char> {
    prefix_until(seg, '=')
}

/// Does pattern `p` remove chunk `seg` from a URL with host `host`?
pub open spec fn removes(p: Seq<char>, host: Seq<char>, seg: Seq<char>) -> bool {
    applies_to(p, host) && glob_matches(param_glob(p), seg_key(seg))
}

/// The chunks of `segs` whose key does not match the parameter glob `pg`,
/// in order.
pub open spec fn drop_matching(segs: Seq<Seq<char>>, pg: Seq<char>) -> Seq<Seq<char>>
    decreases segs.len(),
{
    if segs.len() == 0 {
        Seq::<Seq<char>>::empty()
    } else if glob_matches(pg, seg_key(segs[0])) {
        drop_matching(segs.skip(1), pg)
    } else {
        seq![segs[0]] + drop_matching(segs.skip(1), pg)
    }
}

/// One pattern applied to the surviving chunks: a pattern that does not
/// apply to this host leaves them untouched.
pub open spec fn apply_one(segs: Seq<Seq<char>>, p: Seq<char>, host: Seq<char>) -> Seq<Seq<char>> {
    if applies_to(p, host) {
        drop_matching(segs, param_glob(p))
    } else {
        segs
    }
}

/// All patterns applied in order, each to the survivors of the previous
/// one.
pub open spec fn apply_all(
    segs: Seq<Seq<char>>,
    pats: Seq<Seq<char>>,
    host: Seq<char>,
) -> Seq<Seq<char>>
    decreases pats.len(),
{
    if pats.len() == 0 {
        segs
    } else {
        apply_all(apply_one(segs, pats[0], host), pats.skip(1), host)
    }
}

/// Whether the text parses as an absolute URL.
pub uninterp spec fn url_parses(text: Seq<char>) -> bool;

/// The host of the parsed URL, if it has one.
pub uninterp spec fn url_host(text: Seq<char>) -> Option<Seq<char>>;

/// The serialized query of the parsed URL, if it has one.
pub uninterp spec fn url_query(text: Seq<char>) -> Option<Seq<char>>;

/// The serialization of the parsed URL with its query replaced by `q`
/// (`None` removes the query).
pub uninterp spec fn url_with_query(text: Seq<char>, q: Option<Seq<char>>) -> Seq<char>;

/// The view of an optional owned string.
pub open spec fn opt_str_view(o: Option<String>) -> Option<Seq<char>> {
    match o {
        Some(s) => Some(s@),
        None => None,
    }
}

/// The view of an optional borrowed string.
pub open spec fn opt_ref_view(o: Option<&str>) -> Option<Seq<char>> {
    match o {
        Some(s) => Some(s@),
        None => None,
    }
}

/// Every character of `a` occurs in `b` or is the chunk separator `&`.
pub open spec fn chars_within(a: Seq<char>, b: Seq<char>) -> bool {
    forall|i: int| 0 <= i < a.len() ==> b.contains(#[trigger] a[i]) || a[i] == '&'
}

/// What the URL parser reports of a piece of text.
pub struct UrlInfo {
    /// The host, if the URL has one.
    pub host: Option<String>,
    /// The serialized query, if the URL has one.
    pub query: Option<String>,
}

/// Relies on `url::Url::parse`, `Url::host_str` and `Url::query`: parsing
/// is a pure function of the text, and a successful parse reports the
/// URL's host and its serialized query, if any.  `url_parses`, `url_host`
/// and `url_query` name those three results.
#[verifier::external_body]
fn parse_url_info(text: &str) -> (r: Option<UrlInfo>)
    ensures
        r is Some <==> url_parses(text@),
        r matches Some(info) ==> opt_str_view(info.host) == url_host(text@)
            && opt_str_view(info.query) == url_query(text@),
{
    match url::Url::parse(text) {
        Ok(u) => Some(UrlInfo {
            host: u.host_str().map(|h| h.to_owned()),
            query: u.query().map(|q| q.to_owned()),
        }),
        Err(_) => None,
    }
}

/// Relies on `url::Url::parse`, `Url::set_query` and `Url::to_string`
/// (`Display`): `url_with_query` names the serialization of the parsed
/// URL with its query replaced.  The clauses about the result's own parse
/// record what the WHATWG algorithm guarantees of a serialization: it
/// parses back to the same URL, so its host is kept and replacing its
/// query by its own query is the identity; a removed query stays absent;
/// and a replacement query whose characters all already occur in this
/// URL's serialized query (or are `&`) is taken over verbatim, since
/// those characters pass the scheme's query percent-encoding untouched.
///
/// A `Some` replacement is only admitted when the URL has a query, the
/// replacement's characters all occur in it (or are `&`), and it has no
/// more of them: `set_query` records byte positions as `u32` with an
/// unchecked conversion, so a rebuilt serialization longer than the
/// parsed one could overflow that range and panic.  Characters drawn
/// from the serialized query are ASCII outside the scheme's query
/// encode set, so each is written back as the one byte it came from;
/// with no more characters than the old query, the rebuilt
/// serialization never outgrows the parsed one, whose positions the
/// parser already bounded.
#[verifier::external_body]
fn replace_query(text: &str, q: Option<&str>) -> (r: String)
    requires
        url_parses(text@),
        q matches Some(s) ==> (url_query(text@) matches Some(qq) && s@.len() <= qq.len()
            && chars_within(s@, qq)),
    ensures
        r@ == url_with_query(text@, opt_ref_view(q)),
        url_parses(r@),
        url_host(r@) == url_host(text@),
        q is None ==> url_query(r@) == None::<Seq<char>>,
        q matches Some(qs) ==> url_query(text@) matches Some(q0)
            ==> chars_within(qs@, q0) ==> url_query(r@) == Some(qs@),
        url_with_query(r@, url_query(r@)) == r@,
{
    let mut u = match url::Url::parse(text) {
        Ok(u) => u,
        Err(_) => return String::new(),
    };
    u.set_query(q);
    u.to_string()
}

/// Every surviving chunk was already there, and no pattern removes it.
pub proof fn lemma_drop_matching_sub(segs: Seq<Seq<char>>, pg: Seq<char>)
    ensures
        forall|x: Seq<char>| #[trigger] drop_matching(segs, pg).contains(x)
            ==> segs.contains(x) && !glob_matches(pg, seg_key(x)),
    decreases segs.len(),
{
    if segs.len() > 0 {
        lemma_drop_matching_sub(segs.skip(1), pg);
        let d = drop_matching(segs, pg);
        let drest = drop_matching(segs.skip(1), pg);
        assert forall|x: Seq<char>| #[trigger] d.contains(x)
            implies segs.contains(x) && !glob_matches(pg, seg_key(x)) by {
            if glob_matches(pg, seg_key(segs[0])) {
                assert(drest.contains(x));
                let i = choose|i: int| 0 <= i < segs.skip(1).len() && segs.skip(1)[i] == x;
                assert(segs[i + 1] == x);
            } else {
                let i = choose|i: int| 0 <= i < d.len() && d[i] == x;
                if i == 0 {
                    assert(x == segs[0]);
                } else {
                    assert(drest[i - 1] == x);
                    assert(drest.contains(x));
                    let j = choose|j: int| 0 <= j < segs.skip(1).len() && segs.skip(1)[j] == x;
                    assert(segs[j + 1] == x);
                }
            }
        }
    }
}

/// A chunk list that no chunk of matches the glob is left unchanged.
pub proof fn lemma_drop_matching_id(segs: Seq<Seq<char>>, pg: Seq<char>)
    requires
        forall|j: int| 0 <= j < segs.len() ==> !glob_matches(pg, seg_key(#[trigger] segs[j])),
    ensures
        drop_matching(segs, pg) == segs,
    decreases segs.len(),
{
    if segs.len() > 0 {
        assert(forall|j: int| 0 <= j < segs.skip(1).len()
            ==> segs.skip(1)[j] == segs[j + 1] && !glob_matches(pg, seg_key(#[trigger] segs.skip(1)[j])));
        lemma_drop_matching_id(segs.skip(1), pg);
        assert(seq![segs[0]] + segs.skip(1) =~~= segs);
    }
}

/// A pattern that does not apply to the host leaves the chunks alone.
///
/// This is one half of the host-scoping law: a scoped pattern whose
/// domain glob does not match the URL's host removes nothing.
pub proof fn lemma_scoped_pattern_inert(segs: Seq<Seq<char>>, p: Seq<char>, host: Seq<char>)
    requires
        is_scoped(p),
        !glob_matches(domain_glob(p), host),
    ensures
        apply_one(segs, p, host) == segs,
{
}

/// A chunk whose key matches the parameter glob of a pattern that
/// applies to the host does not survive that pattern.
///
/// Together with `lemma_scoped_pattern_inert` this is the host-scoping
/// law: a scoped pattern removes a matching parameter exactly on the
/// hosts its domain glob matches.
pub proof fn lemma_pattern_removes(
    segs: Seq<Seq<char>>,
    p: Seq<char>,
    host: Seq<char>,
    x: Seq<char>,
)
    requires
        removes(p, host, x),
    ensures
        !apply_one(segs, p, host).contains(x),
{
    lemma_drop_matching_sub(segs, param_glob(p));
}

/// Every chunk surviving the whole pattern list was a chunk of the
/// input, and no pattern of the list removes it.
///
/// This is the other half of the host-scoping law: a chunk is removed
/// only by a pattern that applies to the host and whose parameter glob
/// matches the chunk's key.
pub proof fn lemma_apply_all_sub(segs: Seq<Seq<char>>, pats: Seq<Seq<char>>, host: Seq<char>)
    ensures
        forall|x: Seq<char>| #[trigger] apply_all(segs, pats, host).contains(x)
            ==> segs.contains(x),
        forall|x: Seq<char>, k: int|
            #[trigger] apply_all(segs, pats, host).contains(x) && 0 <= k < pats.len()
                ==> !removes(#[trigger] pats[k], host, x),
    decreases pats.len(),
{
    if pats.len() > 0 {
        let s1 = apply_one(segs, pats[0], host);
        let rest_res = apply_all(s1, pats.skip(1), host);
        assert(apply_all(segs, pats, host) == rest_res);
        lemma_apply_all_sub(s1, pats.skip(1), host);
        lemma_drop_matching_sub(segs, param_glob(pats[0]));
        assert forall|x: Seq<char>| #[trigger] apply_all(segs, pats, host).contains(x)
            implies segs.contains(x) by {
            assert(rest_res.contains(x));
            assert(s1.contains(x));
        }
        assert forall|x: Seq<char>, k: int|
            #[trigger] apply_all(segs, pats, host).contains(x) && 0 <= k < pats.len()
            implies !removes(#[trigger] pats[k], host, x) by {
            assert(rest_res.contains(x));
            assert(s1.contains(x));
            if k == 0 {
                if applies_to(pats[0], host) {
                    assert(!glob_matches(param_glob(pats[0]), seg_key(x)));
                }
            } else {
                assert(pats.skip(1)[k - 1] == pats[k]);
                assert(!removes(pats.skip(1)[k - 1], host, x));
            }
        }
    }
}

/// Chunks that no pattern of the list removes survive the whole list
/// unchanged.
pub proof fn lemma_apply_all_id(segs: Seq<Seq<char>>, pats: Seq<Seq<char>>, host: Seq<char>)
    requires
        forall|j: int, k: int|
            0 <= j < segs.len() && 0 <= k < pats.len()
                ==> !removes(#[trigger] pats[k], host, #[trigger] segs[j]),
    ensures
        apply_all(segs, pats, host) == segs,
    decreases pats.len(),
{
    if pats.len() > 0 {
        if applies_to(pats[0], host) {
            assert forall|j: int| 0 <= j < segs.len()
                implies !glob_matches(param_glob(pats[0]), seg_key(#[trigger] segs[j])) by {
                assert(!removes(pats[0], host, segs[j]));
            }
            lemma_drop_matching_id(segs, param_glob(pats[0]));
        }
        assert(apply_one(segs, pats[0], host) == segs);
        assert forall|j: int, k: int|
            0 <= j < segs.len() && 0 <= k < pats.skip(1).len()
            implies !removes(#[trigger] pats.skip(1)[k], host, #[trigger] segs[j]) by {
            assert(pats.skip(1)[k] == pats[k + 1]);
            assert(!removes(pats[k + 1], host, segs[j]));
        }
        lemma_apply_all_id(segs, pats.skip(1), host);
    }
}

/// What `clean_url` returns, stated over the parse of the text: a parse
/// failure is `NotAUrl`; a URL without a host is `NoHost`; a URL without
/// a query is the input text itself, unchanged (a short-circuit before
/// any rebuild); otherwise the query is split on `&`, every chunk whose
/// key matches an applicable pattern is dropped, and the URL is
/// reserialized with the surviving chunks — with no query at all when
/// none survive.
pub open spec fn spec_clean(text: Seq<char>, pats: Seq<Seq<char>>) -> Result<
    Seq<char>,
    FilterError,
> {
    if !url_parses(text) {
        Err(FilterError::NotAUrl)
    } else if url_host(text) is None {
        Err(FilterError::NoHost)
    } else if url_query(text) is None {
        Ok(text)
    } else {
        let host = url_host(text)->Some_0;
        let q0 = url_query(text)->Some_0;
        let kept = apply_all(split_on(q0, '&'), pats, host);
        if kept.len() == 0 {
            Ok(url_with_query(text, None))
        } else {
            Ok(url_with_query(text, Some(join_with(kept, '&'))))
        }
    }
}

/// The view of a filtering result.
pub open spec fn result_view(r: Result<String, FilterError>) -> Result<Seq<char>, FilterError> {
    match r {
        Ok(s) => Ok(s@),
        Err(e) => Err(e),
    }
}

/// The characters of `v`, copied.
fn clone_chars(v: &Vec<char>) -> (r: Vec<char>)
    ensures
        r@ == v@,
{
    let mut r: Vec<char> = Vec::new();
    let mut i: usize = 0;
    while i < v.len()
        invariant
            i <= v@.len(),
            r@ == v@.take(i as int),
        decreases v@.len() - i,
    {
        r.push(v[i]);
        proof {
            assert(v@.take(i as int).push(v@[i as int]) =~= v@.take(i as int + 1));
        }
        i = i + 1;
    }
    proof {
        assert(r@ =~= v@);
    }
    r
}

/// The key of a query chunk.
fn key_of(seg: &Vec<char>) -> (k: Vec<char>)
    ensures
        k@ == seg_key(seg@),
{
    let cut = split_at_char(seg, '=');
    cut.0
}

/// The chunks of `segs` whose key does not match `pg`, in order.
fn drop_matching_exec(segs: &Vec<Vec<char>>, pg: &Vec<char>) -> (r: Vec<Vec<char>>)
    ensures
        r.deep_view() == drop_matching(segs.deep_view(), pg@),
{
    let ghost sv = segs.deep_view();
    let mut out: Vec<Vec<char>> = Vec::new();
    let mut i: usize = 0;
    proof {
        assert(sv.skip(0) =~~= sv);
        assert(out.deep_view() + drop_matching(sv, pg@) =~~= drop_matching(sv, pg@));
    }
    while i < segs.len()
        invariant
            i <= segs@.len(),
            sv == segs.deep_view(),
            sv.len() == segs@.len(),
            drop_matching(sv, pg@) == out.deep_view() + drop_matching(sv.skip(i as int), pg@),
        decreases segs@.len() - i,
    {
        proof {
            assert(sv.skip(i as int)[0] == sv[i as int]);
            assert(sv.skip(i as int).skip(1) =~~= sv.skip(i as int + 1));
            assert(sv[i as int] == segs@[i as int]@);
        }
        let key = key_of(&segs[i]);
        if !glob_match_chars(pg, &key) {
            let ghost old_out = out.deep_view();
            let copy = clone_chars(&segs[i]);
            out.push(copy);
            proof {
                assert(out.deep_view() =~~= old_out + seq![sv[i as int]]);
                assert(old_out + (seq![sv[i as int]] + drop_matching(sv.skip(i as int + 1), pg@))
                    =~~= (old_out + seq![sv[i as int]]) + drop_matching(sv.skip(i as int + 1), pg@));
            }
        }
        i = i + 1;
    }
    proof {
        assert(sv.skip(sv.len() as int) =~~= Seq::<Seq<char>>::empty());
        assert(out.deep_view() + drop_matching(Seq::<Seq<char>>::empty(), pg@)
            =~~= out.deep_view());
    }
    out
}

/// Strips every query parameter matched by an applicable pattern from
/// the URL in `text`, keeping the surviving parameters in their original
/// order and leaving path and fragment untouched.
///
/// Returns `NotAUrl` when the text does not parse as an absolute URL and
/// `NoHost` when the URL has no host; both mean "leave the text alone".
/// A URL without a query is returned as given, identical to the input
/// text: the rewrite short-circuits before any rebuild.  The second
/// clause is the idempotence law: cleaning a cleaned URL again with the
/// same pattern list gives it back unchanged.
pub fn clean_url(text: &str, patterns: &Vec<String>) -> (r: Result<String, FilterError>)
    ensures
        result_view(r) == spec_clean(text@, patterns.deep_view()),
        r matches Ok(u) ==> spec_clean(u@, patterns.deep_view()) == Ok::<
            Seq<char>,
            FilterError,
        >(u@),
        !url_parses(text@) ==> r == Err::<String, FilterError>(FilterError::NotAUrl),
        url_parses(text@) && url_host(text@) is None ==> r == Err::<
            String,
            FilterError,
        >(FilterError::NoHost),
        url_parses(text@) && url_host(text@) is Some && url_query(text@) is None
            ==> (r matches Ok(u) && u@ == text@),
{
    let ghost pats = patterns.deep_view();
    let info = match parse_url_info(text) {
        Some(info) => info,
        None => {
            return Err(FilterError::NotAUrl);
        },
    };
    let host = match info.host {
        Some(h) => h,
        None => {
            return Err(FilterError::NoHost);
        },
    };
    let query = match info.query {
        Some(q) => q,
        None => {
            // No query at all: hand the text back exactly as given.
            let y = text.to_owned();
            proof {
                assert(spec_clean(text@, pats) == Ok::<Seq<char>, FilterError>(y@));
                assert(spec_clean(y@, pats) == Ok::<Seq<char>, FilterError>(y@));
            }
            return Ok(y);
        },
    };
    let host_chars = chars_vec(host.as_str());
    let q_chars = chars_vec(query.as_str());
    let ghost q0 = q_chars@;
    let mut segs = split_chars(&q_chars, '&');
    let ghost segs0 = segs.deep_view();
    let mut t: usize = 0;
    proof {
        assert(pats.skip(0) =~~= pats);
    }
    while t < patterns.len()
        invariant
            t <= patterns@.len(),
            pats == patterns.deep_view(),
            pats.len() == patterns@.len(),
            apply_all(segs0, pats, host_chars@)
                == apply_all(segs.deep_view(), pats.skip(t as int), host_chars@),
        decreases patterns@.len() - t,
    {
        proof {
            assert(pats.skip(t as int)[0] == pats[t as int]);
            assert(pats.skip(t as int).skip(1) =~~= pats.skip(t as int + 1));
            assert(pats[t as int] == patterns@[t as int]@);
        }
        let p_chars = chars_vec(patterns[t].as_str());
        let cut = split_at_char(&p_chars, '@');
        let applicable = if let Some(d) = &cut.1 {
            glob_match_chars(d, &host_chars)
        } else {
            true
        };
        proof {
            assert(applicable == applies_to(pats[t as int], host_chars@));
        }
        if applicable {
            let before = segs;
            segs = drop_matching_exec(&before, &cut.0);
            proof {
                assert(segs.deep_view() == apply_one(before.deep_view(), pats[t as int],
                    host_chars@));
            }
        }
        t = t + 1;
    }
    let ghost kept = apply_all(segs0, pats, host_chars@);
    proof {
        assert(pats.skip(pats.len() as int) =~~= Seq::<Seq<char>>::empty());
        assert(kept == segs.deep_view());
        assert(url_host(text@) == Some(host_chars@));
        assert(url_query(text@) == Some(q0));
        assert(segs0 == split_on(q0, '&'));
    }
    if segs.len() == 0 {
        let y = replace_query(text, None);
        proof {
            assert(kept.len() == 0);
            assert(spec_clean(text@, pats) == Ok::<Seq<char>, FilterError>(y@));
            assert(url_query(y@) is None);
            assert(spec_clean(y@, pats) == Ok::<Seq<char>, FilterError>(y@));
        }
        Ok(y)
    } else {
        let joined = join_chars(&segs, '&');
        let qs = string_from_chars(&joined);
        proof {
            // The joined survivors are drawn from the original query's
            // own characters (plus `&`) and are no longer than it, which
            // admits the rebuild.
            assert(qs@ == join_with(kept, '&'));
            lemma_join_split(q0, '&');
            lemma_apply_all_join_len(segs0, pats, host_chars@, '&');
            assert(qs@.len() <= q0.len());
            lemma_join_chars(kept, '&');
            lemma_split_chars(q0, '&');
            lemma_apply_all_sub(segs0, pats, host_chars@);
            assert forall|i: int| 0 <= i < qs@.len()
                implies q0.contains(#[trigger] qs@[i]) || qs@[i] == '&' by {
                let ch = qs@[i];
                assert(join_with(kept, '&').contains(ch)) by {
                    assert(join_with(kept, '&')[i] == ch);
                }
                if ch != '&' {
                    let k = choose|k: int| 0 <= k < kept.len() && kept[k].contains(ch);
                    assert(apply_all(segs0, pats, host_chars@).contains(kept[k])) by {
                        assert(apply_all(segs0, pats, host_chars@)[k] == kept[k]);
                    }
                    assert(segs0.contains(kept[k]));
                    let j = choose|j: int| 0 <= j < segs0.len() && segs0[j] == kept[k];
                    let m = choose|m: int| 0 <= m < kept[k].len() && kept[k][m] == ch;
                    assert(q0.contains(split_on(q0, '&')[j][m]));
                }
            }
            assert(chars_within(qs@, q0));
        }
        let y = replace_query(text, Some(qs.as_str()));
        proof {
            assert(kept.len() > 0);
            lemma_split_no_sep(q0, '&');
            lemma_apply_all_sub(segs0, pats, host_chars@);
            assert(url_query(y@) == Some(qs@));
            assert forall|k: int, m: int|
                0 <= k < kept.len() && 0 <= m < kept[k].len() implies kept[k][m] != '&' by {
                assert(apply_all(segs0, pats, host_chars@).contains(kept[k])) by {
                    assert(apply_all(segs0, pats, host_chars@)[k] == kept[k]);
                }
                assert(segs0.contains(kept[k]));
                let j = choose|j: int| 0 <= j < segs0.len() && segs0[j] == kept[k];
                assert(split_on(q0, '&')[j][m] != '&');
            }
            lemma_split_join(kept, '&');
            assert(split_on(qs@, '&') == kept);
            lemma_apply_all_idem(segs0, pats, host_chars@);
            assert(apply_all(split_on(qs@, '&'), pats, host_chars@) == kept);
            assert(url_with_query(y@, url_query(y@)) == y@);
            assert(spec_clean(y@, pats) == Ok::<Seq<char>, FilterError>(y@));
            assert(spec_clean(text@, pats) == Ok::<Seq<char>, FilterError>(y@));
        }
        Ok(y)
    }
}

/// Filtering the surviving chunks a second time with the same pattern
/// list removes nothing more.
pub proof fn lemma_apply_all_idem(segs: Seq<Seq<char>>, pats: Seq<Seq<char>>, host: Seq<char>)
    ensures
        apply_all(apply_all(segs, pats, host), pats, host) == apply_all(segs, pats, host),
{
    let kept = apply_all(segs, pats, host);
    lemma_apply_all_sub(segs, pats, host);
    assert forall|j: int, k: int|
        0 <= j < kept.len() && 0 <= k < pats.len()
        implies !removes(#[trigger] pats[k], host, #[trigger] kept[j]) by {
        assert(kept.contains(kept[j]));
    }
    lemma_apply_all_id(kept, pats, host);
}

/// Dropping chunks cannot lengthen the join.
pub proof fn lemma_drop_matching_join_len(segs: Seq<Seq<char>>, pg: Seq<char>, c: char)
    ensures
        join_with(drop_matching(segs, pg), c).len() <= join_with(segs, c).len(),
    decreases segs.len(),
{
    if segs.len() > 0 {
        lemma_drop_matching_join_len(segs.skip(1), pg, c);
        let d = drop_matching(segs, pg);
        let drest = drop_matching(segs.skip(1), pg);
        if segs.len() == 1 {
            assert(segs.skip(1) =~~= Seq::<Seq<char>>::empty());
            if !glob_matches(pg, seg_key(segs[0])) {
                assert(d =~~= seq![segs[0]]);
            }
        } else {
            assert(join_with(segs, c) == segs[0] + seq![c] + join_with(segs.skip(1), c));
            if !glob_matches(pg, seg_key(segs[0])) {
                if drest.len() == 0 {
                    assert(d =~~= seq![segs[0]]);
                } else {
                    assert(d[0] == segs[0]);
                    assert(d.skip(1) =~~= drest);
                    assert(join_with(d, c) == segs[0] + seq![c] + join_with(drest, c));
                }
            }
        }
    }
}

/// Filtering cannot lengthen the joined query.
pub proof fn lemma_apply_all_join_len(
    segs: Seq<Seq<char>>,
    pats: Seq<Seq<char>>,
    host: Seq<char>,
    c: char,
)
    ensures
        join_with(apply_all(segs, pats, host), c).len() <= join_with(segs, c).len(),
    decreases pats.len(),
{
    if pats.len() > 0 {
        if applies_to(pats[0], host) {
            lemma_drop_matching_join_len(segs, param_glob(pats[0]), c);
        }
        lemma_apply_all_join_len(apply_one(segs, pats[0], host), pats.skip(1), host, c);
    }
}

} // verus!
