//! The rule model: named categories of filter patterns, the flattened
//! pattern list, and the shape of a single pattern.
//!
//! A pattern is either global (`"<paramGlob>"`) or scoped to a host
//! (`"<paramGlob>@<domainGlob>"`); the cut is at the first `@`, with no
//! escaping.

use crate::glob::glob_matches;
use crate::split::contains_char;
use crate::split::prefix_until;
use crate::split::suffix_after;
use vstd::prelude::*;

verus! {

/// A named, optionally disabled group of filter patterns.
pub struct Category {
    /// Display name of the category.
    pub name: String,
    /// Disabled categories are dropped before flattening.
    pub disabled: bool,
    /// The category's patterns, in order.
    pub params: Vec<String>,
}

/// The rule model: the enabled categories, in configuration order.
pub struct Config {
    pub categories: Vec<Category>,
}

/// The categories of `cats` that are not disabled, in order.
pub open spec fn enabled_only(cats: Seq<Category>) -> Seq<Category>
    decreases cats.len(),
{
    if cats.len() == 0 {
        Seq::<Category>::empty()
    } else if cats[0].disabled {
        enabled_only(cats.skip(1))
    } else {
        seq![cats[0]] + enabled_only(cats.skip(1))
    }
}

/// The patterns of `cats`, concatenated in category order then
/// in-category order.
pub open spec fn flat_params(cats: Seq<Category>) -> Seq<Seq<char>>
    decreases cats.len(),
{
    if cats.len() == 0 {
        Seq::<Seq<char>>::empty()
    } else {
        cats[0].params.deep_view() + flat_params(cats.skip(1))
    }
}

impl Config {
    /// Builds the rule model, keeping only the categories that are not
    /// disabled.
    pub fn new(cats: Vec<Category>) -> (r: Config)
        ensures
            r.categories@ == enabled_only(cats@),
    {
        let ghost orig = cats@;
        let mut cats = cats;
        let mut kept: Vec<Category> = Vec::new();
        proof {
            assert(kept@ + enabled_only(orig) =~= enabled_only(orig));
        }
        while cats.len() > 0
            invariant
                enabled_only(orig) == kept@ + enabled_only(cats@),
            decreases cats@.len(),
        {
            let ghost before = cats@;
            let c = cats.remove(0);
            proof {
                assert(cats@ =~= before.skip(1));
            }
            if !c.disabled {
                proof {
                    assert(enabled_only(before) == seq![c] + enabled_only(before.skip(1)));
                    assert(kept@ + (seq![c] + enabled_only(cats@))
                        =~= (kept@ + seq![c]) + enabled_only(cats@));
                }
                kept.push(c);
            }
        }
        proof {
            assert(enabled_only(cats@) =~= Seq::<Category>::empty());
            assert(kept@ + enabled_only(cats@) =~= kept@);
        }
        Config { categories: kept }
    }

    /// The flattened pattern list: every enabled category's patterns,
    /// concatenated in order.
    pub fn flat(&self) -> (r: Vec<String>)
        ensures
            r.deep_view() == flat_params(self.categories@),
    {
        let ghost whole = flat_params(self.categories@);
        let mut out: Vec<String> = Vec::new();
        let mut i: usize = 0;
        proof {
            assert(self.categories@.skip(0) =~= self.categories@);
            assert(out.deep_view() + whole =~~= whole);
        }
        while i < self.categories.len()
            invariant
                i <= self.categories@.len(),
                whole == flat_params(self.categories@),
                whole == out.deep_view() + flat_params(self.categories@.skip(i as int)),
            decreases self.categories@.len() - i,
        {
            proof {
                assert(self.categories@.skip(i as int)[0] == self.categories@[i as int]);
                assert(self.categories@.skip(i as int).skip(1)
                    =~= self.categories@.skip(i as int + 1));
            }
            let ghost params = self.categories@[i as int].params.deep_view();
            let ghost rest = flat_params(self.categories@.skip(i as int + 1));
            let cat = &self.categories[i];
            let mut m: usize = 0;
            while m < cat.params.len()
                invariant
                    m <= cat.params@.len(),
                    params == cat.params.deep_view(),
                    whole == out.deep_view() + params.skip(m as int) + rest,
                decreases cat.params@.len() - m,
            {
                let ghost old_out = out.deep_view();
                out.push(cat.params[m].clone());
                proof {
                    assert(out.deep_view() =~~= old_out + seq![cat.params@[m as int]@]);
                    assert(params.skip(m as int)[0] == cat.params@[m as int]@);
                    assert(params.skip(m as int).skip(1) =~= params.skip(m as int + 1));
                    assert((old_out + seq![params.skip(m as int)[0]])
                        + params.skip(m as int + 1) + rest
                        =~~= old_out + params.skip(m as int) + rest);
                }
                m = m + 1;
            }
            proof {
                assert(params.skip(params.len() as int) =~~= Seq::<Seq<char>>::empty());
                assert(out.deep_view() + params.skip(params.len() as int) + rest
                    =~~= out.deep_view() + rest);
            }
            i = i + 1;
        }
        proof {
            assert(self.categories@.skip(self.categories@.len() as int)
                =~= Seq::<Category>::empty());
            assert(out.deep_view() + flat_params(Seq::<Category>::empty())
                =~~= out.deep_view());
        }
        out
    }
}

/// Does the pattern carry a host scope, i.e. contain an `@`?
pub open spec fn is_scoped(p: Seq<char>) -> bool {
    contains_char(p, '@')
}

/// The parameter glob of a pattern: everything before the first `@`, or
/// the whole pattern when it has no `@`.
pub open spec fn param_glob(p: Seq<char>) -> Seq<char> {
    prefix_until(p, '@')
}

/// The domain glob of a scoped pattern: everything after the first `@`.
pub open spec fn domain_glob(p: Seq<char>) -> Seq<char> {
    suffix_after(p, '@')
}

/// Does pattern `p` apply to a URL with host `host`?  A global pattern
/// applies everywhere; a scoped one only where its domain glob matches
/// the host.
pub open spec fn applies_to(p: Seq<char>, host: Seq<char>) -> bool {
    if is_scoped(p) {
        glob_matches(domain_glob(p), host)
    } else {
        true
    }
}

} // verus!
