//! The order of a checklist.
//!
//! An entry comes first by, in turn: more missing copies weighted by the share
//! of decks that play the card; a larger share; the smaller list of colors,
//! no colors at all first; the smaller name. Two entries that agree on all
//! four have one place in the order.

use crate::text::{lemma_lex_transitive, lemma_lex_trichotomy, lex_less};
use vstd::prelude::*;

verus! {

/// What an entry is ranked by.
pub struct RankKey {
    /// Missing copies times the share of decks.
    pub weight: int,
    /// The share of decks.
    pub percent: int,
    /// The places of the colors, if the card has colors to go by.
    pub colors: Option<Seq<int>>,
    /// The code points of the name.
    pub name: Seq<int>,
}

/// The order of color lists: none before any, then dictionary order.
pub open spec fn colors_before(a: Option<Seq<int>>, b: Option<Seq<int>>) -> bool {
    match (a, b) {
        (None, None) => false,
        (None, Some(_)) => true,
        (Some(_), None) => false,
        (Some(x), Some(y)) => lex_less(x, y),
    }
}

/// Whether an entry with key `a` comes strictly before one with key `b`.
pub open spec fn outranks(a: RankKey, b: RankKey) -> bool {
    if a.weight != b.weight {
        a.weight > b.weight
    } else if a.percent != b.percent {
        a.percent > b.percent
    } else if a.colors != b.colors {
        colors_before(a.colors, b.colors)
    } else {
        lex_less(a.name, b.name)
    }
}

/// Whether a sequence of keys is in the order of the checklist: no key comes
/// strictly before one that stands earlier.
pub open spec fn in_order(keys: Seq<RankKey>) -> bool {
    forall|i: int, j: int| 0 <= i < j < keys.len() ==> !outranks(keys[j], keys[i])
}

/// Of two color lists exactly one holds: the first comes before, they are
/// equal, or the second comes before.
pub proof fn lemma_colors_trichotomy(a: Option<Seq<int>>, b: Option<Seq<int>>)
    ensures
        colors_before(a, b) || a == b || colors_before(b, a),
        !(colors_before(a, b) && colors_before(b, a)),
        !(colors_before(a, b) && a == b),
{
    match (a, b) {
        (Some(x), Some(y)) => {
            lemma_lex_trichotomy(x, y);
        },
        _ => {},
    }
}

/// The order of color lists is transitive.
pub proof fn lemma_colors_transitive(a: Option<Seq<int>>, b: Option<Seq<int>>, c: Option<Seq<int>>)
    requires
        colors_before(a, b),
        colors_before(b, c),
    ensures
        colors_before(a, c),
{
    match (a, b, c) {
        (Some(x), Some(y), Some(z)) => {
            lemma_lex_transitive(x, y, z);
        },
        _ => {},
    }
}

/// The order is total: of two keys one comes strictly before the other, or
/// they are the same key; never two of these at once.
pub proof fn lemma_order_total(a: RankKey, b: RankKey)
    ensures
        outranks(a, b) || a == b || outranks(b, a),
        !(outranks(a, b) && outranks(b, a)),
        !(outranks(a, b) && a == b),
{
    lemma_colors_trichotomy(a.colors, b.colors);
    lemma_lex_trichotomy(a.name, b.name);
}

/// The order is transitive.
pub proof fn lemma_order_transitive(a: RankKey, b: RankKey, c: RankKey)
    requires
        outranks(a, b),
        outranks(b, c),
    ensures
        outranks(a, c),
{
    lemma_colors_trichotomy(a.colors, b.colors);
    lemma_colors_trichotomy(b.colors, c.colors);
    lemma_colors_trichotomy(a.colors, c.colors);
    if colors_before(a.colors, b.colors) && colors_before(b.colors, c.colors) {
        lemma_colors_transitive(a.colors, b.colors, c.colors);
    }
    lemma_lex_trichotomy(a.name, b.name);
    lemma_lex_trichotomy(b.name, c.name);
    if lex_less(a.name, b.name) && lex_less(b.name, c.name) {
        lemma_lex_transitive(a.name, b.name, c.name);
    }
}

/// Not coming after is transitive too: if `c` does not come before `b`, nor
/// `b` before `a`, then `c` does not come before `a`.
pub proof fn lemma_not_after_transitive(a: RankKey, b: RankKey, c: RankKey)
    requires
        !outranks(b, a),
        !outranks(c, b),
    ensures
        !outranks(c, a),
{
    lemma_order_total(a, b);
    lemma_order_total(b, c);
    lemma_order_total(a, c);
    if outranks(c, a) {
        if outranks(a, b) {
            lemma_order_transitive(c, a, b);
        } else if outranks(b, c) {
            lemma_order_transitive(b, c, a);
        }
    }
}

} // verus!
