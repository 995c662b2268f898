//! The checklist: the staples of a format, each with its printings and with
//! the copies owned, in the order in which they are worth getting.

use crate::card::{color_ranks, Card, Color, Printing};
use crate::card_name::{lemma_key_of_fixed, lookup_key, CName};
use crate::collection::{position, without_first, Collection};
use crate::deckbuilder::{basic_land_name, is_basic_land};
use crate::rank::{
    colors_before, in_order, lemma_colors_trichotomy, lemma_not_after_transitive,
    lemma_order_total, outranks, RankKey,
};
use crate::staples::{Metadata, Staple};
use crate::text::{code_points, lemma_agree_len, text_less};
use std::cmp::Ordering;
use vstd::prelude::*;

verus! {

/// How many staples have their printings fetched at a time while a checklist
/// is put together.
pub const PRINTINGS_AT_A_TIME: usize = 8;

/// How the copies that are still missing are counted.
#[derive(Clone, Copy, Debug, PartialEq, Eq, Structural)]
pub enum Counting {
    /// The copies played less the copies owned, and none where more are owned.
    UsingCollected,
    /// The copies played, whatever is owned.
    IgnoringCollected,
}

/// A staple on the checklist.
#[derive(Debug)]
pub struct ChecklistCard {
    pub card: Card,
    pub printings: Vec<Printing>,
    /// The set codes of the copies owned, one for each copy.
    pub owned_versions: Vec<String>,
    pub metadata: Metadata,
}

impl ChecklistCard {
    /// The set codes of the copies owned.
    pub open spec fn owned(self) -> Seq<Seq<char>> {
        self.owned_versions.deep_view()
    }

    /// How many copies are missing.
    pub open spec fn missing(self, counting: Counting) -> int {
        match counting {
            Counting::UsingCollected => if self.metadata.num_copies > self.owned_versions@.len() {
                self.metadata.num_copies - self.owned_versions@.len()
            } else {
                0
            },
            Counting::IgnoringCollected => self.metadata.num_copies as int,
        }
    }

    /// What the entry is ranked by.
    pub open spec fn rank_key(self, counting: Counting) -> RankKey {
        RankKey {
            weight: self.missing(counting) * self.metadata.percent_in_decks.hundredths,
            percent: self.metadata.percent_in_decks.hundredths as int,
            colors: match self.card.color_signature() {
                Some(colors) => Some(color_ranks(colors)),
                None => None,
            },
            name: code_points(self.card.name@),
        }
    }

    /// The entry for `card`: with the copies that `collection` files under its
    /// name, and with the figures of a staple of which nothing is known where
    /// `metadata` is missing.
    pub fn new(
        card: Card,
        metadata: Option<Metadata>,
        printings: Vec<Printing>,
        collection: &Collection,
    ) -> (out: Self)
        ensures
            out.card == card,
            out.printings == printings,
            out.metadata == match metadata {
                Some(m) => m,
                None => Metadata::fallback(),
            },
            out.owned() == collection.filed(lookup_key(card.name@)),
    {
        let name = CName::new(card.name.as_str());
        proof {
            lemma_key_of_fixed(card.name@);
        }
        let codes = collection.get(&name);
        let mut owned: Vec<String> = Vec::new();
        let mut i: usize = 0;
        while i < codes.len()
            invariant
                i <= codes.len(),
                owned.len() == i,
                forall|j: int| 0 <= j < i ==> owned@[j]@ == codes@[j]@,
            decreases codes.len() - i,
        {
            owned.push(codes[i].clone());
            i += 1;
        }
        assert(owned.deep_view() =~= codes.deep_view());
        let metadata = match metadata {
            Some(m) => m,
            None => Metadata::new(None, None),
        };
        ChecklistCard { card, printings, owned_versions: owned, metadata }
    }

    /// The set codes of the copies owned.
    pub fn owned_versions(&self) -> (out: &Vec<String>)
        ensures
            *out == self.owned_versions,
    {
        &self.owned_versions
    }

    /// Notes one more copy, of the set `code`; returns how many are owned now.
    pub fn add_version(&mut self, code: String) -> (count: usize)
        ensures
            final(self).owned() == old(self).owned().push(code@),
            final(self).card == old(self).card,
            final(self).printings == old(self).printings,
            final(self).metadata == old(self).metadata,
            count == old(self).owned().len() + 1,
    {
        let ghost before = self.owned_versions.deep_view();
        self.owned_versions.push(code);
        assert(self.owned_versions.deep_view() =~= before.push(code@));
        self.owned_versions.len()
    }

    /// Strikes one copy of the set `code`, the first one noted, where there is
    /// one; returns how many are owned now.
    pub fn remove_version(&mut self, code: &str) -> (count: usize)
        ensures
            final(self).owned() == without_first(old(self).owned(), code@),
            final(self).card == old(self).card,
            final(self).printings == old(self).printings,
            final(self).metadata == old(self).metadata,
            count == final(self).owned().len(),
    {
        let ghost before = self.owned_versions.deep_view();
        match position(&self.owned_versions, code) {
            Some(at) => {
                self.owned_versions.remove(at);
                assert(self.owned_versions.deep_view() =~= before.remove(at as int));
            },
            None => {},
        }
        self.owned_versions.len()
    }

    /// How many copies are missing.
    pub fn missing_copies(&self, counting: Counting) -> (out: usize)
        ensures
            out == self.missing(counting),
            out <= 255,
    {
        let copies: usize = self.metadata.num_copies as usize;
        match counting {
            Counting::UsingCollected => if copies > self.owned_versions.len() {
                copies - self.owned_versions.len()
            } else {
                0
            },
            Counting::IgnoringCollected => copies,
        }
    }

    /// Whether this entry comes strictly before `other` on the checklist.
    pub fn precedes(&self, other: &Self, counting: Counting) -> (out: bool)
        ensures
            out == outranks(self.rank_key(counting), other.rank_key(counting)),
    {
        let mine: u64 = self.missing_copies(counting) as u64;
        let theirs: u64 = other.missing_copies(counting) as u64;
        let my_share: u64 = self.metadata.percent_in_decks.hundredths as u64;
        let their_share: u64 = other.metadata.percent_in_decks.hundredths as u64;
        assert(mine * my_share <= 255 * 65535) by (nonlinear_arith)
            requires
                mine <= 255,
                my_share <= 65535,
        ;
        assert(theirs * their_share <= 255 * 65535) by (nonlinear_arith)
            requires
                theirs <= 255,
                their_share <= 65535,
        ;
        let my_weight: u64 = mine * my_share;
        let their_weight: u64 = theirs * their_share;
        if my_weight != their_weight {
            return my_weight > their_weight;
        }
        if my_share != their_share {
            return my_share > their_share;
        }
        let a = self.card.colors_of();
        let b = other.card.colors_of();
        proof {
            lemma_colors_trichotomy(
                self.rank_key(counting).colors,
                other.rank_key(counting).colors,
            );
        }
        if colors_precede(a, b) {
            return true;
        }
        if colors_precede(b, a) {
            return false;
        }
        text_less(self.card.name.as_str(), other.card.name.as_str())
    }
}

/// The places of the colors in `colors`, if there are colors to go by.
pub open spec fn ranks_of(colors: Option<&Vec<Color>>) -> Option<Seq<int>> {
    match colors {
        Some(c) => Some(color_ranks(c@)),
        None => None,
    }
}

/// Whether the color list `a` comes strictly before `b`.
fn colors_precede(a: Option<&Vec<Color>>, b: Option<&Vec<Color>>) -> (out: bool)
    ensures
        out == colors_before(ranks_of(a), ranks_of(b)),
{
    match (a, b) {
        (None, None) => false,
        (None, Some(_)) => true,
        (Some(_), None) => false,
        (Some(x), Some(y)) => {
            let ghost p = color_ranks(x@);
            let ghost q = color_ranks(y@);
            let mut i: usize = 0;
            while i < x.len() && i < y.len() && x[i].index() == y[i].index()
                invariant
                    i <= x.len(),
                    i <= y.len(),
                    p == color_ranks(x@),
                    q == color_ranks(y@),
                    forall|j: int| 0 <= j < i ==> p[j] == q[j],
                decreases x.len() - i,
            {
                i += 1;
            }
            proof {
                lemma_agree_len(p, q, i as int);
            }
            i < y.len() && (i == x.len() || x[i].index() < y[i].index())
        },
    }
}


impl ChecklistCard {
    /// The order of two entries on the checklist, the copies owned counted.
    pub fn cmp_using_collected(&self, other: &Self) -> (out: Ordering)
        ensures
            (out == Ordering::Less) == outranks(
                self.rank_key(Counting::UsingCollected),
                other.rank_key(Counting::UsingCollected),
            ),
            (out == Ordering::Greater) == outranks(
                other.rank_key(Counting::UsingCollected),
                self.rank_key(Counting::UsingCollected),
            ),
    {
        order_of(self, other, Counting::UsingCollected)
    }

    /// The order of two entries on the checklist, whatever is owned.
    pub fn cmp_ignoring_collected(&self, other: &Self) -> (out: Ordering)
        ensures
            (out == Ordering::Less) == outranks(
                self.rank_key(Counting::IgnoringCollected),
                other.rank_key(Counting::IgnoringCollected),
            ),
            (out == Ordering::Greater) == outranks(
                other.rank_key(Counting::IgnoringCollected),
                self.rank_key(Counting::IgnoringCollected),
            ),
    {
        order_of(self, other, Counting::IgnoringCollected)
    }
}

/// The order of two entries: `Less` where the first comes strictly before the
/// second, `Greater` where the second comes strictly before the first.
fn order_of(a: &ChecklistCard, b: &ChecklistCard, counting: Counting) -> (out: Ordering)
    ensures
        (out == Ordering::Less) == outranks(a.rank_key(counting), b.rank_key(counting)),
        (out == Ordering::Greater) == outranks(b.rank_key(counting), a.rank_key(counting)),
{
    proof {
        lemma_order_total(a.rank_key(counting), b.rank_key(counting));
    }
    if a.precedes(b, counting) {
        Ordering::Less
    } else if b.precedes(a, counting) {
        Ordering::Greater
    } else {
        Ordering::Equal
    }
}

/// Something that stands for an entry of the checklist: the entry itself, or a
/// reference to it.
pub trait Ranked: Sized {
    /// The entry.
    spec fn entry(&self) -> ChecklistCard;

    /// The entry.
    fn as_entry(&self) -> (out: &ChecklistCard)
        ensures
            *out == self.entry(),
    ;
}

impl Ranked for ChecklistCard {
    open spec fn entry(&self) -> ChecklistCard {
        *self
    }

    fn as_entry(&self) -> (out: &ChecklistCard) {
        self
    }
}

impl<'a> Ranked for &'a ChecklistCard {
    open spec fn entry(&self) -> ChecklistCard {
        **self
    }

    fn as_entry(&self) -> (out: &ChecklistCard) {
        *self
    }
}

/// The entries that `items` stand for.
pub open spec fn entries_of<T: Ranked>(items: Seq<T>) -> Seq<ChecklistCard> {
    Seq::new(items.len(), |i: int| items[i].entry())
}

/// The keys by which `entries` are ranked.
pub open spec fn keys_of<T: Ranked>(entries: Seq<T>, counting: Counting) -> Seq<RankKey> {
    Seq::new(entries.len(), |i: int| entries[i].entry().rank_key(counting))
}

/// Whether place `i` is one of the places listed in `from`.
pub open spec fn reaches(from: Seq<int>, i: int) -> bool {
    exists|k: int| 0 <= k < from.len() && #[trigger] from[k] == i
}

/// Whether `after` is `before` put in the order of the checklist without
/// changing the order of entries that have one place in it: `from[k]` is the
/// place in `before` of the entry that stands at place `k` of `after`.
pub open spec fn is_ranking(
    from: Seq<int>,
    before: Seq<ChecklistCard>,
    after: Seq<ChecklistCard>,
    counting: Counting,
) -> bool {
    &&& from.len() == after.len() == before.len()
    &&& forall|k: int|
        0 <= k < after.len() ==> 0 <= #[trigger] from[k] < before.len() && after[k]
            == before[from[k]]
    &&& forall|k: int, l: int| 0 <= k < l < after.len() ==> from[k] != from[l]
    &&& forall|i: int| 0 <= i < before.len() ==> #[trigger] reaches(from, i)
    &&& forall|k: int, l: int|
        0 <= k < l < after.len() ==> !outranks(
            after[l].rank_key(counting),
            after[k].rank_key(counting),
        )
    &&& forall|k: int, l: int|
        0 <= k < l < after.len() && !outranks(
            after[k].rank_key(counting),
            after[l].rank_key(counting),
        ) ==> from[k] < from[l]
}

/// Whether `after` is `before` put in the order of the checklist, entries
/// with one place in it left in the order in which they came.
pub open spec fn ranked_from(
    before: Seq<ChecklistCard>,
    after: Seq<ChecklistCard>,
    counting: Counting,
) -> bool {
    exists|from: Seq<int>| is_ranking(from, before, after, counting)
}

/// Puts `entries` in the order of the checklist. Entries that have one place
/// in that order stay in the order in which they came.
pub fn sort_ranked<T: Ranked>(entries: Vec<T>, counting: Counting) -> (out: Vec<T>)
    ensures
        entries_of(out@).to_multiset() == entries_of(entries@).to_multiset(),
        in_order(keys_of(out@, counting)),
        ranked_from(entries_of(entries@), entries_of(out@), counting),
{
    broadcast use vstd::seq_lib::group_to_multiset_ensures;

    let ghost all = entries_of(entries@);
    let mut rest = entries;
    let mut out: Vec<T> = Vec::new();
    let ghost mut from: Seq<int> = Seq::empty();
    proof {
        assert(entries_of(out@) =~= Seq::empty());
        assert(entries_of(out@).to_multiset().add(entries_of(rest@).to_multiset())
            =~= all.to_multiset());
    }
    while rest.len() > 0
        invariant
            entries_of(out@).to_multiset().add(entries_of(rest@).to_multiset())
                == all.to_multiset(),
            in_order(keys_of(out@, counting)),
            entries_of(rest@) =~= all.take(rest.len() as int),
            rest.len() + out.len() == all.len(),
            from.len() == out.len(),
            forall|k: int|
                0 <= k < out.len() ==> rest.len() <= #[trigger] from[k] < all.len()
                    && out@[k].entry() == all[from[k]],
            forall|k: int, l: int| 0 <= k < l < out.len() ==> from[k] != from[l],
            forall|i: int| rest.len() <= i < all.len() ==> #[trigger] reaches(from, i),
            forall|k: int, l: int|
                0 <= k < l < out.len() && !outranks(
                    keys_of(out@, counting)[k],
                    keys_of(out@, counting)[l],
                ) ==> from[k] < from[l],
        decreases rest.len(),
    {
        let ghost rest_before = rest@;
        let ghost out_before = out@;
        let ghost from_before = from;
        let x = rest.pop().unwrap();
        let at = place_for(&out, &x, counting);
        out.insert(at, x);
        proof {
            let e = x.entry();
            from = from_before.insert(at as int, rest@.len() as int);
            assert(all.take(rest_before.len() as int)[rest@.len() as int] == e);
            assert(entries_of(rest_before) =~= entries_of(rest@).push(e));
            assert(entries_of(out@).remove(at as int) =~= entries_of(out_before));
            assert(entries_of(out@)[at as int] == e);
            vstd::seq_lib::to_multiset_remove(entries_of(out@), at as int);
            vstd::seq_lib::to_multiset_build(entries_of(rest@), e);
            entries_of(out@).to_multiset_ensures();
            assert(entries_of(out@).contains(e));
            assert(entries_of(out@).to_multiset() =~= entries_of(out_before).to_multiset().insert(
                e,
            ));
            assert(entries_of(out@).to_multiset().add(entries_of(rest@).to_multiset())
                =~= entries_of(out_before).to_multiset().add(
                entries_of(rest_before).to_multiset(),
            ));
            let keys = keys_of(out@, counting);
            let old_keys = keys_of(out_before, counting);
            let key = x.entry().rank_key(counting);
            assert forall|i: int| 0 <= i < keys.len() && i != at implies keys[i] == old_keys[if i
                < at {
                i
            } else {
                i - 1
            }] && from[i] == from_before[if i < at {
                i
            } else {
                i - 1
            }] by {}
            assert forall|i: int, j: int| 0 <= i < j < keys.len() implies !outranks(
                keys[j],
                keys[i],
            ) by {
                let oj = if j < at { j } else { j - 1 };
                if i == at {
                    if oj > at {
                        lemma_not_after_transitive(key, old_keys[at as int], old_keys[oj]);
                    }
                } else if j == at {
                    let oi = if i < at { i } else { i - 1 };
                    lemma_order_total(old_keys[oi], key);
                }
            }
            assert forall|k: int, l: int|
                0 <= k < l < out.len() && !outranks(keys[k], keys[l]) implies from[k] < from[l] by {
                if k != at && l != at {
                    let ok = if k < at { k } else { k - 1 };
                    let ol = if l < at { l } else { l - 1 };
                    assert(!outranks(old_keys[ok], old_keys[ol]));
                }
            }
            assert(entries_of(rest@) =~= all.take(rest.len() as int));
            assert forall|i: int| rest.len() <= i < all.len() implies #[trigger] reaches(
                from,
                i,
            ) by {
                if i == rest.len() {
                    assert(from[at as int] == i);
                } else {
                    assert(reaches(from_before, i));
                    let ok = choose|k: int|
                        0 <= k < from_before.len() && #[trigger] from_before[k] == i;
                    let k = if ok < at { ok } else { ok + 1 };
                    assert(from[k] == i);
                }
            }
        }
    }
    proof {
        assert(entries_of(rest@) =~= Seq::empty());
        assert(entries_of(out@).to_multiset().add(entries_of(rest@).to_multiset()) =~= entries_of(
            out@,
        ).to_multiset());
        assert(is_ranking(from, all, entries_of(out@), counting)) by {
            let after = entries_of(out@);
            let keys = keys_of(out@, counting);
            assert forall|k: int, l: int| 0 <= k < l < after.len() implies !outranks(
                after[l].rank_key(counting),
                after[k].rank_key(counting),
            ) by {
                assert(!outranks(keys[l], keys[k]));
            }
            assert forall|k: int, l: int|
                0 <= k < l < after.len() && !outranks(
                    after[k].rank_key(counting),
                    after[l].rank_key(counting),
                ) implies from[k] < from[l] by {
                assert(!outranks(keys[k], keys[l]));
            }
        }
    }
    out
}

/// Where `x` goes among the ranked `out`: behind the entries that come
/// strictly before it, ahead of all others.
fn place_for<T: Ranked>(out: &Vec<T>, x: &T, counting: Counting) -> (at: usize)
    ensures
        at <= out.len(),
        forall|j: int|
            0 <= j < at ==> outranks(
                #[trigger] keys_of(out@, counting)[j],
                x.entry().rank_key(counting),
            ),
        at < out.len() ==> !outranks(
            keys_of(out@, counting)[at as int],
            x.entry().rank_key(counting),
        ),
{
    let mut at: usize = 0;
    while at < out.len() && out[at].as_entry().precedes(x.as_entry(), counting)
        invariant
            at <= out.len(),
            forall|j: int|
                0 <= j < at ==> outranks(
                    #[trigger] keys_of(out@, counting)[j],
                    x.entry().rank_key(counting),
                ),
        decreases out.len() - at,
    {
        at += 1;
    }
    at
}

/// A staple with its printings.
pub type Printed = (Card, Option<Metadata>, Vec<Printing>);

/// Whether `entry` is the entry of `staple`: the same card and printings, the
/// staple's figures or those of an unknown staple, and the copies that
/// `collection` files under the key of the card's name.
pub open spec fn is_entry_of(entry: ChecklistCard, staple: Printed, collection: Collection) -> bool {
    &&& entry.card == staple.0
    &&& entry.printings == staple.2
    &&& entry.metadata == match staple.1 {
        Some(m) => m,
        None => Metadata::fallback(),
    }
    &&& entry.owned() == collection.filed(lookup_key(staple.0.name@))
}

/// Whether `entries` are the entries of the staples that are no basic lands,
/// one for each, in the order of the staples.
pub open spec fn assembled(
    entries: Seq<ChecklistCard>,
    staples: Seq<Printed>,
    collection: Collection,
) -> bool
    decreases staples.len(),
{
    if staples.len() == 0 {
        entries.len() == 0
    } else if basic_land_name(staples.last().0.name@) {
        assembled(entries, staples.drop_last(), collection)
    } else {
        &&& entries.len() > 0
        &&& is_entry_of(entries.last(), staples.last(), collection)
        &&& assembled(entries.drop_last(), staples.drop_last(), collection)
    }
}

/// Whether one of `entries` is the entry of `staple`.
pub open spec fn has_entry(
    entries: Seq<ChecklistCard>,
    staple: Printed,
    collection: Collection,
) -> bool {
    exists|i: int| 0 <= i < entries.len() && is_entry_of(#[trigger] entries[i], staple, collection)
}

/// Whether `entry` is the entry of one of `staples`.
pub open spec fn from_staple(
    entry: ChecklistCard,
    staples: Seq<Printed>,
    collection: Collection,
) -> bool {
    exists|j: int| 0 <= j < staples.len() && is_entry_of(entry, #[trigger] staples[j], collection)
}

/// Whether no two of `staples` are the same card.
pub open spec fn distinct_cards(staples: Seq<Printed>) -> bool {
    forall|i: int, j: int|
        0 <= i < j < staples.len() ==> (#[trigger] staples[i]).0.id != (#[trigger] staples[j]).0.id
}

/// On a checklist no basic land stands, every other staple has its entry,
/// and every entry is that of a staple.
pub proof fn lemma_assembled(
    entries: Seq<ChecklistCard>,
    staples: Seq<Printed>,
    collection: Collection,
)
    requires
        assembled(entries, staples, collection),
    ensures
        forall|i: int|
            0 <= i < entries.len() ==> !basic_land_name((#[trigger] entries[i]).card.name@)
                && from_staple(entries[i], staples, collection),
        forall|j: int|
            0 <= j < staples.len() && !basic_land_name((#[trigger] staples[j]).0.name@)
                ==> has_entry(entries, staples[j], collection),
    decreases staples.len(),
{
    if staples.len() > 0 {
        let front = staples.drop_last();
        let last = staples.last();
        if basic_land_name(last.0.name@) {
            lemma_assembled(entries, front, collection);
            assert forall|i: int| 0 <= i < entries.len() implies from_staple(
                #[trigger] entries[i],
                staples,
                collection,
            ) by {
                let j = choose|j: int|
                    0 <= j < front.len() && is_entry_of(entries[i], #[trigger] front[j], collection);
                assert(staples[j] == front[j]);
            }
            assert forall|j: int|
                0 <= j < staples.len() && !basic_land_name(
                    (#[trigger] staples[j]).0.name@,
                ) implies has_entry(entries, staples[j], collection) by {
                assert(staples[j] == front[j]);
            }
        } else {
            let before = entries.drop_last();
            lemma_assembled(before, front, collection);
            assert forall|i: int| 0 <= i < entries.len() implies !basic_land_name(
                (#[trigger] entries[i]).card.name@,
            ) && from_staple(entries[i], staples, collection) by {
                if i < before.len() {
                    assert(entries[i] == before[i]);
                    let j = choose|j: int|
                        0 <= j < front.len() && is_entry_of(
                            before[i],
                            #[trigger] front[j],
                            collection,
                        );
                    assert(staples[j] == front[j]);
                } else {
                    assert(staples[staples.len() - 1] == last);
                }
            }
            assert forall|j: int|
                0 <= j < staples.len() && !basic_land_name(
                    (#[trigger] staples[j]).0.name@,
                ) implies has_entry(entries, staples[j], collection) by {
                if j < front.len() {
                    assert(staples[j] == front[j]);
                    assert(has_entry(before, front[j], collection));
                    let i = choose|i: int|
                        0 <= i < before.len() && is_entry_of(
                            #[trigger] before[i],
                            front[j],
                            collection,
                        );
                    assert(entries[i] == before[i]);
                } else {
                    assert(is_entry_of(entries[entries.len() - 1], staples[j], collection));
                }
            }
        }
    }
}

/// Where no two staples are the same card, no two entries are: each entry is
/// that of a staple that stands before the staples of the entries behind it.
pub proof fn lemma_assembled_ids(
    entries: Seq<ChecklistCard>,
    staples: Seq<Printed>,
    collection: Collection,
)
    requires
        assembled(entries, staples, collection),
        distinct_cards(staples),
    ensures
        ids_of(entries).no_duplicates(),
    decreases staples.len(),
{
    if staples.len() > 0 {
        let front = staples.drop_last();
        let last = staples.last();
        assert(distinct_cards(front)) by {
            assert forall|i: int, j: int| 0 <= i < j < front.len() implies (
            #[trigger] front[i]).0.id != (#[trigger] front[j]).0.id by {
                assert(staples[i] == front[i] && staples[j] == front[j]);
            }
        }
        if basic_land_name(last.0.name@) {
            lemma_assembled_ids(entries, front, collection);
        } else {
            let before = entries.drop_last();
            lemma_assembled_ids(before, front, collection);
            lemma_assembled(before, front, collection);
            assert forall|a: int, b: int|
                0 <= a < entries.len() && 0 <= b < entries.len() && a != b implies ids_of(
                entries,
            )[a] != ids_of(entries)[b] by {
                let n = before.len() as int;
                if a < n && b < n {
                    assert(ids_of(before)[a] != ids_of(before)[b]);
                } else {
                    let i = if a < n { a } else { b };
                    assert(entries[i] == before[i]);
                    assert(from_staple(before[i], front, collection));
                    let j = choose|j: int|
                        0 <= j < front.len() && is_entry_of(
                            before[i],
                            #[trigger] front[j],
                            collection,
                        );
                    assert(staples[j] == front[j]);
                    assert(staples[j].0.id != staples[staples.len() - 1].0.id);
                }
            }
        }
    }
}

/// The checklist.
pub struct Checklist(Vec<ChecklistCard>);

impl Checklist {
    /// The entries, first the one most worth getting.
    pub closed spec fn view(self) -> Seq<ChecklistCard> {
        self.0@
    }

    /// The checklist of the staples `staples`, each given with its printings:
    /// the five basic lands, told by their names, are left out; every other
    /// staple gets one entry, with the copies that `collection` files under
    /// its name and with the figures of an unknown staple where it has none;
    /// the entries stand in the order that counts the copies owned.
    pub fn new(staples: Vec<Printed>, collection: &Collection) -> (out: Self)
        ensures
            exists|entries: Seq<ChecklistCard>|
                #[trigger] assembled(entries, staples@, *collection) && ranked_from(
                    entries,
                    out@,
                    Counting::UsingCollected,
                ),
            in_order(keys_of(out@, Counting::UsingCollected)),
            forall|k: int| 0 <= k < out@.len() ==> !basic_land_name((#[trigger] out@[k]).card.name@),
            forall|j: int|
                0 <= j < staples@.len() && !basic_land_name((#[trigger] staples@[j]).0.name@)
                    ==> has_entry(out@, staples@[j], *collection),
            forall|k: int| 0 <= k < out@.len() ==> from_staple(#[trigger] out@[k], staples@, *collection),
            distinct_cards(staples@) ==> ids_of(out@).no_duplicates(),
    {
        let mut entries: Vec<ChecklistCard> = Vec::new();
        proof {
            assert(staples@.take(0) =~= Seq::empty());
        }
        for staple in it: staples
            invariant
                it.seq() == staples@,
                assembled(entries@, staples@.take(it.index()), *collection),
        {
            proof {
                assert(staples@.take(it.index() + 1).drop_last() =~= staples@.take(it.index()));
            }
            if !is_basic_land(staple.0.name.as_str()) {
                let ghost before = entries@;
                entries.push(ChecklistCard::new(staple.0, staple.1, staple.2, collection));
                proof {
                    assert(entries@.drop_last() =~= before);
                }
            }
        }
        proof {
            assert(staples@.take(staples@.len() as int) =~= staples@);
        }
        let ghost unsorted = entries@;
        let out = Checklist::from_entries(entries);
        proof {
            lemma_assembled(unsorted, staples@, *collection);
            let from = choose|from: Seq<int>|
                is_ranking(from, unsorted, out@, Counting::UsingCollected);
            assert forall|k: int| 0 <= k < out@.len() implies !basic_land_name(
                (#[trigger] out@[k]).card.name@,
            ) && from_staple(out@[k], staples@, *collection) by {
                assert(out@[k] == unsorted[from[k]]);
            }
            assert forall|j: int|
                0 <= j < staples@.len() && !basic_land_name(
                    (#[trigger] staples@[j]).0.name@,
                ) implies has_entry(out@, staples@[j], *collection) by {
                assert(has_entry(unsorted, staples@[j], *collection));
                let i = choose|i: int|
                    0 <= i < unsorted.len() && is_entry_of(
                        #[trigger] unsorted[i],
                        staples@[j],
                        *collection,
                    );
                assert(reaches(from, i));
                let k = choose|k: int| 0 <= k < from.len() && #[trigger] from[k] == i;
                assert(out@[k] == unsorted[i]);
            }
            if distinct_cards(staples@) {
                lemma_assembled_ids(unsorted, staples@, *collection);
                lemma_ids_stay_distinct(unsorted, out@);
            }
        }
        out
    }

    /// The checklist of `entries`: all of them, in the order that counts the
    /// copies owned.
    pub fn from_entries(entries: Vec<ChecklistCard>) -> (out: Self)
        ensures
            out@.to_multiset() == entries@.to_multiset(),
            in_order(keys_of(out@, Counting::UsingCollected)),
            ranked_from(entries@, out@, Counting::UsingCollected),
    {
        let out = sort_ranked(entries, Counting::UsingCollected);
        proof {
            assert(entries_of(out@) =~= out@);
            assert(entries_of(entries@) =~= entries@);
        }
        Checklist(out)
    }

    /// How many entries there are.
    pub fn len(&self) -> (out: usize)
        ensures
            out == self@.len(),
    {
        self.0.len()
    }

    /// The entry at place `index`.
    pub fn get(&self, index: usize) -> (out: Option<&ChecklistCard>)
        ensures
            match out {
                Some(entry) => index < self@.len() && *entry == self@[index as int],
                None => index >= self@.len(),
            },
    {
        if index < self.0.len() {
            Some(&self.0[index])
        } else {
            None
        }
    }

    /// The entries in the order of the checklist.
    pub fn iter(&self) -> (out: &Vec<ChecklistCard>)
        ensures
            out@ == self@,
    {
        &self.0
    }

    /// The entries in the order that does not count the copies owned.
    pub fn ignoring_collection(&self) -> (out: Vec<&ChecklistCard>)
        ensures
            entries_of(out@).to_multiset() == self@.to_multiset(),
            in_order(keys_of(out@, Counting::IgnoringCollected)),
            ranked_from(self@, entries_of(out@), Counting::IgnoringCollected),
    {
        let mut cards: Vec<&ChecklistCard> = Vec::new();
        let mut i: usize = 0;
        while i < self.0.len()
            invariant
                i <= self.0.len(),
                cards.len() == i,
                forall|j: int| 0 <= j < i ==> (#[trigger] cards@[j]).entry() == self.0@[j],
            decreases self.0.len() - i,
        {
            cards.push(&self.0[i]);
            i += 1;
        }
        assert(entries_of(cards@) =~= self.0@);
        sort_ranked(cards, Counting::IgnoringCollected)
    }
}


/// The staples that go on a checklist: all but the five basic lands, which
/// are told by their names.
pub open spec fn wanted(staples: Seq<Staple>) -> Seq<Staple>
    decreases staples.len(),
{
    if staples.len() == 0 {
        Seq::empty()
    } else if basic_land_name(staples.last().0.name@) {
        wanted(staples.drop_last())
    } else {
        wanted(staples.drop_last()).push(staples.last())
    }
}

/// A staple is wanted exactly if it is none of the basic lands by name,
/// whatever its type line says; and the wanted staples keep their order.
pub proof fn lemma_wanted(staples: Seq<Staple>)
    ensures
        forall|s: Staple|
            wanted(staples).contains(s) <==> staples.contains(s) && !basic_land_name(s.0.name@),
    decreases staples.len(),
{
    if staples.len() > 0 {
        let front = staples.drop_last();
        let last = staples.last();
        lemma_wanted(front);
        assert forall|s: Staple|
            wanted(staples).contains(s) <==> staples.contains(s) && !basic_land_name(
                s.0.name@,
            ) by {
            if staples.contains(s) {
                let i = choose|i: int| 0 <= i < staples.len() && staples[i] == s;
                if i < front.len() {
                    assert(front[i] == s);
                }
            }
            if front.contains(s) {
                let i = choose|i: int| 0 <= i < front.len() && front[i] == s;
                assert(staples[i] == s);
            }
            if wanted(staples).contains(s) {
                let w = wanted(staples);
                let i = choose|i: int| 0 <= i < w.len() && w[i] == s;
                if !basic_land_name(last.0.name@) {
                    if i < wanted(front).len() {
                        assert(wanted(front)[i] == s);
                    } else {
                        assert(s == last);
                        assert(staples[staples.len() - 1] == s);
                    }
                }
            }
            if staples.contains(s) && !basic_land_name(s.0.name@) {
                if front.contains(s) {
                    let wf = wanted(front);
                    let i = choose|i: int| 0 <= i < wf.len() && wf[i] == s;
                    if !basic_land_name(last.0.name@) {
                        assert(wanted(staples)[i] == s);
                    }
                } else {
                    assert(s == last);
                    assert(wanted(staples)[wanted(front).len() as int] == s);
                }
            }
        }
    }
}

/// The staples that go on a checklist, in the order in which they came.
pub fn without_basic_lands(staples: Vec<Staple>) -> (out: Vec<Staple>)
    ensures
        out@ == wanted(staples@),
{
    let mut out: Vec<Staple> = Vec::new();
    proof {
        assert(staples@.take(0) =~= Seq::empty());
    }
    for staple in it: staples
        invariant
            it.seq() == staples@,
            out@ == wanted(staples@.take(it.index())),
    {
        proof {
            assert(staples@.take(it.index() + 1).drop_last() =~= staples@.take(it.index()));
        }
        if !is_basic_land(staple.0.name.as_str()) {
            out.push(staple);
        }
    }
    proof {
        assert(staples@.take(staples@.len() as int) =~= staples@);
    }
    out
}

/// The entries of which copies are missing, in the order in which they stand.
pub open spec fn lacking(entries: Seq<ChecklistCard>) -> Seq<ChecklistCard>
    decreases entries.len(),
{
    if entries.len() == 0 {
        Seq::empty()
    } else if entries.last().missing(Counting::UsingCollected) > 0 {
        lacking(entries.drop_last()).push(entries.last())
    } else {
        lacking(entries.drop_last())
    }
}

/// Whether the entries stand by descending share of decks.
pub open spec fn by_share<T: Ranked>(items: Seq<T>) -> bool {
    forall|i: int, j: int|
        0 <= i < j < items.len() ==> (#[trigger] items[i]).entry().metadata.percent_in_decks.hundredths
            >= (#[trigger] items[j]).entry().metadata.percent_in_decks.hundredths
}

impl Checklist {
    /// Notes one more copy of the entry at place `index`, of the set `code`;
    /// returns how many are owned now, and `None` where there is no such place.
    /// The order of the checklist stays as it is.
    pub fn add_version(&mut self, index: usize, code: String) -> (count: Option<usize>)
        ensures
            match count {
                Some(n) => {
                    &&& index < old(self)@.len()
                    &&& final(self)@.len() == old(self)@.len()
                    &&& n == old(self)@[index as int].owned().len() + 1
                    &&& final(self)@[index as int].owned() == old(self)@[index as int].owned().push(
                        code@,
                    )
                    &&& final(self)@[index as int].card == old(self)@[index as int].card
                    &&& final(self)@[index as int].printings == old(self)@[index as int].printings
                    &&& final(self)@[index as int].metadata == old(self)@[index as int].metadata
                    &&& forall|i: int|
                        0 <= i < old(self)@.len() && i != index ==> final(self)@[i] == old(self)@[i]
                },
                None => index >= old(self)@.len() && final(self)@ == old(self)@,
            },
    {
        if index >= self.0.len() {
            return None;
        }
        let mut entry = self.0.remove(index);
        let count = entry.add_version(code);
        self.0.insert(index, entry);
        Some(count)
    }

    /// Strikes one copy of the entry at place `index`, of the set `code`, where
    /// one is noted; returns how many are owned now, and `None` where there is
    /// no such place. The order of the checklist stays as it is.
    pub fn remove_version(&mut self, index: usize, code: &str) -> (count: Option<usize>)
        ensures
            match count {
                Some(n) => {
                    &&& index < old(self)@.len()
                    &&& final(self)@.len() == old(self)@.len()
                    &&& n == final(self)@[index as int].owned().len()
                    &&& final(self)@[index as int].owned() == without_first(
                        old(self)@[index as int].owned(),
                        code@,
                    )
                    &&& final(self)@[index as int].card == old(self)@[index as int].card
                    &&& final(self)@[index as int].printings == old(self)@[index as int].printings
                    &&& final(self)@[index as int].metadata == old(self)@[index as int].metadata
                    &&& forall|i: int|
                        0 <= i < old(self)@.len() && i != index ==> final(self)@[i] == old(self)@[i]
                },
                None => index >= old(self)@.len() && final(self)@ == old(self)@,
            },
    {
        if index >= self.0.len() {
            return None;
        }
        let mut entry = self.0.remove(index);
        let count = entry.remove_version(code);
        self.0.insert(index, entry);
        Some(count)
    }

    /// What is left to get: the entries of which copies are missing, the most
    /// played first.
    pub fn wishlist(&self) -> (out: Vec<&ChecklistCard>)
        ensures
            entries_of(out@).to_multiset() == lacking(self@).to_multiset(),
            by_share(out@),
    {
        broadcast use vstd::seq_lib::group_to_multiset_ensures;

        let mut out: Vec<&ChecklistCard> = Vec::new();
        let mut i: usize = 0;
        proof {
            assert(self.0@.take(0) =~= Seq::empty());
            assert(entries_of(out@) =~= Seq::empty());
        }
        while i < self.0.len()
            invariant
                i <= self.0.len(),
                entries_of(out@).to_multiset() == lacking(self.0@.take(i as int)).to_multiset(),
                by_share(out@),
            decreases self.0.len() - i,
        {
            let entry = &self.0[i];
            proof {
                assert(self.0@.take(i + 1).drop_last() =~= self.0@.take(i as int));
            }
            if entry.missing_copies(Counting::UsingCollected) > 0 {
                let share = entry.metadata.percent_in_decks.hundredths;
                let ghost before = out@;
                let mut at: usize = 0;
                while at < out.len() && out[at].metadata.percent_in_decks.hundredths >= share
                    invariant
                        at <= out.len(),
                        forall|j: int|
                            0 <= j < at ==> (#[trigger] out@[j]).entry().metadata.percent_in_decks.hundredths
                                >= share,
                    decreases out.len() - at,
                {
                    at += 1;
                }
                out.insert(at, entry);
                proof {
                    let e = *entry;
                    assert(entries_of(out@).remove(at as int) =~= entries_of(before));
                    assert(entries_of(out@)[at as int] == e);
                    vstd::seq_lib::to_multiset_remove(entries_of(out@), at as int);
                    vstd::seq_lib::to_multiset_build(lacking(self.0@.take(i as int)), e);
                    entries_of(out@).to_multiset_ensures();
                    assert(entries_of(out@).contains(e));
                    assert(entries_of(out@).to_multiset() =~= entries_of(
                        before,
                    ).to_multiset().insert(e));
                    assert forall|a: int, b: int| 0 <= a < b < out.len() implies (
                    #[trigger] out@[a]).entry().metadata.percent_in_decks.hundredths >= (
                    #[trigger] out@[b]).entry().metadata.percent_in_decks.hundredths by {
                        let oa = if a < at { a } else { a - 1 };
                        let ob = if b < at { b } else { b - 1 };
                        if a != at {
                            assert(out@[a] == before[oa]);
                        }
                        if b != at {
                            assert(out@[b] == before[ob]);
                        }
                        if a == at && ob > at {
                            assert(before[at as int].entry().metadata.percent_in_decks.hundredths
                                >= before[ob].entry().metadata.percent_in_decks.hundredths);
                        }
                    }
                }
            }
            i += 1;
        }
        proof {
            assert(self.0@.take(i as int) =~= self.0@);
        }
        out
    }
}

/// The identifiers of the cards of `entries`.
pub open spec fn ids_of(entries: Seq<ChecklistCard>) -> Seq<u128> {
    Seq::new(entries.len(), |i: int| entries[i].card.id)
}

/// Putting entries in order makes no card stand twice: where the entries that
/// go in have different identifiers, so have the entries of the checklist.
pub proof fn lemma_ids_stay_distinct(before: Seq<ChecklistCard>, after: Seq<ChecklistCard>)
    requires
        after.to_multiset() == before.to_multiset(),
        ids_of(before).no_duplicates(),
    ensures
        ids_of(after).no_duplicates(),
{
    broadcast use vstd::seq_lib::group_to_multiset_ensures;

    assert(before.no_duplicates()) by {
        assert forall|i: int, j: int|
            0 <= i < before.len() && 0 <= j < before.len() && i != j implies before[i]
            != before[j] by {
            assert(ids_of(before)[i] != ids_of(before)[j]);
        }
    }
    before.lemma_multiset_has_no_duplicates();
    after.lemma_multiset_has_no_duplicates_conv();
    assert forall|i: int, j: int|
        0 <= i < after.len() && 0 <= j < after.len() && i != j implies ids_of(after)[i] != ids_of(
        after,
    )[j] by {
        assert(after[i] != after[j]);
        assert(after.contains(after[i]));
        assert(after.contains(after[j]));
        assert(before.to_multiset().count(after[i]) > 0);
        assert(before.to_multiset().count(after[j]) > 0);
        assert(before.contains(after[i]));
        assert(before.contains(after[j]));
        let a = choose|a: int| 0 <= a < before.len() && before[a] == after[i];
        let b = choose|b: int| 0 <= b < before.len() && before[b] == after[j];
        assert(ids_of(before)[a] != ids_of(before)[b]);
    }
}


/// Two rankings of the same entries agree on where each place came from.
proof fn lemma_same_places(
    from_a: Seq<int>,
    from_b: Seq<int>,
    before: Seq<ChecklistCard>,
    a: Seq<ChecklistCard>,
    b: Seq<ChecklistCard>,
    counting: Counting,
    upto: int,
)
    requires
        is_ranking(from_a, before, a, counting),
        is_ranking(from_b, before, b, counting),
        0 <= upto <= before.len(),
    ensures
        forall|k: int| 0 <= k < upto ==> from_a[k] == from_b[k],
    decreases upto,
{
    if upto > 0 {
        lemma_same_places(from_a, from_b, before, a, b, counting, upto - 1);
        let k = upto - 1;
        let x = from_a[k];
        let y = from_b[k];
        if x != y {
            assert(reaches(from_b, x));
            let l = choose|l: int| 0 <= l < from_b.len() && #[trigger] from_b[l] == x;
            assert(reaches(from_a, y));
            let m = choose|m: int| 0 <= m < from_a.len() && #[trigger] from_a[m] == y;
            if l < k {
                assert(from_a[l] == from_b[l]);
            }
            if m < k {
                assert(from_a[m] == from_b[m]);
            }
            assert(k < l && k < m);
            assert(a[k] == before[x] && a[m] == before[y]);
            assert(b[k] == before[y] && b[l] == before[x]);
            assert(!outranks(a[m].rank_key(counting), a[k].rank_key(counting)));
            assert(!outranks(b[l].rank_key(counting), b[k].rank_key(counting)));
            assert(from_a[k] < from_a[m]);
            assert(from_b[k] < from_b[l]);
        }
    }
}

/// The order of the checklist leaves nothing open: entries put in order in
/// two ways that both keep the order of entries with one place come out the
/// same.
pub proof fn lemma_ranking_is_unique(
    before: Seq<ChecklistCard>,
    a: Seq<ChecklistCard>,
    b: Seq<ChecklistCard>,
    counting: Counting,
)
    requires
        ranked_from(before, a, counting),
        ranked_from(before, b, counting),
    ensures
        a == b,
{
    let from_a = choose|from: Seq<int>| is_ranking(from, before, a, counting);
    let from_b = choose|from: Seq<int>| is_ranking(from, before, b, counting);
    lemma_same_places(from_a, from_b, before, a, b, counting, before.len() as int);
    assert forall|k: int| 0 <= k < a.len() implies a[k] == b[k] by {
        assert(a[k] == before[from_a[k]]);
        assert(b[k] == before[from_b[k]]);
    }
    assert(a =~= b);
}

} // verus!
