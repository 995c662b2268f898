//! How far the collection has come: how many of the copies of the top staples
//! are owned, overall and by color.
//!
//! The staples are read in the order that does not count what is owned, and
//! only as far as it takes to see 20 staples of each single color, 20 without
//! color and 10 of several colors. What has been read by then is all that the
//! figures speak of.

use crate::card::{Card, Color};
use crate::checklist::{entries_of, ranked_from, Checklist, ChecklistCard, Counting, Ranked};
use vstd::prelude::*;

verus! {

/// Copies owned out of copies played.
#[derive(Clone, Copy, Debug, PartialEq, Eq, Structural)]
pub struct Progress {
    pub owned: u16,
    pub total: u16,
}

/// The figures of a checklist.
#[derive(Clone, Copy, Debug, PartialEq, Eq)]
pub struct Stats {
    pub top_20: Progress,
    pub top_50: Progress,
    pub top_150: Progress,
    /// In the order of the colors.
    pub top_20_by_color: [Progress; 5],
    pub top_10_colorless: Progress,
    pub top_20_multicolor: Progress,
    pub top_10_lands: Progress,
}

/// The group that a staple is counted in while the list is read.
#[derive(Clone, Copy, Debug, PartialEq, Eq, Structural)]
pub enum Bucket {
    Mono(Color),
    Colorless,
    Multicolor,
    Land,
}

/// The staples that a figure speaks of.
#[derive(Clone, Copy, Debug, PartialEq, Eq, Structural)]
pub enum Filter {
    All,
    /// Those of this color and no other.
    Mono(Color),
    /// Those without a color.
    Colorless,
    /// Those of more than one color.
    Multicolor,
    /// Those that the type line calls lands.
    Land,
}

/// How many staples of one color are read for.
pub const MONO_QUOTA: usize = 20;

/// How many staples without color are read for.
pub const COLORLESS_QUOTA: usize = 20;

/// How many staples of several colors are read for.
pub const MULTICOLOR_QUOTA: usize = 10;

/// The group of a card: a land is a land whatever its colors; then no color,
/// one color, several.
pub open spec fn bucket_of(card: Card) -> Bucket {
    if card.land() {
        Bucket::Land
    } else {
        match card.colors {
            None => Bucket::Colorless,
            Some(colors) => if colors@.len() == 0 {
                Bucket::Colorless
            } else if colors@.len() == 1 {
                Bucket::Mono(colors@[0])
            } else {
                Bucket::Multicolor
            },
        }
    }
}

/// How many of `entries` are in `bucket`.
pub open spec fn count_in(entries: Seq<ChecklistCard>, bucket: Bucket) -> nat
    decreases entries.len(),
{
    if entries.len() == 0 {
        0
    } else {
        count_in(entries.drop_last(), bucket) + if bucket_of(entries.last().card) == bucket {
            1nat
        } else {
            0nat
        }
    }
}

/// Whether `entries` hold enough of every group but the lands.
pub open spec fn quota_met(entries: Seq<ChecklistCard>) -> bool {
    &&& count_in(entries, Bucket::Mono(Color::White)) >= MONO_QUOTA
    &&& count_in(entries, Bucket::Mono(Color::Blue)) >= MONO_QUOTA
    &&& count_in(entries, Bucket::Mono(Color::Black)) >= MONO_QUOTA
    &&& count_in(entries, Bucket::Mono(Color::Red)) >= MONO_QUOTA
    &&& count_in(entries, Bucket::Mono(Color::Green)) >= MONO_QUOTA
    &&& count_in(entries, Bucket::Colorless) >= COLORLESS_QUOTA
    &&& count_in(entries, Bucket::Multicolor) >= MULTICOLOR_QUOTA
}

/// Whether `k` is how many of `entries` are read: the fewest from the front
/// that meet the quota, and all of them where none do.
pub open spec fn is_read_len(entries: Seq<ChecklistCard>, k: int) -> bool {
    &&& 0 <= k <= entries.len()
    &&& forall|j: int| 0 <= j < k ==> !quota_met(#[trigger] entries.take(j))
    &&& k < entries.len() ==> quota_met(entries.take(k))
}

/// Whether a figure with this filter speaks of `card`.
pub open spec fn admits(filter: Filter, card: Card) -> bool {
    match filter {
        Filter::All => true,
        Filter::Mono(color) => card.colors matches Some(colors) && colors@ == seq![color],
        Filter::Colorless => match card.colors {
            Some(colors) => colors@.len() == 0,
            None => true,
        },
        Filter::Multicolor => card.colors matches Some(colors) && colors@.len() > 1,
        Filter::Land => card.land(),
    }
}

/// The copies of an entry that count as owned: those owned, but no more than
/// are played.
pub open spec fn owned_towards(entry: ChecklistCard) -> nat {
    if entry.owned_versions@.len() < entry.metadata.num_copies {
        entry.owned_versions@.len()
    } else {
        entry.metadata.num_copies as nat
    }
}

/// The copies owned that count, summed over the first `count` of `entries`
/// that `filter` admits.
pub open spec fn top_owned(entries: Seq<ChecklistCard>, count: nat, filter: Filter) -> nat
    decreases entries.len(),
{
    if count == 0 || entries.len() == 0 {
        0
    } else if admits(filter, entries[0].card) {
        owned_towards(entries[0]) + top_owned(entries.drop_first(), (count - 1) as nat, filter)
    } else {
        top_owned(entries.drop_first(), count, filter)
    }
}

/// The copies played, summed over the first `count` of `entries` that `filter`
/// admits.
pub open spec fn top_total(entries: Seq<ChecklistCard>, count: nat, filter: Filter) -> nat
    decreases entries.len(),
{
    if count == 0 || entries.len() == 0 {
        0
    } else if admits(filter, entries[0].card) {
        entries[0].metadata.num_copies as nat + top_total(
            entries.drop_first(),
            (count - 1) as nat,
            filter,
        )
    } else {
        top_total(entries.drop_first(), count, filter)
    }
}

/// Neither sum exceeds 255 copies for each staple counted.
pub proof fn lemma_top_bounds(entries: Seq<ChecklistCard>, count: nat, filter: Filter)
    ensures
        top_owned(entries, count, filter) <= top_total(entries, count, filter),
        top_total(entries, count, filter) <= 255 * count,
    decreases entries.len(),
{
    if count == 0 || entries.len() == 0 {
    } else if admits(filter, entries[0].card) {
        lemma_top_bounds(entries.drop_first(), (count - 1) as nat, filter);
    } else {
        lemma_top_bounds(entries.drop_first(), count, filter);
    }
}

/// Whether `stats` are the figures of what is read of `ranked`.
pub open spec fn stats_of(ranked: Seq<ChecklistCard>, stats: Stats) -> bool {
    exists|k: int| is_read_len(ranked, k) && #[trigger] figures_of(ranked.take(k), stats)
}

/// Whether `progress` is what is owned of the first `count` of `read` that
/// `filter` admits.
pub open spec fn is_top(read: Seq<ChecklistCard>, count: nat, filter: Filter, progress: Progress) -> bool {
    progress.owned == top_owned(read, count, filter) && progress.total == top_total(
        read,
        count,
        filter,
    )
}

/// Whether `stats` are the figures of the staples `read`.
pub open spec fn figures_of(read: Seq<ChecklistCard>, stats: Stats) -> bool {
    &&& is_top(read, 20, Filter::All, stats.top_20)
    &&& is_top(read, 50, Filter::All, stats.top_50)
    &&& is_top(read, 150, Filter::All, stats.top_150)
    &&& is_top(read, 20, Filter::Mono(Color::White), stats.top_20_by_color[0])
    &&& is_top(read, 20, Filter::Mono(Color::Blue), stats.top_20_by_color[1])
    &&& is_top(read, 20, Filter::Mono(Color::Black), stats.top_20_by_color[2])
    &&& is_top(read, 20, Filter::Mono(Color::Red), stats.top_20_by_color[3])
    &&& is_top(read, 20, Filter::Mono(Color::Green), stats.top_20_by_color[4])
    &&& is_top(read, 10, Filter::Colorless, stats.top_10_colorless)
    &&& is_top(read, 20, Filter::Multicolor, stats.top_20_multicolor)
    &&& is_top(read, 10, Filter::Land, stats.top_10_lands)
}

/// The group of a card.
pub fn classify(card: &Card) -> (out: Bucket)
    ensures
        out == bucket_of(*card),
{
    if card.is_land() {
        Bucket::Land
    } else {
        match &card.colors {
            None => Bucket::Colorless,
            Some(colors) => if colors.len() == 0 {
                Bucket::Colorless
            } else if colors.len() == 1 {
                Bucket::Mono(colors[0])
            } else {
                Bucket::Multicolor
            },
        }
    }
}

/// Whether a figure with this filter speaks of `card`.
pub fn accepts(filter: Filter, card: &Card) -> (out: bool)
    ensures
        out == admits(filter, *card),
{
    match filter {
        Filter::All => true,
        Filter::Mono(color) => match &card.colors {
            Some(colors) => {
                let one = colors.len() == 1 && colors[0] == color;
                assert(one == (colors@ =~= seq![color]));
                one
            },
            None => false,
        },
        Filter::Colorless => match &card.colors {
            Some(colors) => colors.len() == 0,
            None => true,
        },
        Filter::Multicolor => match &card.colors {
            Some(colors) => colors.len() > 1,
            None => false,
        },
        Filter::Land => card.is_land(),
    }
}


/// How many of `ranked` are read: the fewest from the front that meet the
/// quota, and all of them where none do.
pub fn read_len<T: Ranked>(ranked: &Vec<T>) -> (k: usize)
    ensures
        is_read_len(entries_of(ranked@), k as int),
{
    let ghost entries = entries_of(ranked@);
    let mut white: usize = 0;
    let mut blue: usize = 0;
    let mut black: usize = 0;
    let mut red: usize = 0;
    let mut green: usize = 0;
    let mut colorless: usize = 0;
    let mut multicolor: usize = 0;
    let mut i: usize = 0;
    proof {
        assert(entries.take(0) =~= Seq::empty());
    }
    while i < ranked.len() && !(white >= MONO_QUOTA && blue >= MONO_QUOTA && black >= MONO_QUOTA
        && red >= MONO_QUOTA && green >= MONO_QUOTA && colorless >= COLORLESS_QUOTA && multicolor
        >= MULTICOLOR_QUOTA)
        invariant
            i <= ranked.len(),
            entries == entries_of(ranked@),
            white == count_in(entries.take(i as int), Bucket::Mono(Color::White)),
            blue == count_in(entries.take(i as int), Bucket::Mono(Color::Blue)),
            black == count_in(entries.take(i as int), Bucket::Mono(Color::Black)),
            red == count_in(entries.take(i as int), Bucket::Mono(Color::Red)),
            green == count_in(entries.take(i as int), Bucket::Mono(Color::Green)),
            colorless == count_in(entries.take(i as int), Bucket::Colorless),
            multicolor == count_in(entries.take(i as int), Bucket::Multicolor),
            white <= i && blue <= i && black <= i && red <= i && green <= i && colorless <= i
                && multicolor <= i,
            forall|j: int| 0 <= j < i ==> !quota_met(#[trigger] entries.take(j)),
        decreases ranked.len() - i,
    {
        proof {
            assert(entries.take(i + 1).drop_last() =~= entries.take(i as int));
            assert(entries.take(i + 1).last() == ranked@[i as int].entry());
        }
        match classify(&ranked[i].as_entry().card) {
            Bucket::Mono(Color::White) => {
                white += 1;
            },
            Bucket::Mono(Color::Blue) => {
                blue += 1;
            },
            Bucket::Mono(Color::Black) => {
                black += 1;
            },
            Bucket::Mono(Color::Red) => {
                red += 1;
            },
            Bucket::Mono(Color::Green) => {
                green += 1;
            },
            Bucket::Colorless => {
                colorless += 1;
            },
            Bucket::Multicolor => {
                multicolor += 1;
            },
            Bucket::Land => {},
        }
        i += 1;
    }
    i
}

/// What is owned of the first `count` staples that `filter` admits among the
/// first `len` of `ranked`.
pub fn top<T: Ranked>(ranked: &Vec<T>, len: usize, count: usize, filter: Filter) -> (out: Progress)
    requires
        len <= ranked.len(),
        count <= 257,
    ensures
        is_top(entries_of(ranked@).take(len as int), count as nat, filter, out),
{
    let ghost read = entries_of(ranked@).take(len as int);
    let mut owned: u16 = 0;
    let mut total: u16 = 0;
    let mut left: usize = count;
    let mut i: usize = 0;
    proof {
        assert(read.skip(0) =~= read);
    }
    while i < len && left > 0
        invariant
            i <= len <= ranked.len(),
            left <= count <= 257,
            read == entries_of(ranked@).take(len as int),
            owned + top_owned(read.skip(i as int), left as nat, filter) == top_owned(
                read,
                count as nat,
                filter,
            ),
            total + top_total(read.skip(i as int), left as nat, filter) == top_total(
                read,
                count as nat,
                filter,
            ),
            owned <= total <= 255 * (count - left),
        decreases len - i,
    {
        let entry = ranked[i].as_entry();
        proof {
            assert(read.skip(i as int).drop_first() =~= read.skip(i + 1));
            assert(read.skip(i as int)[0] == *entry);
        }
        if accepts(filter, &entry.card) {
            let copies: u16 = entry.metadata.num_copies as u16;
            let have: u16 = if entry.owned_versions.len() < entry.metadata.num_copies as usize {
                entry.owned_versions.len() as u16
            } else {
                copies
            };
            owned += have;
            total += copies;
            left -= 1;
        }
        i += 1;
    }
    Progress { owned, total }
}

/// The figures of the staples `ranked`, read from the front.
pub fn summarize<T: Ranked>(ranked: &Vec<T>) -> (out: Stats)
    ensures
        stats_of(entries_of(ranked@), out),
{
    let k = read_len(ranked);
    let out = Stats {
        top_20: top(ranked, k, 20, Filter::All),
        top_50: top(ranked, k, 50, Filter::All),
        top_150: top(ranked, k, 150, Filter::All),
        top_20_by_color: [
            top(ranked, k, 20, Filter::Mono(Color::White)),
            top(ranked, k, 20, Filter::Mono(Color::Blue)),
            top(ranked, k, 20, Filter::Mono(Color::Black)),
            top(ranked, k, 20, Filter::Mono(Color::Red)),
            top(ranked, k, 20, Filter::Mono(Color::Green)),
        ],
        top_10_colorless: top(ranked, k, 10, Filter::Colorless),
        top_20_multicolor: top(ranked, k, 20, Filter::Multicolor),
        top_10_lands: top(ranked, k, 10, Filter::Land),
    };
    assert(figures_of(entries_of(ranked@).take(k as int), out));
    out
}

/// The figures of a checklist: those of its entries in the order that does
/// not count the copies owned.
pub fn calculate(checklist: &Checklist) -> (out: Stats)
    ensures
        exists|ranked: Seq<ChecklistCard>|
            #[trigger] ranked_from(checklist@, ranked, Counting::IgnoringCollected) && stats_of(
                ranked,
                out,
            ),
{
    let ranked = checklist.ignoring_collection();
    summarize(&ranked)
}

} // verus!
