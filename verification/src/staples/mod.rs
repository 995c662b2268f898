//! Staples: the cards that a format plays most, with how widely and in how
//! many copies they are played.

pub mod goldfish;
pub mod mtgtop8;

use crate::card::Card;
use crate::card_name::{lookup_key, normalized};
use crate::decimal::{numeral_of, parse_numeral, Decimal, Magnitude, Numeral};
use crate::format::Format;
use crate::text::{
    chars_of, is_space, is_whitespace, lemma_prefix_len, lemma_suffix_len, lemma_trimmed_start,
    prefix_len, suffix_len, trim_bounds, trimmed_start,
};
use vstd::prelude::*;
use vstd::string::StrSliceExecFns;

verus! {

/// A share of decks, in hundredths of a percent: `2550` is 25.5 %.
#[derive(Clone, Copy, Debug, PartialEq, Eq, Structural)]
pub struct Percent {
    pub hundredths: u16,
}

/// Why a page gave no staples.
#[derive(Clone, Copy, Debug, PartialEq, Eq, Structural)]
pub enum PageError {
    /// A selector was not understood.
    Selector,
    /// The cells of a page do not come in runs of three.
    LooseCells,
    /// A row of a table has no name in it.
    NamelessRow,
}

/// A source has no list for a format.
#[derive(Clone, Copy, Debug, PartialEq, Eq, Structural)]
pub struct Unsupported {
    pub format: Format,
}

/// How much a staple is played.
#[derive(Clone, Copy, Debug, PartialEq, Eq, Structural)]
pub struct Metadata {
    pub percent_in_decks: Percent,
    pub num_copies: u8,
}

/// The share that a number without its sign states, cut off after two digits
/// behind the point; all decks where it states more.
pub open spec fn share_of(d: Decimal) -> Percent {
    if d.whole >= 100 {
        Percent { hundredths: 10000 }
    } else {
        Percent { hundredths: (d.whole * 100 + d.hundredths) as u16 }
    }
}

/// A number without its sign rounded up to a whole number, and 255 where that
/// is more.
pub open spec fn ceiling_of(d: Decimal) -> u8 {
    let up: int = if d.hundredths > 0 || !d.rest_is_zero {
        1
    } else {
        0
    };
    if d.whole + up >= 255 {
        255
    } else {
        (d.whole + up) as u8
    }
}

/// The share that a numeral states. A share lies between no deck and all
/// decks, and a numeral outside is kept as the nearest share in the order of
/// numbers: anything with a minus sign as no deck; anything above 100, the
/// infinite and what is not a number, which stands above all numbers, as all
/// decks.
pub open spec fn percent_of(n: Numeral) -> Percent {
    if n.negative {
        Percent { hundredths: 0 }
    } else {
        match n.magnitude {
            Magnitude::Finite(d) => share_of(d),
            Magnitude::Infinite => Percent::full(),
            Magnitude::Nan => Percent::full(),
        }
    }
}

/// The number of copies that a numeral states: the numeral rounded up to a
/// whole number; none where it is below zero or not a number, and 255 where
/// it is more.
pub open spec fn copies_of(n: Numeral) -> u8 {
    match n.magnitude {
        Magnitude::Nan => 0,
        Magnitude::Infinite => if n.negative {
            0
        } else {
            255
        },
        Magnitude::Finite(d) => if n.negative {
            0
        } else {
            ceiling_of(d)
        },
    }
}

/// The first run of characters of `s` that holds no white space; empty where
/// `s` holds nothing else.
pub open spec fn first_word(s: Seq<char>) -> Seq<char> {
    let t = trimmed_start(s);
    t.take(prefix_len(t, |c: char| !is_space(c)) as int)
}

/// `s` without the percent signs at its end.
pub open spec fn without_percent_signs(s: Seq<char>) -> Seq<char> {
    s.take(s.len() - suffix_len(s, |c: char| c == '%'))
}

impl Percent {
    /// All decks.
    pub open spec fn full() -> Percent {
        Percent { hundredths: 10000 }
    }

    /// The share that `n` states.
    pub fn from_numeral(n: Numeral) -> (out: Percent)
        ensures
            out == percent_of(n),
    {
        if n.negative {
            return Percent { hundredths: 0 };
        }
        match n.magnitude {
            Magnitude::Finite(d) => if d.whole >= 100 {
                Percent { hundredths: 10000 }
            } else {
                let whole: u16 = d.whole as u16;
                Percent { hundredths: whole * 100 + d.hundredths as u16 }
            },
            Magnitude::Infinite => Percent { hundredths: 10000 },
            Magnitude::Nan => Percent { hundredths: 10000 },
        }
    }
}

impl Metadata {
    /// What holds of a staple of which nothing is known: every deck plays four.
    pub open spec fn fallback() -> Metadata {
        Metadata { percent_in_decks: Percent::full(), num_copies: 4 }
    }

    /// The figures given, and for each one that is missing that of `fallback`.
    pub open spec fn spec_new(percent_in_decks: Option<Percent>, num_copies: Option<u8>) -> Metadata {
        Metadata {
            percent_in_decks: match percent_in_decks {
                Some(p) => p,
                None => Percent::full(),
            },
            num_copies: match num_copies {
                Some(n) => n,
                None => 4,
            },
        }
    }

    /// The figures given, and for each one that is missing that of `fallback`.
    pub fn new(percent_in_decks: Option<Percent>, num_copies: Option<u8>) -> (out: Metadata)
        ensures
            out == Metadata::spec_new(percent_in_decks, num_copies),
    {
        Metadata {
            percent_in_decks: match percent_in_decks {
                Some(p) => p,
                None => Percent { hundredths: 10000 },
            },
            num_copies: match num_copies {
                Some(n) => n,
                None => 4,
            },
        }
    }

    /// The figures that a staple list prints, read from their numerals; a
    /// figure that is missing or unreadable gets that of `fallback`.
    pub open spec fn from_figures(percent: Option<Numeral>, copies: Option<Numeral>) -> Metadata {
        Metadata::spec_new(
            match percent {
                Some(n) => Some(percent_of(n)),
                None => None,
            },
            match copies {
                Some(n) => Some(copies_of(n)),
                None => None,
            },
        )
    }

    /// The figures that a staple list prints, read from their numerals.
    pub fn of_figures(percent: Option<Numeral>, copies: Option<Numeral>) -> (out: Metadata)
        ensures
            out == Metadata::from_figures(percent, copies),
    {
        let p = match percent {
            Some(n) => Some(Percent::from_numeral(n)),
            None => None,
        };
        let c = match copies {
            Some(n) => Some(copies_from_numeral(n)),
            None => None,
        };
        Metadata::new(p, c)
    }
}

/// The number of copies that `n` states.
pub fn copies_from_numeral(n: Numeral) -> (out: u8)
    ensures
        out == copies_of(n),
{
    match n.magnitude {
        Magnitude::Nan => 0,
        Magnitude::Infinite => if n.negative {
            0
        } else {
            255
        },
        Magnitude::Finite(d) => if n.negative {
            0
        } else {
            let up: u64 = if d.hundredths > 0 || !d.rest_is_zero {
                1
            } else {
                0
            };
            if d.whole >= 255 - up {
                255
            } else {
                (d.whole + up) as u8
            }
        },
    }
}

/// The first word of `text`.
pub fn first_word_of(text: &str) -> (out: &str)
    ensures
        out@ == first_word(text@),
{
    let chars = chars_of(text);
    let n = chars.len();
    let (a, b) = trim_bounds(&chars, 0, n);
    let mut end: usize = a;
    while end < n && !is_whitespace(chars[end])
        invariant
            a <= end <= n,
            n == chars.len(),
            forall|j: int| a <= j < end ==> !is_space(chars@[j]),
        decreases n - end,
    {
        end += 1;
    }
    proof {
        let t = trimmed_start(text@);
        lemma_trimmed_start(chars@, a as int);
        assert(t == chars@.skip(a as int));
        let word = |c: char| !is_space(c);
        assert forall|j: int| 0 <= j < end - a implies word(#[trigger] t[j]) by {
            assert(t[j] == chars@[a + j]);
        }
        lemma_prefix_len(t, word, end - a);
        assert(t.take(end - a) == chars@.subrange(a as int, end as int));
    }
    text.substring_char(a, end)
}

/// Reads the numeral that is the first word of `text`.
pub fn parse_first_word(text: &str) -> (out: Option<Numeral>)
    ensures
        out == numeral_of(first_word(text@)),
{
    parse_numeral(first_word_of(text))
}

/// Reads the numeral that the first word of `text` is once the percent signs
/// at its end are left out.
pub fn parse_percent_word(text: &str) -> (out: Option<Numeral>)
    ensures
        out == numeral_of(without_percent_signs(first_word(text@))),
{
    parse_percent_text(first_word_of(text))
}

/// Reads the numeral that `text` is once the percent signs at its end are left out.
pub fn parse_percent_text(text: &str) -> (out: Option<Numeral>)
    ensures
        out == numeral_of(without_percent_signs(text@)),
{
    let chars = chars_of(text);
    let mut end: usize = chars.len();
    while end > 0 && chars[end - 1] == '%'
        invariant
            end <= chars.len(),
            forall|j: int| end <= j < chars.len() ==> chars@[j] == '%',
        decreases end,
    {
        end -= 1;
    }
    proof {
        lemma_suffix_len(chars@, |c: char| c == '%', chars.len() - end);
        assert(chars@.take(end as int) == chars@.subrange(0, end as int));
    }
    parse_numeral(text.substring_char(0, end))
}

/// A card with how much it is played, where that is known.
pub type Staple = (Card, Option<Metadata>);

/// What a staple's figures are worth when one of two entries for a card must
/// go: its share of decks, and less than any share where nothing is known.
pub open spec fn worth(metadata: Option<Metadata>) -> int {
    match metadata {
        Some(m) => m.percent_in_decks.hundredths as int,
        None => -1,
    }
}

/// Whether `list` has an entry for the card of `staple` that is worth no less.
pub open spec fn covers(list: Seq<Staple>, staple: Staple) -> bool {
    exists|i: int|
        0 <= i < list.len() && (#[trigger] list[i]).0.id == staple.0.id && worth(staple.1) <= worth(
            list[i].1,
        )
}

/// Whether `merged` is `all` with one entry kept for each card: the entries
/// stand by ascending identifier, each is one of `all`, and for each of `all`
/// there is the entry for its card, worth no less.
pub open spec fn is_merged(merged: Seq<Staple>, all: Seq<Staple>) -> bool {
    &&& forall|i: int, j: int| 0 <= i < j < merged.len() ==> merged[i].0.id < merged[j].0.id
    &&& forall|i: int| 0 <= i < merged.len() ==> all.contains(#[trigger] merged[i])
    &&& forall|k: int| 0 <= k < all.len() ==> covers(merged, #[trigger] all[k])
}

fn worth_of(metadata: &Option<Metadata>) -> (out: i32)
    ensures
        out == worth(*metadata),
{
    match metadata {
        Some(m) => m.percent_in_decks.hundredths as i32,
        None => -1,
    }
}

/// Where the card `id` stands or would stand in `list`.
fn place_of(list: &Vec<Staple>, id: u128) -> (at: usize)
    requires
        forall|i: int, j: int| 0 <= i < j < list.len() ==> list@[i].0.id < list@[j].0.id,
    ensures
        at <= list.len(),
        forall|i: int| 0 <= i < at ==> list@[i].0.id < id,
        forall|i: int| at <= i < list.len() ==> list@[i].0.id >= id,
{
    let mut at: usize = 0;
    while at < list.len() && list[at].0.id < id
        invariant
            at <= list.len(),
            forall|i: int| 0 <= i < at ==> list@[i].0.id < id,
            forall|i: int, j: int| 0 <= i < j < list.len() ==> list@[i].0.id < list@[j].0.id,
        decreases list.len() - at,
    {
        at += 1;
    }
    at
}

/// The staples of two sources as one list with one entry for each card: of
/// several entries for a card, one with figures before one without, and the
/// larger share of decks before the smaller.
pub fn fetch(top8: Vec<Staple>, goldfish: Vec<Staple>) -> (out: Vec<Staple>)
    ensures
        is_merged(out@, top8@ + goldfish@),
{
    let ghost all = top8@ + goldfish@;
    let mut rest = top8;
    let mut more = goldfish;
    rest.append(&mut more);
    assert(rest@ =~= all);
    let mut out: Vec<Staple> = Vec::new();
    while rest.len() > 0
        invariant
            rest@ =~= all.take(rest.len() as int),
            rest.len() <= all.len(),
            forall|i: int, j: int| 0 <= i < j < out.len() ==> out@[i].0.id < out@[j].0.id,
            forall|i: int| 0 <= i < out.len() ==> all.contains(#[trigger] out@[i]),
            forall|k: int| rest.len() <= k < all.len() ==> covers(out@, #[trigger] all[k]),
        decreases rest.len(),
    {
        let ghost before = out@;
        let ghost n = rest.len() - 1;
        let staple = rest.pop().unwrap();
        assert(staple == all[n]);
        let at = place_of(&out, staple.0.id);
        if at < out.len() && out[at].0.id == staple.0.id {
            if worth_of(&staple.1) > worth_of(&out[at].1) {
                out.set(at, staple);
                proof {
                    assert forall|k: int| n <= k < all.len() implies covers(
                        out@,
                        #[trigger] all[k],
                    ) by {
                        if k == n {
                            assert(out@[at as int].0.id == all[k].0.id);
                        } else {
                            let i = choose|i: int|
                                0 <= i < before.len() && (#[trigger] before[i]).0.id
                                    == all[k].0.id && worth(all[k].1) <= worth(before[i].1);
                            assert(out@[i].0.id == all[k].0.id);
                        }
                    }
                }
            } else {
                proof {
                    assert(out@[at as int].0.id == all[n].0.id);
                }
            }
        } else {
            out.insert(at, staple);
            proof {
                assert forall|k: int| n <= k < all.len() implies covers(out@, #[trigger] all[k]) by {
                    if k == n {
                        assert(out@[at as int].0.id == all[k].0.id);
                    } else {
                        let i = choose|i: int|
                            0 <= i < before.len() && (#[trigger] before[i]).0.id == all[k].0.id
                                && worth(all[k].1) <= worth(before[i].1);
                        let ii = if i < at { i } else { i + 1 };
                        assert(out@[ii] == before[i]);
                    }
                }
                assert forall|i: int| 0 <= i < out.len() implies all.contains(#[trigger] out@[i]) by {
                    if i != at {
                        let oi = if i < at { i } else { i - 1 };
                        assert(out@[i] == before[oi]);
                    }
                }
            }
        }
    }
    out
}


/// The name under which a card asked for as `name` is looked up and kept.
pub fn cache_key(name: &str) -> (out: String)
    ensures
        out@ == lookup_key(name@),
{
    normalized(name).to_owned()
}

} // verus!
