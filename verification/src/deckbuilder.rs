//! Checking a deck list against the collection: how many copies of each card
//! the deck plays, and how many of them are owned.

use crate::card_name::{lemma_key_of_fixed, lookup_key, CName};
use crate::collection::Collection;
use crate::decimal::{count_of, parse_count};
use crate::html::{select_texts, selected_texts};
use crate::table::{distinct_names, row_of, Table};
use crate::text::{
    chars_of, code_points, find_whitespace, is_space, is_whitespace, lemma_lex_transitive,
    lemma_lex_trichotomy, lemma_suffix_len, lemma_trimmed_start, lex_less, prefix_len, same_text,
    suffix_len, text_less, trim_bounds, trimmed, trimmed_start,
};
use vstd::prelude::*;
use vstd::string::StrSliceExecFns;

verus! {

/// The selector of the lines of a deck on a web page.
pub const DECK_LINES: &'static str = "div[class=\"deck_line hover_tr\"]";

/// Whether `name` is the name of one of the five basic lands.
pub open spec fn basic_land_name(name: Seq<char>) -> bool {
    name == "Plains"@ || name == "Island"@ || name == "Swamp"@ || name == "Mountain"@ || name
        == "Forest"@
}

/// Whether `name` is the name of one of the five basic lands.
pub fn is_basic_land(name: &str) -> (out: bool)
    ensures
        out == basic_land_name(name@),
{
    same_text(name, "Plains") || same_text(name, "Island") || same_text(name, "Swamp") || same_text(
        name,
        "Mountain",
    ) || same_text(name, "Forest")
}

/// A card of a deck: how many copies are owned, and how many the deck plays.
#[derive(Clone, Copy, Debug, PartialEq, Eq, Structural)]
pub struct Entry {
    pub owned: u8,
    pub count: u8,
}

/// How far a card of a deck is covered by the collection.
#[derive(Clone, Copy, Debug, PartialEq, Eq, Structural)]
pub enum Status {
    /// No copy is missing.
    Complete,
    /// Some copies are missing, and some are owned.
    Partial,
    /// All copies are missing.
    Missing,
}

/// Why a deck list could not be read.
#[derive(Clone, Copy, Debug, PartialEq, Eq, Structural)]
pub enum InputError {
    /// Line `line` is not a count and a card name.
    Malformed { line: usize },
    /// With line `line` a card has more than 255 copies.
    TooMany { line: usize },
    /// Line `line` of a web page holds no text.
    EmptyLine { line: usize },
    /// Line `line` of a web page does not begin with a count.
    NotANumber { line: usize },
    /// Line `line` of a web page holds no card name.
    NoName { line: usize },
    /// The selector of the lines was not understood.
    Selector,
}

impl Entry {
    /// How many copies are missing.
    pub open spec fn missing(self) -> int {
        if self.count > self.owned {
            self.count - self.owned
        } else {
            0
        }
    }

    /// How far the card is covered.
    pub open spec fn spec_status(self) -> Status {
        if self.missing() == 0 {
            Status::Complete
        } else if self.missing() < self.count {
            Status::Partial
        } else {
            Status::Missing
        }
    }

    /// How many copies are missing.
    pub fn missing_copies(&self) -> (out: u8)
        ensures
            out == self.missing(),
    {
        if self.count > self.owned {
            self.count - self.owned
        } else {
            0
        }
    }

    /// How far the card is covered.
    pub fn status(&self) -> (out: Status)
        ensures
            out == self.spec_status(),
    {
        let missing = self.missing_copies();
        if missing == 0 {
            Status::Complete
        } else if missing < self.count {
            Status::Partial
        } else {
            Status::Missing
        }
    }
}

/// What stands on a line of a deck list: nothing to note (`Ok(None)`) for an
/// empty line and for the headings `Deck` and `Sideboard`; else a count, which
/// may end in `x`, white space, and a name. `Err` for any other line.
pub open spec fn line_entry(line: Seq<char>) -> Result<Option<(u8, Seq<char>)>, ()> {
    let t = trimmed(line);
    if t.len() == 0 || t == "Deck"@ || t == "Sideboard"@ {
        Ok(None)
    } else {
        let end = prefix_len(t, |c: char| !is_space(c)) as int;
        let head = t.take(end);
        let digits = head.take(head.len() - suffix_len(head, |c: char| c == 'x'));
        if end == t.len() {
            Err(())
        } else {
            match count_of(digits) {
                Some(count) => Ok(Some((count, trimmed_start(t.skip(end))))),
                None => Err(()),
            }
        }
    }
}

/// Reads a line of a deck list.
pub fn parse_line(line: &str) -> (out: Result<Option<(u8, &str)>, ()>)
    ensures
        match out {
            Ok(Some((count, name))) => line_entry(line@) == Ok::<Option<(u8, Seq<char>)>, ()>(
                Some((count, name@)),
            ),
            Ok(None) => line_entry(line@) == Ok::<Option<(u8, Seq<char>)>, ()>(None),
            Err(_) => line_entry(line@) is Err,
        },
{
    let chars = chars_of(line);
    let n = chars.len();
    let (a, b) = trim_bounds(&chars, 0, n);
    let body = line.substring_char(a, b);
    assert(chars@.subrange(0, n as int) =~= chars@);
    assert(body@ == trimmed(line@));
    if a == b || same_text(body, "Deck") || same_text(body, "Sideboard") {
        return Ok(None);
    }
    let t = chars_of(body);
    let end = find_whitespace(&t);
    if end == t.len() {
        return Err(());
    }
    let mut stop: usize = end;
    while stop > 0 && t[stop - 1] == 'x'
        invariant
            stop <= end <= t.len(),
            forall|j: int| stop <= j < end ==> t@[j] == 'x',
        decreases stop,
    {
        stop -= 1;
    }
    let mut from: usize = end;
    while from < t.len() && is_whitespace(t[from])
        invariant
            end <= from <= t.len(),
            forall|j: int| end <= j < from ==> is_space(t@[j]),
        decreases t.len() - from,
    {
        from += 1;
    }
    proof {
        let head = t@.take(end as int);
        assert forall|j: int| head.len() - (end - stop) <= j < head.len() implies (|c: char|
            c == 'x')(#[trigger] head[j]) by {
            assert(head[j] == t@[j]);
        }
        lemma_suffix_len(head, |c: char| c == 'x', end - stop);
        assert(head.take(stop as int) =~= t@.subrange(0, stop as int));
        let tail = t@.skip(end as int);
        assert forall|j: int| 0 <= j < from - end implies is_space(#[trigger] tail[j]) by {
            assert(tail[j] == t@[end + j]);
        }
        lemma_trimmed_start(tail, from - end);
        assert(tail.skip(from - end) =~= t@.subrange(from as int, t.len() as int));
    }
    match parse_count(body.substring_char(0, stop)) {
        Some(count) => Ok(Some((count, body.substring_char(from, t.len())))),
        None => Err(()),
    }
}

/// The cards of a deck, each with its copies played and owned.
pub struct Decklist {
    pub decklist: Table<Entry>,
    pub collection: Collection,
}

/// How many copies of the card `name` count as owned when it is first noted
/// with `count` copies: all of them for a basic land; else those that the
/// collection files under the key of the name, and 255 where there are more.
pub open spec fn owned_of(collection: Collection, name: Seq<char>, count: u8) -> u8 {
    if basic_land_name(name) {
        count
    } else if collection.filed(lookup_key(name)).len() >= 255 {
        255
    } else {
        collection.filed(lookup_key(name)).len() as u8
    }
}

/// The deck once `count` more copies of `name` are noted. `None` where that
/// makes more than 255 copies.
pub open spec fn added(
    deck: Map<Seq<char>, Entry>,
    collection: Collection,
    name: Seq<char>,
    count: u8,
) -> Option<Map<Seq<char>, Entry>> {
    if deck.contains_key(name) {
        if deck[name].count + count > 255 {
            None
        } else {
            Some(
                deck.insert(
                    name,
                    Entry { owned: deck[name].owned, count: (deck[name].count + count) as u8 },
                ),
            )
        }
    } else {
        Some(deck.insert(name, Entry { owned: owned_of(collection, name, count), count }))
    }
}

impl Decklist {
    /// The deck as a map from names to entries.
    pub open spec fn view(self) -> Map<Seq<char>, Entry> {
        self.decklist@
    }

    /// The empty deck, to be checked against `collection`.
    pub fn new(collection: Collection) -> (out: Self)
        ensures
            out@ == Map::<Seq<char>, Entry>::empty(),
            out.collection == collection,
    {
        Decklist { decklist: Table::new(), collection }
    }

    /// Notes `count` more copies of `name`. Says whether that could be done:
    /// no card has more than 255 copies.
    pub fn add(&mut self, name: &str, count: u8) -> (done: bool)
        ensures
            final(self).collection == old(self).collection,
            match added(old(self)@, old(self).collection, name@, count) {
                Some(deck) => done && final(self)@ == deck,
                None => !done && final(self)@ == old(self)@,
            },
    {
        let entry = match self.decklist.get(name) {
            Some(e) => {
                if e.count > 255 - count {
                    return false;
                }
                Entry { owned: e.owned, count: e.count + count }
            },
            None => {
                let owned: u8 = if is_basic_land(name) {
                    count
                } else {
                    let key = CName::new(name);
                    proof {
                        lemma_key_of_fixed(name@);
                    }
                    let held = self.collection.count(&key);
                    if held >= 255 {
                        255
                    } else {
                        held as u8
                    }
                };
                Entry { owned, count }
            },
        };
        self.decklist.insert(name.to_owned(), entry);
        true
    }
}

/// What a line of a deck list or of a web page comes to: nothing to note, a
/// count and a name, or the reason why it cannot be taken in.
pub type Item = Result<Option<(u8, Seq<char>)>, InputError>;

/// The deck that the items describe, checked against `collection`; or the
/// reason why the first item that cannot be taken in cannot.
pub open spec fn noted(items: Seq<Item>, collection: Collection) -> Result<
    Map<Seq<char>, Entry>,
    InputError,
>
    decreases items.len(),
{
    if items.len() == 0 {
        Ok(Map::empty())
    } else {
        match noted(items.drop_last(), collection) {
            Err(e) => Err(e),
            Ok(deck) => match items.last() {
                Err(e) => Err(e),
                Ok(None) => Ok(deck),
                Ok(Some((count, name))) => match added(deck, collection, name, count) {
                    Some(more) => Ok(more),
                    None => Err(InputError::TooMany { line: (items.len() - 1) as usize }),
                },
            },
        }
    }
}

/// Once some items cannot be taken in, no more items mend that.
pub proof fn lemma_noted_fails(items: Seq<Item>, collection: Collection, upto: int)
    requires
        0 <= upto <= items.len(),
        noted(items.take(upto), collection) is Err,
    ensures
        noted(items, collection) == noted(items.take(upto), collection),
    decreases items.len() - upto,
{
    if upto < items.len() {
        assert(items.take(upto + 1).drop_last() =~= items.take(upto));
        lemma_noted_fails(items, collection, upto + 1);
    } else {
        assert(items.take(upto) =~= items);
    }
}

/// What line `at` of a deck list comes to.
pub open spec fn line_item(at: int, line: Seq<char>) -> Item {
    match line_entry(line) {
        Ok(entry) => Ok(entry),
        Err(_) => Err(InputError::Malformed { line: at as usize }),
    }
}

/// What line `at` of a deck on a web page comes to: its first piece of text
/// is the count, its second the name, each without the white space around it.
pub open spec fn row_item(at: int, texts: Seq<Seq<char>>) -> Item {
    if texts.len() == 0 {
        Err(InputError::EmptyLine { line: at as usize })
    } else {
        match count_of(trimmed(texts[0])) {
            None => Err(InputError::NotANumber { line: at as usize }),
            Some(count) => if texts.len() < 2 {
                Err(InputError::NoName { line: at as usize })
            } else {
                Ok(Some((count, trimmed(texts[1]))))
            },
        }
    }
}

/// What the lines of a deck list come to.
pub open spec fn line_items(lines: Seq<Seq<char>>) -> Seq<Item> {
    Seq::new(lines.len(), |i: int| line_item(i, lines[i]))
}

/// What the lines of a deck on a web page come to.
pub open spec fn row_items(rows: Seq<Seq<Seq<char>>>) -> Seq<Item> {
    Seq::new(rows.len(), |i: int| row_item(i, rows[i]))
}

/// `text` without the white space around it.
fn trim(text: &str) -> (out: &str)
    ensures
        out@ == trimmed(text@),
{
    let chars = chars_of(text);
    let (a, b) = trim_bounds(&chars, 0, chars.len());
    assert(chars@.subrange(0, chars.len() as int) =~= chars@);
    text.substring_char(a, b)
}

/// Reads a deck list, one line of text each, and checks it against `collection`.
pub fn check(lines: &Vec<String>, collection: Collection) -> (out: Result<Decklist, InputError>)
    ensures
        match noted(line_items(lines.deep_view()), collection) {
            Ok(deck) => out matches Ok(list) && list@ == deck && list.collection == collection,
            Err(e) => out matches Err(err) && err == e,
        },
{
    let ghost items = line_items(lines.deep_view());
    let mut deck = Decklist::new(collection);
    let mut i: usize = 0;
    proof {
        assert(items.take(0) =~= Seq::empty());
    }
    while i < lines.len()
        invariant
            i <= lines.len(),
            items == line_items(lines.deep_view()),
            deck.collection == collection,
            noted(items.take(i as int), collection) == Ok::<Map<Seq<char>, Entry>, InputError>(
                deck@,
            ),
        decreases lines.len() - i,
    {
        proof {
            assert(items.take(i + 1).drop_last() =~= items.take(i as int));
            assert(items.take(i + 1).last() == line_item(i as int, lines@[i as int]@));
        }
        match parse_line(lines[i].as_str()) {
            Err(_) => {
                proof {
                    lemma_noted_fails(items, collection, i + 1);
                }
                return Err(InputError::Malformed { line: i });
            },
            Ok(None) => {},
            Ok(Some((count, name))) => {
                if !deck.add(name, count) {
                    proof {
                        lemma_noted_fails(items, collection, i + 1);
                    }
                    return Err(InputError::TooMany { line: i });
                }
            },
        }
        i += 1;
    }
    proof {
        assert(items.take(i as int) =~= items);
    }
    Ok(deck)
}

/// The deck that the lines of a web page describe, checked against `collection`.
pub fn deck_from_rows(rows: &Vec<Vec<String>>, collection: Collection) -> (out: Result<
    Decklist,
    InputError,
>)
    ensures
        match noted(row_items(rows.deep_view()), collection) {
            Ok(deck) => out matches Ok(list) && list@ == deck && list.collection == collection,
            Err(e) => out matches Err(err) && err == e,
        },
{
    let ghost items = row_items(rows.deep_view());
    let mut deck = Decklist::new(collection);
    let mut i: usize = 0;
    proof {
        assert(items.take(0) =~= Seq::empty());
    }
    while i < rows.len()
        invariant
            i <= rows.len(),
            items == row_items(rows.deep_view()),
            deck.collection == collection,
            noted(items.take(i as int), collection) == Ok::<Map<Seq<char>, Entry>, InputError>(
                deck@,
            ),
        decreases rows.len() - i,
    {
        proof {
            assert(items.take(i + 1).drop_last() =~= items.take(i as int));
            assert(items.take(i + 1).last() == row_item(i as int, rows@[i as int].deep_view()));
        }
        let texts = &rows[i];
        if texts.len() == 0 {
            proof {
                lemma_noted_fails(items, collection, i + 1);
            }
            return Err(InputError::EmptyLine { line: i });
        }
        let count = match parse_count(trim(texts[0].as_str())) {
            Some(count) => count,
            None => {
                proof {
                    lemma_noted_fails(items, collection, i + 1);
                }
                return Err(InputError::NotANumber { line: i });
            },
        };
        if texts.len() < 2 {
            proof {
                lemma_noted_fails(items, collection, i + 1);
            }
            return Err(InputError::NoName { line: i });
        }
        if !deck.add(trim(texts[1].as_str()), count) {
            proof {
                lemma_noted_fails(items, collection, i + 1);
            }
            return Err(InputError::TooMany { line: i });
        }
        i += 1;
    }
    proof {
        assert(items.take(i as int) =~= items);
    }
    Ok(deck)
}

/// The deck on a web page, checked against `collection`.
pub fn load_from_web_page(html: &str, collection: Collection) -> (out: Result<Decklist, InputError>)
    ensures
        match selected_texts(html@, DECK_LINES@) {
            None => out matches Err(err) && err == InputError::Selector,
            Some(rows) => match noted(row_items(rows), collection) {
                Ok(deck) => out matches Ok(list) && list@ == deck && list.collection == collection,
                Err(e) => out matches Err(err) && err == e,
            },
        },
{
    match select_texts(html, DECK_LINES) {
        None => Err(InputError::Selector),
        Some(rows) => deck_from_rows(&rows, collection),
    }
}


/// Whether one of the first `upto` rows is `name` with `entry`.
pub open spec fn among_rows(
    rows: Seq<(Seq<char>, Entry)>,
    upto: int,
    name: Seq<char>,
    entry: Entry,
) -> bool {
    exists|r: int| 0 <= r < upto && r < rows.len() && #[trigger] rows[r] == (name, entry)
}

/// Whether `name` is one of the names listed.
pub open spec fn listed(list: Seq<(&str, Entry)>, name: Seq<char>) -> bool {
    exists|i: int| 0 <= i < list.len() && (#[trigger] list[i]).0@ == name
}

/// Whether the names listed stand in ascending order.
pub open spec fn ascending(list: Seq<(&str, Entry)>) -> bool {
    forall|i: int, j: int|
        0 <= i < j < list.len() ==> lex_less(
            code_points((#[trigger] list[i]).0@),
            code_points((#[trigger] list[j]).0@),
        )
}

impl Decklist {
    /// The cards of the deck by ascending name, each with its entry.
    pub fn sorted(&self) -> (out: Vec<(&str, Entry)>)
        ensures
            ascending(out@),
            forall|i: int|
                0 <= i < out.len() ==> self@.contains_key((#[trigger] out@[i]).0@)
                    && self@[out@[i].0@] == out@[i].1,
            forall|name: Seq<char>| self@.contains_key(name) ==> #[trigger] listed(out@, name),
    {
        let n = self.decklist.len();
        let ghost rows = self.decklist.rows();
        let mut out: Vec<(&str, Entry)> = Vec::new();
        let mut k: usize = 0;
        while k < n
            invariant
                k <= n,
                n == rows.len(),
                rows == self.decklist.rows(),
                distinct_names(rows),
                ascending(out@),
                forall|i: int|
                    0 <= i < out.len() ==> among_rows(
                        rows,
                        k as int,
                        (#[trigger] out@[i]).0@,
                        out@[i].1,
                    ),
                forall|r: int| 0 <= r < k ==> listed(out@, (#[trigger] rows[r]).0),
            decreases n - k,
        {
            let name = self.decklist.name_at(k);
            let entry = *self.decklist.value_at(k);
            let ghost before = out@;
            let mut at: usize = 0;
            while at < out.len() && text_less(out[at].0, name)
                invariant
                    at <= out.len(),
                    forall|i: int|
                        0 <= i < at ==> lex_less(
                            code_points((#[trigger] out@[i]).0@),
                            code_points(name@),
                        ),
                decreases out.len() - at,
            {
                at += 1;
            }
            proof {
                if at < before.len() {
                    assert(among_rows(rows, k as int, before[at as int].0@, before[at as int].1));
                    let r = choose|r: int|
                        0 <= r < k && r < rows.len() && #[trigger] rows[r] == (
                            before[at as int].0@,
                            before[at as int].1,
                        );
                    assert(rows[r].0 != rows[k as int].0);
                    lemma_points_differ(before[at as int].0@, name@);
                    lemma_lex_trichotomy(
                        code_points(before[at as int].0@),
                        code_points(name@),
                    );
                    assert forall|j: int| at < j < before.len() implies lex_less(
                        code_points(name@),
                        code_points((#[trigger] before[j]).0@),
                    ) by {
                        lemma_lex_transitive(
                            code_points(name@),
                            code_points(before[at as int].0@),
                            code_points(before[j].0@),
                        );
                    }
                }
            }
            out.insert(at, (name, entry));
            proof {
                assert forall|i: int, j: int| 0 <= i < j < out.len() implies lex_less(
                    code_points((#[trigger] out@[i]).0@),
                    code_points((#[trigger] out@[j]).0@),
                ) by {
                    let oi = if i < at { i } else { i - 1 };
                    let oj = if j < at { j } else { j - 1 };
                    if i != at {
                        assert(out@[i] == before[oi]);
                    }
                    if j != at {
                        assert(out@[j] == before[oj]);
                    }
                }
                assert forall|i: int| 0 <= i < out.len() implies among_rows(
                    rows,
                    k + 1,
                    (#[trigger] out@[i]).0@,
                    out@[i].1,
                ) by {
                    if i == at {
                        assert(rows[k as int] == (out@[i].0@, out@[i].1));
                    } else {
                        let oi = if i < at { i } else { i - 1 };
                        assert(out@[i] == before[oi]);
                        assert(among_rows(rows, k as int, before[oi].0@, before[oi].1));
                        let r = choose|r: int|
                            0 <= r < k && r < rows.len() && #[trigger] rows[r] == (
                                before[oi].0@,
                                before[oi].1,
                            );
                        assert(rows[r] == (out@[i].0@, out@[i].1));
                    }
                }
                assert forall|r: int| 0 <= r < k + 1 implies listed(
                    out@,
                    (#[trigger] rows[r]).0,
                ) by {
                    if r == k {
                        assert(out@[at as int].0@ == rows[r].0);
                    } else {
                        assert(listed(before, rows[r].0));
                        let oi = choose|i: int|
                            0 <= i < before.len() && (#[trigger] before[i]).0@ == rows[r].0;
                        let i = if oi < at { oi } else { oi + 1 };
                        assert(out@[i] == before[oi]);
                    }
                }
            }
            k += 1;
        }
        proof {
            assert forall|i: int| 0 <= i < out.len() implies self@.contains_key(
                (#[trigger] out@[i]).0@,
            ) && self@[out@[i].0@] == out@[i].1 by {
                assert(among_rows(rows, k as int, out@[i].0@, out@[i].1));
                let r = choose|r: int|
                    0 <= r < k && r < rows.len() && #[trigger] rows[r] == (out@[i].0@, out@[i].1);
                assert(self@.contains_key(rows[r].0));
            }
            assert forall|name: Seq<char>| self@.contains_key(name) implies #[trigger] listed(
                out@,
                name,
            ) by {
                let r = row_of(rows, name);
                assert(rows[r].0 == name);
            }
        }
        out
    }
}

/// Two texts that differ have code points that differ.
pub proof fn lemma_points_differ(a: Seq<char>, b: Seq<char>)
    requires
        a != b,
    ensures
        code_points(a) != code_points(b),
{
    if code_points(a) == code_points(b) {
        assert(a.len() == code_points(a).len());
        assert(b.len() == code_points(b).len());
        assert forall|i: int| 0 <= i < a.len() implies a[i] == b[i] by {
            assert(code_points(a)[i] == a[i] as int);
            assert(code_points(b)[i] == b[i] as int);
        }
        assert(a =~= b);
    }
}

} // verus!
