//! The staple list of the table source: three pages for a format, one each
//! for creatures, spells and lands, each with one table of staples.

use super::{
    parse_percent_text, without_percent_signs, Metadata, PageError, Staple, Unsupported,
};
use crate::card::Card;
use crate::card_name::{accent_fixed, CardName};
use crate::decimal::{numeral_of, parse_numeral, Numeral};
use crate::format::Format;
use crate::html::{select_within, selected_within, Found};
use crate::text::{chars_of, same_text, trim_bounds, trimmed};
use vstd::prelude::*;
use vstd::string::{StrSliceExecFns, StringExecFns};

verus! {

/// The selector of the tables.
pub const TABLES: &'static str = "table";

/// The selector of the rows of a table.
pub const ROWS: &'static str = "tr";

/// The tag above the rows that head a table.
pub const HEAD: &'static str = "thead";

/// A row as the page gives it: the tag above it, and its pieces of text.
pub type Row = (Option<Seq<char>>, Seq<Seq<char>>);

/// The source's word for a format.
pub open spec fn format_word(format: Format) -> Option<Seq<char>> {
    match format {
        Format::Pauper => Some("pauper"@),
        Format::Pioneer => Some("pioneer"@),
        Format::Legacy => Some("legacy"@),
        Format::Standard => Some("standard"@),
        _ => None,
    }
}

/// The address of the page of one kind of staples of a format.
pub open spec fn page_url(word: Seq<char>, kind: Seq<char>) -> Seq<char> {
    "https://www.mtggoldfish.com/format-staples/"@ + word + "/full/"@ + kind
}

fn url_of(word: &str, kind: &str) -> (out: String)
    ensures
        out@ == page_url(word@, kind@),
{
    let mut out = "https://www.mtggoldfish.com/format-staples/".to_owned();
    out.append(word);
    out.append("/full/");
    out.append(kind);
    out
}

/// The addresses of the three pages of a format: creatures, spells, lands.
pub fn urls_from_format(format: Format) -> (out: Result<[String; 3], Unsupported>)
    ensures
        match out {
            Ok(urls) => format_word(format) matches Some(word) && urls[0]@ == page_url(
                word,
                "creatures"@,
            ) && urls[1]@ == page_url(word, "spells"@) && urls[2]@ == page_url(word, "lands"@),
            Err(e) => format_word(format) is None && e.format == format,
        },
{
    let word = match format {
        Format::Pauper => "pauper",
        Format::Pioneer => "pioneer",
        Format::Legacy => "legacy",
        Format::Standard => "standard",
        _ => {
            return Err(Unsupported { format });
        },
    };
    Ok([url_of(word, "creatures"), url_of(word, "spells"), url_of(word, "lands")])
}

/// The pieces of text that hold more than white space, each without the white
/// space around it.
pub open spec fn tokens_of(texts: Seq<Seq<char>>) -> Seq<Seq<char>>
    decreases texts.len(),
{
    if texts.len() == 0 {
        Seq::empty()
    } else {
        let front = tokens_of(texts.drop_last());
        let token = trimmed(texts.last());
        if token.len() > 0 {
            front.push(token)
        } else {
            front
        }
    }
}

/// The numeral in token `at` of a row, if the row has that many tokens.
pub open spec fn figure_at(tokens: Seq<Seq<char>>, at: int, percent: bool) -> Option<Numeral> {
    if at < tokens.len() {
        numeral_of(
            if percent {
                without_percent_signs(tokens[at])
            } else {
                tokens[at]
            },
        )
    } else {
        None
    }
}

/// The staple that the tokens of a row describe. The first token is the rank;
/// then come the name, the share of decks and the copies.
pub open spec fn row_staple(tokens: Seq<Seq<char>>) -> (Seq<char>, Metadata) {
    (
        accent_fixed(tokens[1]),
        Metadata::from_figures(figure_at(tokens, 2, true), figure_at(tokens, 3, false)),
    )
}

/// The staples in the rows of a table, the rows of its head left out. `None`
/// where a row has no name.
pub open spec fn staples_in(rows: Seq<Row>) -> Option<Seq<(Seq<char>, Metadata)>>
    decreases rows.len(),
{
    if rows.len() == 0 {
        Some(Seq::empty())
    } else {
        match staples_in(rows.drop_last()) {
            None => None,
            Some(front) => {
                let row = rows.last();
                let tokens = tokens_of(row.1);
                if row.0 == Some(HEAD@) {
                    Some(front)
                } else if tokens.len() < 2 {
                    None
                } else {
                    Some(front.push(row_staple(tokens)))
                }
            },
        }
    }
}

/// The names and figures of `staples`, the names as the texts that they are.
pub open spec fn described(staples: Seq<(CardName, Metadata)>) -> Seq<(Seq<char>, Metadata)> {
    Seq::new(staples.len(), |i: int| (staples[i].0@, staples[i].1))
}

/// What a page holds: `None` where it has no table, else the staples in its
/// first table; no staples at all where a row of that table has no name.
pub open spec fn page_staples(tables: Seq<Seq<Row>>) -> Result<
    Option<Seq<(Seq<char>, Metadata)>>,
    PageError,
> {
    if tables.len() == 0 {
        Ok(None)
    } else {
        match staples_in(tables[0]) {
            Some(staples) => Ok(Some(staples)),
            None => Err(PageError::NamelessRow),
        }
    }
}

fn tokens<'a>(texts: &'a Vec<String>) -> (out: Vec<&'a str>)
    ensures
        out.deep_view() == tokens_of(texts.deep_view()),
{
    let mut out: Vec<&'a str> = Vec::new();
    let mut i: usize = 0;
    proof {
        assert(texts.deep_view().take(0) =~= Seq::empty());
        assert(out.deep_view() =~= Seq::empty());
    }
    while i < texts.len()
        invariant
            i <= texts.len(),
            out.deep_view() == tokens_of(texts.deep_view().take(i as int)),
        decreases texts.len() - i,
    {
        let text = texts[i].as_str();
        let chars = chars_of(text);
        let (a, b) = trim_bounds(&chars, 0, chars.len());
        let ghost before = out.deep_view();
        proof {
            let next = texts.deep_view().take(i + 1);
            assert(next.drop_last() =~= texts.deep_view().take(i as int));
            assert(next.last() == text@);
            assert(chars@.subrange(0, chars.len() as int) =~= chars@);
        }
        if a < b {
            out.push(text.substring_char(a, b));
            assert(out.deep_view() =~= before.push(trimmed(text@)));
        }
        i += 1;
    }
    proof {
        assert(texts.deep_view().take(i as int) =~= texts.deep_view());
    }
    out
}

fn is_head(row: &Found) -> (out: bool)
    ensures
        out == (row.deep_view().0 == Some(HEAD@)),
{
    match &row.parent {
        Some(tag) => same_text(tag.as_str(), HEAD),
        None => false,
    }
}

/// The staples in the rows of a table.
pub fn staples_from_rows(rows: &Vec<Found>) -> (out: Option<Vec<(CardName, Metadata)>>)
    ensures
        match out {
            Some(staples) => staples_in(rows.deep_view()) == Some(described(staples@)),
            None => staples_in(rows.deep_view()) is None,
        },
{
    let mut out: Vec<(CardName, Metadata)> = Vec::new();
    let mut i: usize = 0;
    proof {
        assert(rows.deep_view().take(0) =~= Seq::empty());
        assert(described(out@) =~= Seq::empty());
    }
    while i < rows.len()
        invariant
            i <= rows.len(),
            staples_in(rows.deep_view().take(i as int)) == Some(described(out@)),
        decreases rows.len() - i,
    {
        proof {
            let next = rows.deep_view().take(i + 1);
            assert(next.drop_last() =~= rows.deep_view().take(i as int));
            assert(next.last() == rows@[i as int].deep_view());
        }
        if !is_head(&rows[i]) {
            let t = tokens(&rows[i].texts);
            if t.len() < 2 {
                proof {
                    lemma_nameless_row(rows.deep_view(), i as int);
                }
                return None;
            }
            let name = CardName::new(t[1].to_owned());
            let percent = if t.len() > 2 {
                parse_percent_text(t[2])
            } else {
                None
            };
            let copies = if t.len() > 3 {
                parse_numeral(t[3])
            } else {
                None
            };
            let ghost before = described(out@);
            out.push((name, Metadata::of_figures(percent, copies)));
            proof {
                assert(described(out@) =~= before.push(row_staple(t.deep_view())));
            }
        }
        i += 1;
    }
    proof {
        assert(rows.deep_view().take(i as int) =~= rows.deep_view());
    }
    Some(out)
}

/// Once the rows up to some place hold a row without a name, so do all rows.
pub proof fn lemma_nameless_row(rows: Seq<Row>, at: int)
    requires
        0 <= at < rows.len(),
        staples_in(rows.take(at + 1)) is None,
    ensures
        staples_in(rows) is None,
    decreases rows.len() - at,
{
    if at + 1 < rows.len() {
        assert(rows.take(at + 2).drop_last() =~= rows.take(at + 1));
        lemma_nameless_row(rows, at + 1);
    } else {
        assert(rows.take(at + 1) =~= rows);
    }
}

/// The staples on a page of the source: `None` where the page has no table,
/// which is worth a warning and no more.
pub fn scrape(html: &str) -> (out: Result<Option<Vec<(CardName, Metadata)>>, PageError>)
    ensures
        match selected_within(html@, TABLES@, ROWS@) {
            None => out == Err::<Option<Vec<(CardName, Metadata)>>, PageError>(
                PageError::Selector,
            ),
            Some(tables) => match page_staples(tables) {
                Ok(Some(staples)) => out matches Ok(Some(found)) && described(found@) == staples,
                Ok(None) => out matches Ok(None),
                Err(e) => out == Err::<Option<Vec<(CardName, Metadata)>>, PageError>(e),
            },
        },
{
    match select_within(html, TABLES, ROWS) {
        None => Err(PageError::Selector),
        Some(tables) => if tables.len() == 0 {
            Ok(None)
        } else {
            match staples_from_rows(&tables[0]) {
                Some(staples) => Ok(Some(staples)),
                None => Err(PageError::NamelessRow),
            }
        },
    }
}


/// The staples of a page, each with its figures known.
pub open spec fn marked(page: Seq<(Card, Metadata)>) -> Seq<Staple> {
    Seq::new(page.len(), |i: int| (page[i].0, Some(page[i].1)))
}

/// The staples of all pages, page after page.
pub open spec fn gathered(pages: Seq<Vec<(Card, Metadata)>>) -> Seq<Staple>
    decreases pages.len(),
{
    if pages.len() == 0 {
        Seq::empty()
    } else {
        gathered(pages.drop_last()) + marked(pages.last()@)
    }
}

/// The staples of the source, once the cards on its pages have been found.
pub fn fetch(pages: Vec<Vec<(Card, Metadata)>>) -> (out: Vec<Staple>)
    ensures
        out@ == gathered(pages@),
{
    let mut out: Vec<Staple> = Vec::new();
    proof {
        assert(pages@.take(0) =~= Seq::empty());
    }
    for page in pit: pages
        invariant
            pit.seq() == pages@,
            out@ == gathered(pages@.take(pit.index())),
    {
        let ghost before = out@;
        proof {
            assert(pages@.take(pit.index() + 1).drop_last() =~= pages@.take(pit.index()));
        }
        for staple in sit: page
            invariant
                sit.seq() == page@,
                out.len() == before.len() + sit.index(),
                forall|i: int| 0 <= i < before.len() ==> out@[i] == before[i],
                forall|i: int|
                    0 <= i < sit.index() ==> out@[before.len() + i] == (
                        sit.seq()[i].0,
                        Some(sit.seq()[i].1),
                    ),
        {
            out.push((staple.0, Some(staple.1)));
        }
        proof {
            assert(out@ =~= before + marked(page@));
        }
    }
    proof {
        assert(pages@.take(pages@.len() as int) =~= pages@);
    }
    out
}

} // verus!
