//! The staple list of the paginated source: 16 pages for the main deck and 16
//! for the sideboard, each a form posted to one address, each answered with
//! table cells that come in runs of three: name, share of decks, copies.

use super::{
    first_word, parse_first_word, parse_percent_word, without_percent_signs, Metadata, PageError,
    Unsupported,
};
use crate::card_name::{accent_fixed, CardName};
use crate::decimal::{numeral_of, Numeral};
use crate::digits::{decimal_digits, decimal_text};
use crate::format::Format;
use crate::html::{select_texts, selected_texts};
use vstd::prelude::*;
use vstd::string::StringExecFns;

verus! {

/// Where the forms are posted.
pub const URL: &'static str = "https://mtgtop8.com/topcards";

/// The selector of the cells that hold the list.
pub const CELLS: &'static str = "td[class=\"L14\"]";

/// How many pages of each board are asked for.
pub const PAGES: u8 = 16;

/// The part of a deck that a page lists.
#[derive(Clone, Copy, Debug, PartialEq, Eq, Structural)]
pub enum Board {
    /// The main deck.
    Md,
    /// The sideboard.
    Sb,
}

/// The source's word for a format.
pub open spec fn form_param(format: Format) -> Option<Seq<char>> {
    match format {
        Format::Pauper => Some("PAU"@),
        Format::Legacy => Some("LE"@),
        Format::Pioneer => Some("PI"@),
        _ => None,
    }
}

/// The source's word for `format`, if it lists the format.
pub fn format_to_form_param(format: Format) -> (out: Result<&'static str, Unsupported>)
    ensures
        match out {
            Ok(word) => form_param(format) == Some(word@),
            Err(e) => form_param(format) is None && e.format == format,
        },
{
    match format {
        Format::Pauper => Ok("PAU"),
        Format::Legacy => Ok("LE"),
        Format::Pioneer => Ok("PI"),
        _ => Err(Unsupported { format }),
    }
}

/// The pages to ask for, in order: those of the main deck, then those of the
/// sideboard, each counted from 1.
pub fn requests() -> (out: Vec<(u8, Board)>)
    ensures
        out.len() == 2 * PAGES,
        forall|i: int| 0 <= i < PAGES ==> out@[i] == ((i + 1) as u8, Board::Md),
        forall|i: int| PAGES <= i < 2 * PAGES ==> out@[i] == ((i - PAGES + 1) as u8, Board::Sb),
{
    let mut out: Vec<(u8, Board)> = Vec::new();
    let mut page: u8 = 1;
    while page <= PAGES
        invariant
            1 <= page <= PAGES + 1,
            out.len() == page - 1,
            forall|i: int| 0 <= i < page - 1 ==> out@[i] == ((i + 1) as u8, Board::Md),
        decreases PAGES + 1 - page,
    {
        out.push((page, Board::Md));
        page += 1;
    }
    page = 1;
    while page <= PAGES
        invariant
            1 <= page <= PAGES + 1,
            out.len() == PAGES + page - 1,
            forall|i: int| 0 <= i < PAGES ==> out@[i] == ((i + 1) as u8, Board::Md),
            forall|i: int|
                PAGES <= i < PAGES + page - 1 ==> out@[i] == ((i - PAGES + 1) as u8, Board::Sb),
        decreases PAGES + 1 - page,
    {
        out.push((page, Board::Sb));
        page += 1;
    }
    out
}

/// The pieces of text put together.
pub open spec fn joined(texts: Seq<Seq<char>>) -> Seq<char>
    decreases texts.len(),
{
    if texts.len() == 0 {
        Seq::empty()
    } else {
        joined(texts.drop_last()) + texts.last()
    }
}

/// The numeral in a cell: the first word of its first piece of text, and for
/// a share of decks that word without the percent signs at its end.
pub open spec fn figure_of(cell: Seq<Seq<char>>, percent: bool) -> Option<Numeral> {
    if cell.len() == 0 {
        None
    } else if percent {
        numeral_of(without_percent_signs(first_word(cell[0])))
    } else {
        numeral_of(first_word(cell[0]))
    }
}

/// The staple that three cells describe: its name, and how much it is played.
pub open spec fn staple_of(
    name: Seq<Seq<char>>,
    percent: Seq<Seq<char>>,
    copies: Seq<Seq<char>>,
) -> (Seq<char>, Metadata) {
    (
        accent_fixed(joined(name)),
        Metadata::from_figures(figure_of(percent, true), figure_of(copies, false)),
    )
}

/// Whether `staples` are what `cells` describe, run of three by run of three.
pub open spec fn staples_of_cells(
    staples: Seq<(CardName, Metadata)>,
    cells: Seq<Seq<Seq<char>>>,
) -> bool {
    &&& staples.len() * 3 == cells.len()
    &&& forall|i: int|
        0 <= i < staples.len() ==> (#[trigger] staples[i].0@, staples[i].1) == staple_of(
            cells[3 * i],
            cells[3 * i + 1],
            cells[3 * i + 2],
        )
}

fn join_texts(texts: &Vec<String>) -> (out: String)
    ensures
        out@ == joined(texts.deep_view()),
{
    let mut out = String::new();
    let mut i: usize = 0;
    proof {
        assert(texts.deep_view().take(0) =~= Seq::empty());
    }
    while i < texts.len()
        invariant
            i <= texts.len(),
            out@ == joined(texts.deep_view().take(i as int)),
        decreases texts.len() - i,
    {
        proof {
            let next = texts.deep_view().take(i + 1);
            assert(next.drop_last() =~= texts.deep_view().take(i as int));
            assert(next.last() == texts@[i as int]@);
        }
        out.append(texts[i].as_str());
        i += 1;
    }
    proof {
        assert(texts.deep_view().take(i as int) =~= texts.deep_view());
    }
    out
}

fn read_figure(cell: &Vec<String>, percent: bool) -> (out: Option<Numeral>)
    ensures
        out == figure_of(cell.deep_view(), percent),
{
    if cell.len() == 0 {
        None
    } else if percent {
        parse_percent_word(cell[0].as_str())
    } else {
        parse_first_word(cell[0].as_str())
    }
}

/// The staples that the cells of a page describe.
pub fn cards_from_cells(cells: &Vec<Vec<String>>) -> (out: Vec<(CardName, Metadata)>)
    requires
        cells.len() % 3 == 0,
    ensures
        staples_of_cells(out@, cells.deep_view()),
{
    let mut out: Vec<(CardName, Metadata)> = Vec::new();
    let mut i: usize = 0;
    while i < cells.len()
        invariant
            i <= cells.len(),
            i % 3 == 0,
            cells.len() % 3 == 0,
            out.len() * 3 == i,
            forall|k: int|
                0 <= k < out.len() ==> (#[trigger] out@[k].0@, out@[k].1) == staple_of(
                    cells.deep_view()[3 * k],
                    cells.deep_view()[3 * k + 1],
                    cells.deep_view()[3 * k + 2],
                ),
        decreases cells.len() - i,
    {
        let name = CardName::new(join_texts(&cells[i]));
        let percent = read_figure(&cells[i + 1], true);
        let copies = read_figure(&cells[i + 2], false);
        out.push((name, Metadata::of_figures(percent, copies)));
        i += 3;
    }
    out
}

/// The staples on a page of the source.
pub fn scrape_page(html: &str) -> (out: Result<Vec<(CardName, Metadata)>, PageError>)
    ensures
        match selected_texts(html@, CELLS@) {
            None => out == Err::<Vec<(CardName, Metadata)>, PageError>(PageError::Selector),
            Some(cells) => if cells.len() % 3 == 0 {
                out is Ok && staples_of_cells(out->Ok_0@, cells)
            } else {
                out == Err::<Vec<(CardName, Metadata)>, PageError>(PageError::LooseCells)
            },
        },
{
    match select_texts(html, CELLS) {
        None => Err(PageError::Selector),
        Some(cells) => if cells.len() % 3 == 0 {
            Ok(cards_from_cells(&cells))
        } else {
            Err(PageError::LooseCells)
        },
    }
}


/// The cells of a page, where they come in runs of three.
pub open spec fn page_cells(html: Seq<char>) -> Result<Seq<Seq<Seq<char>>>, PageError> {
    match selected_texts(html, CELLS@) {
        None => Err(PageError::Selector),
        Some(cells) => if cells.len() % 3 == 0 {
            Ok(cells)
        } else {
            Err(PageError::LooseCells)
        },
    }
}

/// The cells of all pages, page after page; or what is wrong with the first
/// page with which something is.
pub open spec fn all_cells(pages: Seq<Seq<char>>) -> Result<Seq<Seq<Seq<char>>>, PageError>
    decreases pages.len(),
{
    if pages.len() == 0 {
        Ok(Seq::empty())
    } else {
        match all_cells(pages.drop_last()) {
            Err(e) => Err(e),
            Ok(cells) => match page_cells(pages.last()) {
                Err(e) => Err(e),
                Ok(more) => Ok(cells + more),
            },
        }
    }
}

/// Once a page is wrong, no more pages mend that.
pub proof fn lemma_all_cells_fails(pages: Seq<Seq<char>>, upto: int)
    requires
        0 <= upto <= pages.len(),
        all_cells(pages.take(upto)) is Err,
    ensures
        all_cells(pages) == all_cells(pages.take(upto)),
    decreases pages.len() - upto,
{
    if upto < pages.len() {
        assert(pages.take(upto + 1).drop_last() =~= pages.take(upto));
        lemma_all_cells_fails(pages, upto + 1);
    } else {
        assert(pages.take(upto) =~= pages);
    }
}

/// The staples of two runs of cells are those of the one run after the other.
pub proof fn lemma_staples_join(
    a: Seq<(CardName, Metadata)>,
    b: Seq<(CardName, Metadata)>,
    cells_a: Seq<Seq<Seq<char>>>,
    cells_b: Seq<Seq<Seq<char>>>,
)
    requires
        staples_of_cells(a, cells_a),
        staples_of_cells(b, cells_b),
    ensures
        staples_of_cells(a + b, cells_a + cells_b),
{
    let all = a + b;
    let cells = cells_a + cells_b;
    assert forall|i: int| 0 <= i < all.len() implies (#[trigger] all[i].0@, all[i].1) == staple_of(
        cells[3 * i],
        cells[3 * i + 1],
        cells[3 * i + 2],
    ) by {
        if i < a.len() {
            assert(all[i] == a[i]);
            assert((a[i].0@, a[i].1) == staple_of(
                cells_a[3 * i],
                cells_a[3 * i + 1],
                cells_a[3 * i + 2],
            ));
        } else {
            let j = i - a.len();
            assert(all[i] == b[j]);
            assert((b[j].0@, b[j].1) == staple_of(
                cells_b[3 * j],
                cells_b[3 * j + 1],
                cells_b[3 * j + 2],
            ));
            assert(cells[3 * i] == cells_b[3 * j]);
            assert(cells[3 * i + 1] == cells_b[3 * j + 1]);
            assert(cells[3 * i + 2] == cells_b[3 * j + 2]);
        }
    }
}

/// The staples of the source, read from the pages that it answered with.
pub fn fetch(pages: &Vec<String>) -> (out: Result<Vec<(CardName, Metadata)>, PageError>)
    ensures
        match all_cells(pages.deep_view()) {
            Ok(cells) => out matches Ok(staples) && staples_of_cells(staples@, cells),
            Err(e) => out matches Err(err) && err == e,
        },
{
    let ghost texts = pages.deep_view();
    let mut out: Vec<(CardName, Metadata)> = Vec::new();
    let mut i: usize = 0;
    proof {
        assert(texts.take(0) =~= Seq::empty());
    }
    while i < pages.len()
        invariant
            i <= pages.len(),
            texts == pages.deep_view(),
            all_cells(texts.take(i as int)) matches Ok(cells) && staples_of_cells(out@, cells),
        decreases pages.len() - i,
    {
        let ghost before = out@;
        let ghost cells = all_cells(texts.take(i as int))->Ok_0;
        proof {
            assert(texts.take(i + 1).drop_last() =~= texts.take(i as int));
            assert(texts.take(i + 1).last() == pages@[i as int]@);
        }
        match scrape_page(pages[i].as_str()) {
            Ok(mut more) => {
                proof {
                    lemma_staples_join(before, more@, cells, page_cells(pages@[i as int]@)->Ok_0);
                }
                out.append(&mut more);
            },
            Err(e) => {
                proof {
                    lemma_all_cells_fails(texts, i + 1);
                }
                return Err(e);
            },
        }
        i += 1;
    }
    proof {
        assert(texts.take(i as int) =~= texts);
    }
    Ok(out)
}


/// The source's word for a board.
pub open spec fn board_word(board: Board) -> Seq<char> {
    match board {
        Board::Md => "MD"@,
        Board::Sb => "SB"@,
    }
}

/// The fields that every form holds.
pub open spec fn fixed_fields() -> Seq<(Seq<char>, Seq<char>)> {
    seq![
        ("data"@, "1"@),
        ("metagame_sel[VI]"@, "71"@),
        ("metagame_sel[LE]"@, "39"@),
        ("metagame_sel[MO]"@, "51"@),
        ("metagame_sel[PI]"@, "193"@),
        ("metagame_sel[EX]"@, "95"@),
        ("metagame_sel[HI]"@, "211"@),
        ("metagame_sel[ST]"@, "52"@),
        ("metagame_sel[BL]"@, "85"@),
        ("metagame_sel[LI]"@, "227"@),
        ("metagame_sel[PAU]"@, "145"@),
        ("metagame_sel[EDH]"@, "121"@),
        ("metagame_sel[HIGH]"@, "180"@),
        ("metagame_sel[EDHP]"@, "106"@),
        ("metagame_sel[CHL]"@, "105"@),
        ("metagame_sel[PEA]"@, "228"@),
        ("metagame_sel[EDHM]"@, "157"@),
        ("metagame_sel[ALCH]"@, "232"@),
        ("metagame_sel[cEDH]"@, "240"@),
        ("metagame_sel[EXP]"@, "259"@),
        ("metagame_sel[PREM]"@, "261"@),
        ("card_col"@, ""@),
        ("card_type"@, ""@),
        ("card_rarity"@, ""@),
        ("lands"@, "1"@),
    ]
}

/// The form that asks for page `page` of `board` in the format that the
/// source calls `word`: the page, the board, the format, and the fields that
/// every form holds.
pub open spec fn form_of(word: Seq<char>, page: u8, board: Board) -> Seq<(Seq<char>, Seq<char>)> {
    seq![
        ("current_page"@, decimal_digits(page as nat)),
        ("maindeck"@, board_word(board)),
        ("format"@, word),
    ] + fixed_fields()
}

fn field(name: &str, value: &str) -> (out: (String, String))
    ensures
        out.deep_view() == (name@, value@),
{
    (name.to_owned(), value.to_owned())
}

/// The form that asks for page `page` of `board` in `format`.
pub fn form_fields(format: Format, page: u8, board: Board) -> (out: Result<
    Vec<(String, String)>,
    Unsupported,
>)
    ensures
        match out {
            Ok(fields) => form_param(format) matches Some(word) && fields.deep_view() == form_of(
                word,
                page,
                board,
            ),
            Err(e) => form_param(format) is None && e.format == format,
        },
{
    let word = match format_to_form_param(format) {
        Ok(word) => word,
        Err(e) => {
            return Err(e);
        },
    };
    let board_text = match board {
        Board::Md => "MD",
        Board::Sb => "SB",
    };
    let mut out: Vec<(String, String)> = Vec::new();
    out.push(("current_page".to_owned(), decimal_text(page)));
    out.push(field("maindeck", board_text));
    out.push(field("format", word));
    out.push(field("data", "1"));
    out.push(field("metagame_sel[VI]", "71"));
    out.push(field("metagame_sel[LE]", "39"));
    out.push(field("metagame_sel[MO]", "51"));
    out.push(field("metagame_sel[PI]", "193"));
    out.push(field("metagame_sel[EX]", "95"));
    out.push(field("metagame_sel[HI]", "211"));
    out.push(field("metagame_sel[ST]", "52"));
    out.push(field("metagame_sel[BL]", "85"));
    out.push(field("metagame_sel[LI]", "227"));
    out.push(field("metagame_sel[PAU]", "145"));
    out.push(field("metagame_sel[EDH]", "121"));
    out.push(field("metagame_sel[HIGH]", "180"));
    out.push(field("metagame_sel[EDHP]", "106"));
    out.push(field("metagame_sel[CHL]", "105"));
    out.push(field("metagame_sel[PEA]", "228"));
    out.push(field("metagame_sel[EDHM]", "157"));
    out.push(field("metagame_sel[ALCH]", "232"));
    out.push(field("metagame_sel[cEDH]", "240"));
    out.push(field("metagame_sel[EXP]", "259"));
    out.push(field("metagame_sel[PREM]", "261"));
    out.push(field("card_col", ""));
    out.push(field("card_type", ""));
    out.push(field("card_rarity", ""));
    out.push(field("lands", "1"));
    proof {
        assert(out.deep_view() =~= form_of(word@, page, board));
    }
    Ok(out)
}

} // verus!
