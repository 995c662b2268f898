use staple_checklist::card::Card;
use staple_checklist::format::Format;
use staple_checklist::staples::goldfish;
use staple_checklist::staples::mtgtop8::{self, Board};
use staple_checklist::staples::{Metadata, PageError, Percent, Unsupported};

fn meta(hundredths: u16, num_copies: u8) -> Metadata {
    Metadata { percent_in_decks: Percent { hundredths }, num_copies }
}

fn card(id: u128, name: &str) -> Card {
    Card {
        id,
        name: String::from(name),
        colors: None,
        card_faces: None,
        type_line: None,
        image_large: None,
        prints_search_uri: String::new(),
    }
}

const TABLE_PAGE: &str = "<html><body><h1>Staples</h1>
<table>
 <thead><tr><th>#</th><th>Card</th><th>% of Decks</th><th># Played</th></tr></thead>
 <tbody>
  <tr><td> 1 </td><td><a href=\"/x\">Lightning Bolt</a></td><td> 45% </td><td>3.2</td></tr>
  <tr><td>2</td><td>Lorien Revealed</td><td>n/a</td><td></td></tr>
  <tr><td>3</td><td>Counterspell</td><td>12.5%%</td><td>4</td></tr>
 </tbody>
</table>
<table><tr><td>9</td><td>Not A Staple</td><td>1%</td><td>1</td></tr></table>
</body></html>";

#[test]
fn the_first_table_is_read_without_its_head() {
    let found = goldfish::scrape(TABLE_PAGE).unwrap().unwrap();
    let got: Vec<(String, Metadata)> = found.iter().map(|(n, m)| (n.to_text(), *m)).collect();
    assert_eq!(
        got,
        vec![
            (String::from("Lightning Bolt"), meta(4500, 4)),
            (String::from("L\u{f3}rien Revealed"), meta(10000, 4)),
            (String::from("Counterspell"), meta(1250, 4)),
        ]
    );
}

#[test]
fn a_page_without_a_table_gives_no_rows_and_no_error() {
    assert!(matches!(goldfish::scrape("<html><body><p>down for maintenance</p></body></html>"), Ok(None)));
    assert!(matches!(goldfish::scrape(""), Ok(None)));
}

#[test]
fn an_empty_table_gives_an_empty_list() {
    let found = goldfish::scrape("<table><thead><tr><th>Card</th></tr></thead></table>").unwrap().unwrap();
    assert!(found.is_empty());
}

#[test]
fn a_row_without_a_name_is_an_error() {
    let page = "<table><tbody><tr><td>1</td></tr></tbody></table>";
    assert!(matches!(goldfish::scrape(page), Err(PageError::NamelessRow)));
}

#[test]
fn the_pages_of_a_format() {
    let urls = goldfish::urls_from_format(Format::Pauper).unwrap();
    assert_eq!(urls[0], "https://www.mtggoldfish.com/format-staples/pauper/full/creatures");
    assert_eq!(urls[1], "https://www.mtggoldfish.com/format-staples/pauper/full/spells");
    assert_eq!(urls[2], "https://www.mtggoldfish.com/format-staples/pauper/full/lands");
    let urls = goldfish::urls_from_format(Format::Standard).unwrap();
    assert_eq!(urls[2], "https://www.mtggoldfish.com/format-staples/standard/full/lands");
    assert_eq!(goldfish::urls_from_format(Format::Modern), Err(Unsupported { format: Format::Modern }));
}

#[test]
fn the_staples_of_the_pages_are_gathered_in_order() {
    let pages = vec![
        vec![(card(1, "A"), meta(100, 1)), (card(2, "B"), meta(200, 2))],
        vec![],
        vec![(card(1, "A"), meta(300, 3))],
    ];
    let got = goldfish::fetch(pages);
    assert_eq!(
        got,
        vec![
            (card(1, "A"), Some(meta(100, 1))),
            (card(2, "B"), Some(meta(200, 2))),
            (card(1, "A"), Some(meta(300, 3))),
        ]
    );
}

const CELL_PAGE: &str = "<html><body><table>
<tr><td class=\"L14\"><span>Brain</span>storm</td><td class=\"L14\"> 62.5 %</td><td class=\"L14\">3.9</td></tr>
<tr><td class=\"S14\">ignored</td></tr>
<tr><td class=\"L14\">Troll of Khazad-dum</td><td class=\"L14\">100 %</td><td class=\"L14\">4.0</td></tr>
<tr><td class=\"L14\">Ponder</td><td class=\"L14\"><b></b></td><td class=\"L14\">many</td></tr>
</table></body></html>";

#[test]
fn cells_are_read_in_runs_of_three() {
    let found = mtgtop8::scrape_page(CELL_PAGE).unwrap();
    let got: Vec<(String, Metadata)> = found.iter().map(|(n, m)| (n.to_text(), *m)).collect();
    assert_eq!(
        got,
        vec![
            (String::from("Brainstorm"), meta(6250, 4)),
            (String::from("Troll of Khazad-d\u{fb}m"), meta(10000, 4)),
            (String::from("Ponder"), meta(10000, 4)),
        ]
    );
}

#[test]
fn cells_that_do_not_come_in_threes_are_an_error() {
    let page = "<table><tr><td class=\"L14\">Ponder</td><td class=\"L14\">10 %</td></tr></table>";
    assert!(matches!(mtgtop8::scrape_page(page), Err(PageError::LooseCells)));
    assert!(matches!(mtgtop8::fetch(&vec![String::from(CELL_PAGE), String::from(page)]), Err(PageError::LooseCells)));
}

#[test]
fn a_page_without_cells_gives_no_staples() {
    assert!(mtgtop8::scrape_page("<p>nothing</p>").unwrap().is_empty());
}

#[test]
fn the_staples_of_all_pages_follow_each_other() {
    let pages = vec![String::from(CELL_PAGE), String::from("<p></p>"), String::from(CELL_PAGE)];
    let found = mtgtop8::fetch(&pages).unwrap();
    let names: Vec<String> = found.iter().map(|(n, _)| n.to_text()).collect();
    assert_eq!(names, ["Brainstorm", "Troll of Khazad-d\u{fb}m", "Ponder", "Brainstorm", "Troll of Khazad-d\u{fb}m", "Ponder"]);
}

#[test]
fn cells_given_directly() {
    let cells = vec![
        vec![String::from("Fire "), String::from("// Ice")],
        vec![String::from("\n 7.259 % of decks")],
        vec![],
    ];
    let found = mtgtop8::cards_from_cells(&cells);
    assert_eq!(found.len(), 1);
    assert_eq!(found[0].0.as_str(), "Fire // Ice");
    assert_eq!(found[0].1, meta(725, 4));
}

#[test]
fn a_share_with_its_percent_sign_is_read() {
    let page = "<table><tr><td class=\"L14\">Ponder</td><td class=\"L14\">5%</td><td class=\"L14\">4</td></tr>
<tr><td class=\"L14\">Preordain</td><td class=\"L14\">12.5% </td><td class=\"L14\">2.1%</td></tr></table>";
    let found = mtgtop8::fetch(&vec![String::from(page)]).unwrap();
    let got: Vec<(String, Metadata)> = found.iter().map(|(n, m)| (n.to_text(), *m)).collect();
    assert_eq!(
        got,
        vec![(String::from("Ponder"), meta(500, 4)), (String::from("Preordain"), meta(1250, 4))]
    );
}

#[test]
fn figures_are_read_the_way_floats_are() {
    let row = |share: &str, copies: &str| {
        format!(
            "<tr><td class=\"L14\">Ponder</td><td class=\"L14\">{}</td><td class=\"L14\">{}</td></tr>",
            share, copies
        )
    };
    let cases = [
        ("5%", "1e1", meta(500, 10)),
        ("5e-1 %", "-1", meta(50, 0)),
        ("-5%", "inf", meta(0, 255)),
        ("250%", "nan", meta(10000, 0)),
        ("inf", "-inf", meta(10000, 0)),
        ("NaN%", "2.5E-1", meta(10000, 1)),
        ("1e2", "1e3", meta(10000, 255)),
        ("x", "y", meta(10000, 4)),
    ];
    for (share, copies, want) in cases {
        let page = format!("<table>{}</table>", row(share, copies));
        let found = mtgtop8::fetch(&vec![page]).unwrap();
        assert_eq!(found.len(), 1);
        assert_eq!(found[0].1, want, "{:?} {:?}", share, copies);
    }
    let table = "<table><tbody><tr><td>1</td><td>Ponder</td><td>1.25e1%</td><td>1e1</td></tr>
<tr><td>2</td><td>Brainstorm</td><td>-3%</td><td>-0.5</td></tr></tbody></table>";
    let found = goldfish::scrape(table).unwrap().unwrap();
    assert_eq!(found[0].1, meta(1250, 10));
    assert_eq!(found[1].1, meta(0, 0));
}

#[test]
fn thirty_two_pages_are_asked_for() {
    let plan = mtgtop8::requests();
    assert_eq!(plan.len(), 32);
    for i in 0..16u8 {
        assert_eq!(plan[usize::from(i)], (i + 1, Board::Md));
        assert_eq!(plan[16 + usize::from(i)], (i + 1, Board::Sb));
    }
}

#[test]
fn the_word_for_a_format() {
    assert_eq!(mtgtop8::format_to_form_param(Format::Pauper), Ok("PAU"));
    assert_eq!(mtgtop8::format_to_form_param(Format::Legacy), Ok("LE"));
    assert_eq!(mtgtop8::format_to_form_param(Format::Pioneer), Ok("PI"));
    assert_eq!(
        mtgtop8::format_to_form_param(Format::Standard),
        Err(Unsupported { format: Format::Standard })
    );
}
