use staple_checklist::collection::load;
use staple_checklist::deckbuilder::{
    check, deck_from_rows, is_basic_land, load_from_web_page, parse_line, Decklist, Entry,
    InputError, Status,
};

fn lines(list: &[&str]) -> Vec<String> {
    list.iter().map(|c| String::from(*c)).collect()
}

fn owned() -> staple_checklist::collection::Collection {
    load(Some(vec![
        (String::from("Lightning Bolt"), lines(&["a25", "m11"])),
        (String::from("Fire"), lines(&["apc"])),
    ]))
}

#[test]
fn the_five_basic_lands() {
    for name in ["Plains", "Island", "Swamp", "Mountain", "Forest"] {
        assert!(is_basic_land(name));
    }
    for name in ["forest", "Forests", "Snow-Covered Forest", "", "Wastes", "Forest "] {
        assert!(!is_basic_land(name));
    }
}

#[test]
fn lines_of_a_deck_list() {
    assert_eq!(parse_line("4 Lightning Bolt"), Ok(Some((4, "Lightning Bolt"))));
    assert_eq!(parse_line("  4x   Lightning Bolt \n"), Ok(Some((4, "Lightning Bolt"))));
    assert_eq!(parse_line("12xx Fire // Ice"), Ok(Some((12, "Fire // Ice"))));
    assert_eq!(parse_line("+3\tForest"), Ok(Some((3, "Forest"))));
    assert_eq!(parse_line(""), Ok(None));
    assert_eq!(parse_line("   \n"), Ok(None));
    assert_eq!(parse_line("Deck"), Ok(None));
    assert_eq!(parse_line(" Sideboard\n"), Ok(None));
    assert_eq!(parse_line("Forest"), Err(()));
    assert_eq!(parse_line("four Forest"), Err(()));
    assert_eq!(parse_line("x Forest"), Err(()));
    assert_eq!(parse_line("256 Forest"), Err(()));
    assert_eq!(parse_line("-1 Forest"), Err(()));
    assert_eq!(parse_line("Deck list"), Err(()));
}

#[test]
fn a_deck_is_checked_against_the_collection() {
    let list = lines(&["Deck", "4 Lightning Bolt", "2 Fire // Ice", "20 Mountain", "", "Sideboard", "1x Lightning Bolt", "3 Counterspell"]);
    let deck = check(&list, owned()).unwrap();
    let sorted = deck.sorted();
    assert_eq!(
        sorted,
        vec![
            ("Counterspell", Entry { owned: 0, count: 3 }),
            ("Fire // Ice", Entry { owned: 1, count: 2 }),
            ("Lightning Bolt", Entry { owned: 2, count: 5 }),
            ("Mountain", Entry { owned: 20, count: 20 }),
        ]
    );
    let status: Vec<Status> = sorted.iter().map(|(_, e)| e.status()).collect();
    assert_eq!(status, [Status::Missing, Status::Partial, Status::Partial, Status::Complete]);
    let missing: Vec<u8> = sorted.iter().map(|(_, e)| e.missing_copies()).collect();
    assert_eq!(missing, [3, 1, 3, 0]);
}

#[test]
fn the_offending_line_is_named() {
    let list = lines(&["4 Lightning Bolt", "", "Lightning Bolt", "x"]);
    assert!(matches!(check(&list, owned()), Err(InputError::Malformed { line: 2 })));
    let list = lines(&["200 Forest", "Deck", "56 Forest"]);
    assert!(matches!(check(&list, owned()), Err(InputError::TooMany { line: 2 })));
    let list = lines(&["200 Forest", "55 Forest"]);
    assert_eq!(check(&list, owned()).unwrap().sorted(), vec![("Forest", Entry { owned: 200, count: 255 })]);
}

#[test]
fn more_owned_than_played_is_complete() {
    assert_eq!(Entry { owned: 4, count: 2 }.status(), Status::Complete);
    assert_eq!(Entry { owned: 4, count: 2 }.missing_copies(), 0);
    assert_eq!(Entry { owned: 0, count: 0 }.status(), Status::Complete);
    assert_eq!(Entry { owned: 0, count: 1 }.status(), Status::Missing);
    assert_eq!(Entry { owned: 1, count: 2 }.status(), Status::Partial);
}

#[test]
fn copies_are_added_one_note_at_a_time() {
    let mut deck = Decklist::new(owned());
    assert!(deck.add("Lightning Bolt", 3));
    assert!(deck.add("Lightning Bolt", 252));
    assert!(!deck.add("Lightning Bolt", 1));
    assert!(deck.add("Lightning Bolt", 0));
    assert_eq!(deck.sorted(), vec![("Lightning Bolt", Entry { owned: 2, count: 255 })]);
}

const DECK_PAGE: &str = "<html><body>
<div class=\"deck_line hover_tr\"> 4 <span>Lightning Bolt</span></div>
<div class=\"deck_line\">9 <span>Not A Line</span></div>
<div class=\"deck_line hover_tr\">2 <span> Fire // Ice </span> extra</div>
</body></html>";

#[test]
fn a_deck_is_read_from_a_web_page() {
    let deck = load_from_web_page(DECK_PAGE, owned()).unwrap();
    assert_eq!(
        deck.sorted(),
        vec![
            ("Fire // Ice", Entry { owned: 1, count: 2 }),
            ("Lightning Bolt", Entry { owned: 2, count: 4 }),
        ]
    );
    assert!(load_from_web_page("<p>none</p>", owned()).unwrap().sorted().is_empty());
}

#[test]
fn what_is_wrong_with_a_line_of_a_web_page() {
    let rows = vec![lines(&["4", "Bolt"]), lines(&[])];
    assert!(matches!(deck_from_rows(&rows, owned()), Err(InputError::EmptyLine { line: 1 })));
    let rows = vec![lines(&["four", "Bolt"])];
    assert!(matches!(deck_from_rows(&rows, owned()), Err(InputError::NotANumber { line: 0 })));
    let rows = vec![lines(&["4", "Bolt"]), lines(&["4", "Bolt"]), lines(&[" 4 "])];
    assert!(matches!(deck_from_rows(&rows, owned()), Err(InputError::NoName { line: 2 })));
    let rows = vec![lines(&["255", "Bolt"]), lines(&["1", "Bolt"])];
    assert!(matches!(deck_from_rows(&rows, owned()), Err(InputError::TooMany { line: 1 })));
    let page = "<div class=\"deck_line hover_tr\"><b>x</b></div>";
    assert!(matches!(load_from_web_page(page, owned()), Err(InputError::NotANumber { line: 0 })));
}

#[test]
fn no_more_than_255_copies_count_as_owned() {
    let many = load(Some(vec![
        (String::from("Relentless Rats"), vec![String::from("m10"); 300]),
        (String::from("Shadowborn Apostle"), vec![String::from("m14"); 255]),
        (String::from("L\u{f3}rien Revealed"), vec![String::from("ltr"); 254]),
    ]));
    let mut deck = Decklist::new(many);
    assert!(deck.add("Relentless Rats", 30));
    assert!(deck.add("Shadowborn Apostle", 30));
    assert!(deck.add("Lorien Revealed // X", 4));
    assert_eq!(
        deck.sorted(),
        vec![
            ("Lorien Revealed // X", Entry { owned: 254, count: 4 }),
            ("Relentless Rats", Entry { owned: 255, count: 30 }),
            ("Shadowborn Apostle", Entry { owned: 255, count: 30 }),
        ]
    );
}
