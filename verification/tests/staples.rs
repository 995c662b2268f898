use staple_checklist::card::Card;
use staple_checklist::decimal::{Decimal, Magnitude, Numeral};
use staple_checklist::staples::{
    cache_key, copies_from_numeral, fetch, first_word_of, parse_first_word, parse_percent_text,
    parse_percent_word, Metadata, Percent,
};

fn meta(hundredths: u16, num_copies: u8) -> Metadata {
    Metadata { percent_in_decks: Percent { hundredths }, num_copies }
}

fn card(id: u128, name: &str) -> Card {
    Card {
        id,
        name: String::from(name),
        colors: None,
        card_faces: None,
        type_line: None,
        image_large: None,
        prints_search_uri: String::new(),
    }
}

fn dec(whole: u64, hundredths: u8, rest_is_zero: bool) -> Numeral {
    Numeral { negative: false, magnitude: Magnitude::Finite(Decimal { whole, hundredths, rest_is_zero }) }
}

fn neg(n: Numeral) -> Numeral {
    Numeral { negative: true, magnitude: n.magnitude }
}

#[test]
fn missing_figures_are_those_of_an_unknown_staple() {
    assert_eq!(Metadata::new(None, None), meta(10000, 4));
    assert_eq!(Metadata::new(Some(Percent { hundredths: 123 }), None), meta(123, 4));
    assert_eq!(Metadata::new(None, Some(2)), meta(10000, 2));
    assert_eq!(Metadata::new(Some(Percent { hundredths: 0 }), Some(0)), meta(0, 0));
}

#[test]
fn a_share_is_read_in_hundredths() {
    let share = |d: Numeral| Percent::from_numeral(d).hundredths;
    assert_eq!(share(dec(45, 0, true)), 4500);
    assert_eq!(share(dec(12, 34, false)), 1234);
    assert_eq!(share(dec(99, 99, false)), 9999);
    assert_eq!(share(dec(0, 0, false)), 0);
    assert_eq!(share(dec(100, 0, true)), 10000);
}

#[test]
fn a_share_outside_is_kept_as_the_nearest_share() {
    let share = |d: Numeral| Percent::from_numeral(d).hundredths;
    assert_eq!(share(dec(100, 0, false)), 10000);
    assert_eq!(share(dec(100, 1, true)), 10000);
    assert_eq!(share(dec(101, 0, true)), 10000);
    assert_eq!(share(dec(u64::MAX, 99, false)), 10000);
    assert_eq!(share(neg(dec(0, 0, true))), 0);
    assert_eq!(share(neg(dec(0, 1, true))), 0);
    assert_eq!(share(neg(dec(50, 0, true))), 0);
    assert_eq!(share(neg(dec(500, 0, true))), 0);
    assert_eq!(share(Numeral { negative: false, magnitude: Magnitude::Infinite }), 10000);
    assert_eq!(share(Numeral { negative: true, magnitude: Magnitude::Infinite }), 0);
    assert_eq!(share(Numeral { negative: false, magnitude: Magnitude::Nan }), 10000);
    assert_eq!(share(Numeral { negative: true, magnitude: Magnitude::Nan }), 0);
}

#[test]
fn copies_are_rounded_up() {
    assert_eq!(copies_from_numeral(dec(3, 20, true)), 4);
    assert_eq!(copies_from_numeral(dec(4, 0, true)), 4);
    assert_eq!(copies_from_numeral(dec(4, 0, false)), 5);
    assert_eq!(copies_from_numeral(dec(0, 0, true)), 0);
    assert_eq!(copies_from_numeral(dec(0, 1, true)), 1);
    assert_eq!(copies_from_numeral(dec(254, 50, true)), 255);
    assert_eq!(copies_from_numeral(dec(255, 0, true)), 255);
    assert_eq!(copies_from_numeral(dec(255, 50, true)), 255);
    assert_eq!(copies_from_numeral(dec(u64::MAX, 99, false)), 255);
}

#[test]
fn copies_below_zero_and_of_no_number_are_none() {
    assert_eq!(copies_from_numeral(neg(dec(0, 50, true))), 0);
    assert_eq!(copies_from_numeral(neg(dec(3, 0, true))), 0);
    assert_eq!(copies_from_numeral(neg(dec(u64::MAX, 0, true))), 0);
    assert_eq!(copies_from_numeral(Numeral { negative: false, magnitude: Magnitude::Infinite }), 255);
    assert_eq!(copies_from_numeral(Numeral { negative: true, magnitude: Magnitude::Infinite }), 0);
    assert_eq!(copies_from_numeral(Numeral { negative: false, magnitude: Magnitude::Nan }), 0);
    assert_eq!(copies_from_numeral(Numeral { negative: true, magnitude: Magnitude::Nan }), 0);
}

#[test]
fn figures_from_numerals() {
    assert_eq!(Metadata::of_figures(Some(dec(62, 50, true)), Some(dec(3, 90, true))), meta(6250, 4));
    assert_eq!(Metadata::of_figures(Some(dec(162, 50, true)), None), meta(10000, 4));
    assert_eq!(Metadata::of_figures(None, Some(dec(1, 0, true))), meta(10000, 1));
}

#[test]
fn the_first_word_is_the_numeral() {
    assert_eq!(parse_first_word(" 62.5 % of decks"), Some(dec(62, 50, true)));
    assert_eq!(parse_first_word("3.9"), Some(dec(3, 90, true)));
    assert_eq!(parse_first_word("4x"), None);
    assert_eq!(parse_first_word("   "), None);
    assert_eq!(parse_first_word(""), None);
    assert_eq!(parse_first_word("about 3"), None);
}

#[test]
fn the_first_word_of_a_share_may_end_in_percent_signs() {
    assert_eq!(parse_percent_word("62.5%"), Some(dec(62, 50, true)));
    assert_eq!(parse_percent_word(" 62.5 % of decks"), Some(dec(62, 50, true)));
    assert_eq!(parse_percent_word("5%"), Some(dec(5, 0, true)));
    assert_eq!(parse_percent_word("5%% more"), Some(dec(5, 0, true)));
    assert_eq!(parse_percent_word("5"), Some(dec(5, 0, true)));
    assert_eq!(parse_percent_word("% 5"), None);
    assert_eq!(parse_percent_word("%5"), None);
    assert_eq!(parse_percent_word(""), None);
    assert_eq!(first_word_of("  62.5%\tof"), "62.5%");
    assert_eq!(first_word_of("   "), "");
}

#[test]
fn percent_signs_at_the_end_are_left_out() {
    assert_eq!(parse_percent_text("45%"), Some(dec(45, 0, true)));
    assert_eq!(parse_percent_text("45"), Some(dec(45, 0, true)));
    assert_eq!(parse_percent_text("12.5%%"), Some(dec(12, 50, true)));
    assert_eq!(parse_percent_text("%"), None);
    assert_eq!(parse_percent_text("45 %"), None);
    assert_eq!(parse_percent_text("%45"), None);
}

#[test]
fn two_sources_with_one_card_keep_the_larger_share() {
    let top8 = vec![(card(7, "X"), Some(meta(6000, 4)))];
    let goldfish = vec![(card(7, "X"), Some(meta(9500, 3)))];
    assert_eq!(fetch(top8, goldfish), vec![(card(7, "X"), Some(meta(9500, 3)))]);
    let top8 = vec![(card(7, "X"), Some(meta(9500, 3)))];
    let goldfish = vec![(card(7, "X"), Some(meta(6000, 4)))];
    assert_eq!(fetch(top8, goldfish), vec![(card(7, "X"), Some(meta(9500, 3)))]);
}

#[test]
fn figures_go_before_none() {
    let top8 = vec![(card(7, "X"), None), (card(7, "X"), Some(meta(0, 1))), (card(7, "X"), None)];
    assert_eq!(fetch(top8, vec![]), vec![(card(7, "X"), Some(meta(0, 1)))]);
    assert_eq!(fetch(vec![(card(7, "X"), None)], vec![(card(7, "X"), None)]), vec![(card(7, "X"), None)]);
}

#[test]
fn merged_staples_stand_by_identifier() {
    let top8 = vec![
        (card(30, "C"), Some(meta(100, 4))),
        (card(10, "A"), Some(meta(200, 4))),
        (card(30, "C"), Some(meta(300, 2))),
    ];
    let goldfish = vec![
        (card(20, "B"), None),
        (card(10, "A"), Some(meta(150, 1))),
        (card(u128::MAX, "Z"), Some(meta(1, 1))),
        (card(0, "0"), Some(meta(2, 2))),
    ];
    assert_eq!(
        fetch(top8, goldfish),
        vec![
            (card(0, "0"), Some(meta(2, 2))),
            (card(10, "A"), Some(meta(200, 4))),
            (card(20, "B"), None),
            (card(30, "C"), Some(meta(300, 2))),
            (card(u128::MAX, "Z"), Some(meta(1, 1))),
        ]
    );
    assert_eq!(fetch(vec![], vec![]), vec![]);
}

#[test]
fn a_card_is_kept_under_its_front_face_and_accented_name() {
    assert_eq!(cache_key("Fire // Ice"), "Fire");
    assert_eq!(cache_key("Lorien Revealed"), "L\u{f3}rien Revealed");
    assert_eq!(cache_key("L\u{f3}rien Revealed"), "L\u{f3}rien Revealed");
    assert_eq!(cache_key("Lightning Bolt"), "Lightning Bolt");
    assert_eq!(cache_key("Lorien Revealed // X"), "L\u{f3}rien Revealed");
    assert_eq!(cache_key("Troll of Khazad-dum /"), "Troll of Khazad-d\u{fb}m");
    for name in ["Fire // Ice", "Lorien Revealed // X", "Lorien Revealed", " a / b / c", "/", ""] {
        let key = cache_key(name);
        assert_eq!(cache_key(&key), key);
    }
}
