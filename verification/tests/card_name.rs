use staple_checklist::card_name::{
    fix_lotr_accented_cards, normalized, trim_if_double_faced, CName, CardName,
};

#[test]
fn double_faced_name_is_cut_to_its_front() {
    assert_eq!(trim_if_double_faced("Fire // Ice"), Some("Fire"));
    assert_eq!(trim_if_double_faced("Lightning Bolt"), None);
    assert_eq!(trim_if_double_faced("/"), Some(""));
    assert_eq!(trim_if_double_faced("  A  /B/C"), Some("A"));
}

#[test]
fn both_spellings_give_one_key() {
    let plain = CardName::from(String::from("Lorien Revealed"));
    let accented = CardName::from(String::from("L\u{f3}rien Revealed"));
    assert_eq!(plain, accented);
    assert_eq!(plain.as_str(), "L\u{f3}rien Revealed");
    assert_eq!(fix_lotr_accented_cards("Troll of Khazad-dum"), Some("Troll of Khazad-d\u{fb}m"));
    assert_eq!(fix_lotr_accented_cards("Troll"), None);
    assert_eq!(CName::from("Lorien Revealed").as_str(), "L\u{f3}rien Revealed");
}

#[test]
fn fire_and_ice_normalizes_to_fire() {
    let name = CardName::from(String::from("Fire // Ice")).trimming_double_faced();
    assert_eq!(name.as_str(), "Fire");
    assert_eq!(CName::from("Fire // Ice").trimming_double_faced().as_str(), "Fire");
    assert_eq!(name.as_slice().as_str(), "Fire");
}

#[test]
fn the_front_face_is_spelled_with_its_accents() {
    let name = CardName::from(String::from("Lorien Revealed // X")).trimming_double_faced();
    assert_eq!(name.as_str(), "L\u{f3}rien Revealed");
    assert_eq!(CName::from("Lorien Revealed // X").trimming_double_faced().as_str(), "L\u{f3}rien Revealed");
    assert_eq!(CName::from("Lorien Revealed").trimming_double_faced().as_str(), "L\u{f3}rien Revealed");
    assert_eq!(normalized(" Troll of Khazad-dum / x"), "Troll of Khazad-d\u{fb}m");
    assert_eq!(normalized("Lightning Bolt"), "Lightning Bolt");
    assert_eq!(normalized("Fire // Ice"), "Fire");
    for name in ["Fire // Ice", "Lorien Revealed // X", "Lorien Revealed", "/", "", "a/b/c"] {
        assert_eq!(normalized(normalized(name)), normalized(name));
    }
}
