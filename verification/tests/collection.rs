use staple_checklist::card_name::{CName, CardName};
use staple_checklist::collection::{add_to_collection, del_from_collection, load, position, Collection};

fn codes(list: &[&str]) -> Vec<String> {
    list.iter().map(|c| String::from(*c)).collect()
}

#[test]
fn a_missing_file_is_an_empty_collection() {
    let collection = load(None);
    assert!(collection.get(&CName::from("Forest")).is_empty());
    assert_eq!(collection.count(&CName::from("Forest")), 0);
    assert_eq!(Collection::new().count(&CName::from("Forest")), 0);
}

#[test]
fn cards_are_found_under_their_front_face() {
    let collection = load(Some(vec![
        (String::from("Fire"), codes(&["apc", "mh2"])),
        (String::from("L\u{f3}rien Revealed"), codes(&["ltr"])),
    ]));
    assert_eq!(collection.get(&CName::from("Fire // Ice")), codes(&["apc", "mh2"]).as_slice());
    assert_eq!(collection.get(&CName::from("Fire")), codes(&["apc", "mh2"]).as_slice());
    assert_eq!(collection.count(&CName::from("Lorien Revealed")), 1);
    assert!(collection.get(&CName::from("Ice")).is_empty());
}

#[test]
fn copies_are_added_and_taken_out() {
    let mut collection = Collection::new();
    add_to_collection(&mut collection, CardName::from(String::from("Fire // Ice")), String::from("apc"));
    add_to_collection(&mut collection, CardName::from(String::from("Fire")), String::from("mh2"));
    add_to_collection(&mut collection, CardName::from(String::from("Fire")), String::from("apc"));
    assert_eq!(collection.get(&CName::from("Fire")), codes(&["apc", "mh2", "apc"]).as_slice());
    assert!(!del_from_collection(&mut collection, CardName::from(String::from("Fire")), "xxx"));
    assert!(!del_from_collection(&mut collection, CardName::from(String::from("Ice")), "apc"));
    assert!(del_from_collection(&mut collection, CardName::from(String::from("Fire // Ice")), "apc"));
    assert_eq!(collection.get(&CName::from("Fire")), codes(&["mh2", "apc"]).as_slice());
    assert!(del_from_collection(&mut collection, CardName::from(String::from("Fire")), "apc"));
    assert!(del_from_collection(&mut collection, CardName::from(String::from("Fire")), "mh2"));
    assert_eq!(collection.get(&CName::from("Fire")), codes(&[]).as_slice());
    assert!(!del_from_collection(&mut collection, CardName::from(String::from("Fire")), "mh2"));
}

#[test]
fn the_first_place_of_a_code() {
    let list = codes(&["a", "b", "a"]);
    assert_eq!(position(&list, "a"), Some(0));
    assert_eq!(position(&list, "b"), Some(1));
    assert_eq!(position(&list, "c"), None);
    assert_eq!(position(&Vec::new(), "a"), None);
}

fn held(collection: &Collection) -> Vec<(String, Vec<String>)> {
    let mut rows = Vec::new();
    for i in 0..collection.0.len() {
        let mut list = collection.0.value_at(i).clone();
        list.sort();
        rows.push((String::from(collection.0.name_at(i)), list));
    }
    rows.sort();
    rows
}

#[test]
fn a_copy_filed_and_struck_leaves_what_was_there() {
    for name in ["Lorien Revealed", "Lorien Revealed // X", "L\u{f3}rien Revealed", "Fire // Ice", "Fire"] {
        let mut collection = load(Some(vec![
            (String::from("Fire"), codes(&["apc", "mh2", "apc"])),
            (String::from("L\u{f3}rien Revealed"), codes(&["ltr"])),
            (String::from("Lorien Revealed"), codes(&["old"])),
        ]));
        let before = held(&collection);
        for code in ["apc", "ltr", "new"] {
            let card = CardName::from(String::from(name)).trimming_double_faced();
            add_to_collection(&mut collection, card, String::from(code));
            assert_ne!(held(&collection), before);
            let card = CardName::from(String::from(name)).trimming_double_faced();
            assert!(del_from_collection(&mut collection, card, code));
            assert_eq!(held(&collection), before, "{} {}", name, code);
        }
        assert!(!del_from_collection(&mut collection, CardName::from(String::from(name)), "zzz"));
        assert_eq!(held(&collection), before);
    }
}

#[test]
fn a_copy_is_filed_under_the_accented_front_face() {
    let mut collection = Collection::new();
    let typed = CardName::from(String::from("Lorien Revealed // X"));
    add_to_collection(&mut collection, typed, String::from("ltr"));
    assert_eq!(held(&collection), vec![(String::from("L\u{f3}rien Revealed"), codes(&["ltr"]))]);
    assert_eq!(collection.count(&CName::from("Lorien Revealed")), 1);
    assert_eq!(collection.count(&CName::from("Lorien Revealed // Y")), 1);
    assert!(del_from_collection(&mut collection, CardName::from(String::from("Lorien Revealed")), "ltr"));
    assert_eq!(held(&collection), vec![(String::from("L\u{f3}rien Revealed"), codes(&[]))]);
}
