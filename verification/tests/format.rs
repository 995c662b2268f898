use staple_checklist::format::{best_match, parse_format, pick_best, Format};

#[test]
fn a_format_is_found_by_its_name() {
    assert_eq!(parse_format("pauper"), Some(Format::Pauper));
    assert_eq!(parse_format("legacy"), Some(Format::Legacy));
    assert_eq!(parse_format("pioneer"), Some(Format::Pioneer));
}

#[test]
fn a_format_is_found_by_part_of_its_name() {
    assert_eq!(parse_format("leg"), Some(Format::Legacy));
    assert_eq!(parse_format("pau"), Some(Format::Pauper));
    assert_eq!(parse_format("pio"), Some(Format::Pioneer));
}

#[test]
fn a_path_is_no_format() {
    assert_eq!(parse_format("decks/burn.txt"), None);
    assert_eq!(parse_format("zzz"), None);
}

#[test]
fn nothing_typed_means_the_last_format() {
    assert_eq!(parse_format(""), Some(Format::Pioneer));
}

#[test]
fn the_last_of_the_best_scores_is_picked() {
    assert_eq!(pick_best(&vec![]), None);
    assert_eq!(pick_best(&vec![None, None]), None);
    assert_eq!(pick_best(&vec![Some(3), None, Some(3)]), Some(2));
    assert_eq!(pick_best(&vec![Some(5), Some(3), None]), Some(0));
    assert_eq!(pick_best(&vec![None, Some(-7)]), Some(1));
    assert_eq!(pick_best(&vec![Some(i64::MIN), Some(i64::MAX), Some(0)]), Some(1));
}

#[test]
fn the_best_matching_label_is_found() {
    let labels = vec![
        String::from("Lightning Bolt"),
        String::from("Counterspell"),
        String::from("Brainstorm"),
    ];
    assert_eq!(best_match(&labels, "brain"), Some(2));
    assert_eq!(best_match(&labels, "counter"), Some(1));
    assert_eq!(best_match(&labels, "qqq"), None);
    assert_eq!(best_match(&labels, ""), Some(2));
    assert_eq!(best_match(&Vec::new(), "bolt"), None);
}
