use staple_checklist::card::{Card, Color};
use staple_checklist::checklist::{Checklist, ChecklistCard};
use staple_checklist::staples::{Metadata, Percent};
use staple_checklist::stats::{
    accepts, calculate, classify, read_len, summarize, top, Bucket, Filter, Progress,
};

fn entry(name: &str, colors: Option<Vec<Color>>, type_line: &str, copies: u8, owned: usize, hundredths: u16) -> ChecklistCard {
    ChecklistCard {
        card: Card {
            id: 0,
            name: String::from(name),
            colors,
            card_faces: None,
            type_line: Some(String::from(type_line)),
            image_large: None,
            prints_search_uri: String::new(),
        },
        printings: vec![],
        owned_versions: vec![String::from("set"); owned],
        metadata: Metadata { percent_in_decks: Percent { hundredths }, num_copies: copies },
    }
}

fn plain(colors: Option<Vec<Color>>, type_line: &str) -> ChecklistCard {
    entry("card", colors, type_line, 4, 1, 5000)
}

const ALL: [Color; 5] = [Color::White, Color::Blue, Color::Black, Color::Red, Color::Green];

fn full_quota() -> Vec<ChecklistCard> {
    let mut list = Vec::new();
    for _ in 0..20 {
        for c in ALL {
            list.push(plain(Some(vec![c]), "Instant"));
        }
        list.push(plain(None, "Artifact"));
    }
    for _ in 0..10 {
        list.push(plain(Some(vec![Color::White, Color::Green]), "Creature"));
    }
    list
}

#[test]
fn each_card_has_one_group() {
    assert_eq!(classify(&plain(Some(vec![Color::Red]), "Land").card), Bucket::Land);
    assert_eq!(classify(&plain(None, "Basic Land").card), Bucket::Land);
    assert_eq!(classify(&plain(None, "Artifact").card), Bucket::Colorless);
    assert_eq!(classify(&plain(Some(vec![]), "Artifact").card), Bucket::Colorless);
    for c in ALL {
        assert_eq!(classify(&plain(Some(vec![c]), "Instant").card), Bucket::Mono(c));
    }
    assert_eq!(classify(&plain(Some(vec![Color::Red, Color::Red]), "Instant").card), Bucket::Multicolor);
    let mut no_type = plain(Some(vec![Color::Blue]), "");
    no_type.card.type_line = None;
    assert_eq!(classify(&no_type.card), Bucket::Mono(Color::Blue));
}

#[test]
fn reading_stops_once_the_quota_is_met() {
    let mut list = full_quota();
    assert_eq!(list.len(), 130);
    assert_eq!(read_len(&list), 130);
    list.push(plain(Some(vec![Color::Red]), "Instant"));
    list.push(plain(None, "Land"));
    assert_eq!(read_len(&list), 130);
    let all = summarize(&list);
    assert_eq!(all.top_150, Progress { owned: 130, total: 520 });
}

#[test]
fn lands_do_not_count_towards_the_quota() {
    let mut list = Vec::new();
    for _ in 0..50 {
        list.push(plain(None, "Land"));
    }
    list.extend(full_quota());
    list.push(plain(Some(vec![Color::Red]), "Instant"));
    assert_eq!(read_len(&list), 180);
    let mut short = full_quota();
    short.pop();
    for _ in 0..50 {
        short.push(plain(Some(vec![Color::Green, Color::Blue]), "Land"));
    }
    assert_eq!(read_len(&short), 179);
    short.push(plain(Some(vec![Color::Green, Color::Blue]), "Sorcery"));
    short.push(plain(Some(vec![Color::Green, Color::Blue]), "Sorcery"));
    assert_eq!(read_len(&short), 180);
}

#[test]
fn without_the_quota_everything_is_read() {
    assert_eq!(read_len(&Vec::<ChecklistCard>::new()), 0);
    let list = vec![plain(None, "Artifact"), plain(None, "Land"), plain(Some(vec![Color::Red]), "Instant")];
    assert_eq!(read_len(&list), 3);
}

#[test]
fn what_a_figure_speaks_of() {
    let red_land = plain(Some(vec![Color::Red]), "Land").card;
    assert!(accepts(Filter::All, &red_land));
    assert!(accepts(Filter::Mono(Color::Red), &red_land));
    assert!(!accepts(Filter::Mono(Color::Blue), &red_land));
    assert!(accepts(Filter::Land, &red_land));
    assert!(!accepts(Filter::Colorless, &red_land));
    assert!(!accepts(Filter::Multicolor, &red_land));
    let none = plain(None, "Artifact").card;
    assert!(accepts(Filter::Colorless, &none));
    assert!(!accepts(Filter::Mono(Color::White), &none));
    assert!(!accepts(Filter::Multicolor, &none));
    assert!(!accepts(Filter::Land, &none));
    assert!(accepts(Filter::Colorless, &plain(Some(vec![]), "Artifact").card));
    let two = plain(Some(vec![Color::Red, Color::Blue]), "Instant").card;
    assert!(accepts(Filter::Multicolor, &two));
    assert!(!accepts(Filter::Mono(Color::Red), &two));
}

#[test]
fn owned_copies_count_up_to_the_copies_played() {
    let list = vec![
        entry("a", Some(vec![Color::Red]), "Instant", 4, 6, 9000),
        entry("b", Some(vec![Color::Blue]), "Instant", 3, 1, 8000),
        entry("c", Some(vec![Color::Red]), "Instant", 2, 0, 7000),
        entry("d", Some(vec![Color::Red]), "Land", 255, 300, 6000),
    ];
    assert_eq!(top(&list, 4, 20, Filter::All), Progress { owned: 260, total: 264 });
    assert_eq!(top(&list, 4, 2, Filter::All), Progress { owned: 5, total: 7 });
    assert_eq!(top(&list, 4, 0, Filter::All), Progress { owned: 0, total: 0 });
    assert_eq!(top(&list, 3, 20, Filter::All), Progress { owned: 5, total: 9 });
    assert_eq!(top(&list, 0, 20, Filter::All), Progress { owned: 0, total: 0 });
    assert_eq!(top(&list, 4, 2, Filter::Mono(Color::Red)), Progress { owned: 4, total: 6 });
    assert_eq!(top(&list, 4, 257, Filter::Mono(Color::Red)), Progress { owned: 259, total: 261 });
    assert_eq!(top(&list, 4, 10, Filter::Land), Progress { owned: 255, total: 255 });
}

#[test]
fn the_most_copies_that_can_be_summed() {
    let mut list = Vec::new();
    for _ in 0..300 {
        list.push(entry("a", None, "Artifact", 255, 255, 9000));
    }
    assert_eq!(top(&list, 300, 257, Filter::All), Progress { owned: 65535, total: 65535 });
}

#[test]
fn the_figures_of_a_checklist() {
    let list = Checklist::from_entries(vec![
        entry("owned", Some(vec![Color::Red]), "Instant", 4, 4, 3000),
        entry("wanted", Some(vec![Color::Red]), "Instant", 4, 0, 2000),
        entry("both", Some(vec![Color::Red, Color::Green]), "Creature", 2, 1, 9000),
        entry("land", None, "Land", 4, 2, 1000),
        entry("rock", None, "Artifact", 1, 1, 500),
    ]);
    assert_eq!(list.get(0).unwrap().card.name, "both");
    assert_eq!(list.get(1).unwrap().card.name, "wanted");
    let stats = calculate(&list);
    assert_eq!(stats.top_20, Progress { owned: 8, total: 15 });
    assert_eq!(stats.top_50, stats.top_20);
    assert_eq!(stats.top_150, stats.top_20);
    assert_eq!(stats.top_20_by_color[0], Progress { owned: 0, total: 0 });
    assert_eq!(stats.top_20_by_color[3], Progress { owned: 4, total: 8 });
    assert_eq!(stats.top_20_by_color[4], Progress { owned: 0, total: 0 });
    assert_eq!(stats.top_10_colorless, Progress { owned: 3, total: 5 });
    assert_eq!(stats.top_20_multicolor, Progress { owned: 1, total: 2 });
    assert_eq!(stats.top_10_lands, Progress { owned: 2, total: 4 });
}

#[test]
fn only_the_top_of_a_long_list_is_summed() {
    let mut entries = Vec::new();
    for i in 0..60u16 {
        entries.push(entry("card", Some(vec![Color::Blue]), "Instant", 1, usize::from(i % 2), 9000 - i));
    }
    let stats = calculate(&Checklist::from_entries(entries));
    assert_eq!(stats.top_20, Progress { owned: 10, total: 20 });
    assert_eq!(stats.top_50, Progress { owned: 25, total: 50 });
    assert_eq!(stats.top_150, Progress { owned: 30, total: 60 });
    assert_eq!(stats.top_20_by_color[1], Progress { owned: 10, total: 20 });
}
