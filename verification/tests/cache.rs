use staple_checklist::cache::{Resolver, Todo, PERMITS};
use staple_checklist::table::Table;

#[test]
fn a_table_holds_what_was_put_in() {
    let mut table: Table<u32> = Table::new();
    assert_eq!(table.len(), 0);
    assert_eq!(table.get("a"), None);
    table.insert(String::from("a"), 1);
    table.insert(String::from("b"), 2);
    table.insert(String::from("a"), 3);
    assert_eq!(table.len(), 2);
    assert_eq!(table.get("a"), Some(&3));
    assert_eq!(table.get("b"), Some(&2));
    assert_eq!(table.get("A"), None);
    assert_eq!(table.name_at(0), "a");
    assert_eq!(table.value_at(0), &3);
    assert_eq!(table.name_at(1), "b");
    assert_eq!(table.remove("a"), Some(3));
    assert_eq!(table.remove("a"), None);
    assert_eq!(table.len(), 1);
    assert_eq!(table.get("b"), Some(&2));
}

#[test]
fn what_is_written_is_read_back() {
    let mut table: Table<Vec<String>> = Table::new();
    table.insert(String::from("K"), vec![String::from("V")]);
    table.insert(String::from("other"), vec![]);
    let rows = table.into_rows();
    assert_eq!(
        rows,
        vec![(String::from("K"), vec![String::from("V")]), (String::from("other"), vec![])]
    );
    let again = Table::from_rows(rows);
    assert_eq!(again.get("K"), Some(&vec![String::from("V")]));
    assert_eq!(again.get("other"), Some(&vec![]));
    assert_eq!(again.len(), 2);
}

#[test]
fn of_a_name_that_stands_twice_in_a_file_the_last_value_counts() {
    let rows = vec![(String::from("a"), 1), (String::from("b"), 2), (String::from("a"), 3)];
    let table = Table::from_rows(rows);
    assert_eq!(table.len(), 2);
    assert_eq!(table.get("a"), Some(&3));
    assert_eq!(table.get("b"), Some(&2));
}

#[test]
fn asking_twice_fetches_once() {
    let mut resolver: Resolver<String> = Resolver::load(vec![]);
    let mut fetches = 0;
    let mut answers = Vec::new();
    for _ in 0..2 {
        let known = resolver.lookup("K").cloned();
        let answer = match known {
            Some(v) => v,
            None => {
                assert!(resolver.try_begin_fetch());
                fetches += 1;
                let v = format!("fetched {}", fetches);
                resolver.finish_fetch(String::from("K"), v.clone());
                v
            }
        };
        answers.push(answer);
    }
    assert_eq!(fetches, 1);
    assert_eq!(answers, ["fetched 1", "fetched 1"]);
    assert_eq!(resolver.table().len(), 1);
}

#[test]
fn what_the_file_holds_is_not_fetched() {
    let resolver = Resolver::load(vec![(String::from("K"), 5)]);
    assert_eq!(resolver.lookup("K"), Some(&5));
    assert_eq!(resolver.lookup("L"), None);
}

#[test]
fn no_more_than_eight_fetches_run_at_a_time() {
    assert_eq!(PERMITS, 8);
    let mut resolver: Resolver<u8> = Resolver::new(Table::new());
    for _ in 0..8 {
        assert!(resolver.try_begin_fetch());
    }
    assert!(!resolver.try_begin_fetch());
    assert!(!resolver.try_begin_fetch());
    resolver.abandon_fetch();
    assert!(resolver.try_begin_fetch());
    assert!(!resolver.try_begin_fetch());
    resolver.finish_fetch(String::from("a"), 1);
    assert_eq!(resolver.lookup("a"), Some(&1));
    assert!(resolver.try_begin_fetch());
    assert!(!resolver.try_begin_fetch());
}

#[test]
fn the_fetches_that_run_are_counted() {
    let mut resolver: Resolver<u8> = Resolver::new(Table::new());
    assert_eq!(resolver.fetches_running(), 0);
    assert!(resolver.try_begin_fetch());
    assert!(resolver.try_begin_fetch());
    assert_eq!(resolver.fetches_running(), 2);
    resolver.finish_fetch(String::from("a"), 1);
    assert_eq!(resolver.fetches_running(), 1);
    resolver.abandon_fetch();
    assert_eq!(resolver.fetches_running(), 0);
    assert_eq!(resolver.lookup("a"), Some(&1));
    for _ in 0..8 {
        assert!(resolver.try_begin_fetch());
    }
    assert!(!resolver.try_begin_fetch());
    assert_eq!(resolver.fetches_running(), 8);
}

#[test]
fn what_is_known_comes_before_the_leave_to_fetch() {
    let mut resolver = Resolver::load(vec![(String::from("known"), 5u8)]);
    assert_eq!(resolver.ask("known"), Todo::Answer);
    assert_eq!(resolver.fetches_running(), 0);
    for n in 1..=8 {
        assert_eq!(resolver.ask("new"), Todo::Fetch);
        assert_eq!(resolver.fetches_running(), n);
    }
    assert_eq!(resolver.ask("new"), Todo::Wait);
    assert_eq!(resolver.ask("known"), Todo::Answer);
    assert_eq!(resolver.fetches_running(), 8);
    resolver.finish_fetch(String::from("new"), 6);
    assert_eq!(resolver.ask("new"), Todo::Answer);
    assert_eq!(resolver.ask("other"), Todo::Fetch);
    assert_eq!(resolver.ask("more"), Todo::Wait);
    resolver.abandon_fetch();
    assert_eq!(resolver.ask("more"), Todo::Fetch);
}
