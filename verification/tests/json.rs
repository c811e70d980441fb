use namegen::builder::compute_transitions_map;
use namegen::error::TableError;
use namegen::json::read_map_from_resource;
use namegen::sampler::generate_name;
use namegen::table::TransitionTable;
use rand::rngs::StdRng;
use rand::SeedableRng;
use std::collections::HashMap;

fn lines(words: &[&str]) -> Vec<String> {
    words.iter().map(|w| w.to_string()).collect()
}

fn chars(word: &str) -> Vec<char> {
    word.chars().collect()
}

fn to_json(table: &TransitionTable) -> String {
    let map: HashMap<String, HashMap<char, u64>> = table
        .to_entries()
        .into_iter()
        .map(|(context, nexts)| (context, nexts.into_iter().collect()))
        .collect();
    serde_json::to_string(&map).unwrap()
}

fn is_malformed(text: &str) -> bool {
    matches!(read_map_from_resource(text), Err(TableError::Malformed(_)))
}

#[test]
fn reads_a_table() {
    let text = "{\"a\": {\"n\": 2}, \"an\": {\"n\": 1, \"a\": 1}, \"ann\": {\"\\u0000\": 1}, \"ana\": {\"\\u0000\": 1}}";
    let table = read_map_from_resource(text).unwrap();
    assert_eq!(table, compute_transitions_map(&lines(&["ann", "ana"])));
    assert_eq!(table.count(&chars("a"), 'n'), 2);
    assert_eq!(table.count(&chars("ann"), '\0'), 1);
}

#[test]
fn reads_the_empty_table() {
    let table = read_map_from_resource("{}").unwrap();
    assert_eq!(table, TransitionTable::new());
    assert_eq!(table.len(), 0);
}

#[test]
fn round_trip() {
    let table = compute_transitions_map(&lines(&[
        "anna", "hannah", "bob", "barbara", "żółw", "mississippi", "ab",
    ]));
    let text = to_json(&table);
    let back = read_map_from_resource(&text).unwrap();
    assert_eq!(back, table);
    assert_eq!(back.to_entries(), table.to_entries());
    assert_eq!(to_json(&back).len(), text.len());
}

#[test]
fn round_trip_of_the_empty_table() {
    let table = TransitionTable::new();
    assert_eq!(read_map_from_resource(&to_json(&table)).unwrap(), table);
}

#[test]
fn sampling_is_the_same_after_a_round_trip() {
    let table = compute_transitions_map(&lines(&["anna", "hannah", "bob", "barbara", "banana"]));
    let back = read_map_from_resource(&to_json(&table)).unwrap();
    let mut first = StdRng::seed_from_u64(21);
    let mut second = StdRng::seed_from_u64(21);
    for _ in 0..100 {
        assert_eq!(
            generate_name(&table, &mut first, Some(1000)),
            generate_name(&back, &mut second, Some(1000))
        );
    }
}

#[test]
fn entries_round_trip() {
    let table = compute_transitions_map(&lines(&["anna", "hannah", "bob"]));
    let back = TransitionTable::from_entries(&table.to_entries()).unwrap();
    assert_eq!(back, table);
}

#[test]
fn refuses_what_is_no_table() {
    assert!(is_malformed(""));
    assert!(is_malformed("not json"));
    assert!(is_malformed("[]"));
    assert!(is_malformed("3"));
    assert!(is_malformed("{\"a\": 1}"));
    assert!(is_malformed("{\"a\": [1]}"));
    assert!(is_malformed("{\"a\": {\"b\": -1}}"));
    assert!(is_malformed("{\"a\": {\"b\": 1.5}}"));
    assert!(is_malformed("{\"a\": {\"b\": \"1\"}}"));
    assert!(is_malformed("{\"a\": {\"bc\": 1}}"));
    assert!(is_malformed("{\"a\": {\"\": 1}}"));
    assert!(is_malformed("{\"a\": {\"b\": 1}"));
    assert!(is_malformed("{\"a\": {\"b\": 18446744073709551616}}"));
}

#[test]
fn refuses_counts_that_do_not_fit() {
    assert!(is_malformed("{\"a\": {\"b\": 18446744073709551615, \"c\": 1}}"));
    assert!(is_malformed("{\"a\": {\"b\": 18446744073709551615}, \"b\": {\"c\": 1}}"));
    let full = read_map_from_resource("{\"a\": {\"b\": 18446744073709551615}}").unwrap();
    assert_eq!(full.count(&chars("a"), 'b'), u64::MAX);
    let with_zero =
        read_map_from_resource("{\"a\": {\"b\": 18446744073709551615, \"c\": 0}}").unwrap();
    assert_eq!(with_zero, full);
}

#[test]
fn counts_of_zero_count_for_nothing() {
    let table = read_map_from_resource("{\"a\": {\"b\": 0, \"c\": 2}, \"b\": {\"c\": 0}, \"c\": {}}")
        .unwrap();
    let expected: Vec<(String, Vec<(char, u64)>)> = vec![("a".to_string(), vec![('c', 2)])];
    assert_eq!(table.to_entries(), expected);
    assert_eq!(table.start_letters(), vec!['a']);
}

#[test]
fn contexts_of_any_length_are_read() {
    let table = read_map_from_resource("{\"\": {\"a\": 1}, \"abcd\": {\"e\": 3}}").unwrap();
    assert_eq!(table.len(), 2);
    assert_eq!(table.count(&chars("abcd"), 'e'), 3);
    assert_eq!(table.count(&chars(""), 'a'), 1);
    assert_eq!(table.start_letters(), Vec::<char>::new());
}

#[test]
fn from_entries_takes_rows_in_any_order_and_adds_repeats() {
    let entries: Vec<(String, Vec<(char, u64)>)> = vec![
        ("b".to_string(), vec![('z', 1), ('a', 2), ('z', 3)]),
        ("a".to_string(), vec![('x', 0), ('y', 4)]),
        ("b".to_string(), vec![('a', 5)]),
        ("c".to_string(), vec![]),
    ];
    let table = TransitionTable::from_entries(&entries).unwrap();
    let expected: Vec<(String, Vec<(char, u64)>)> = vec![
        ("a".to_string(), vec![('y', 4)]),
        ("b".to_string(), vec![('a', 7), ('z', 4)]),
    ];
    assert_eq!(table.to_entries(), expected);
}

#[test]
fn from_entries_refuses_counts_that_do_not_fit() {
    let entries: Vec<(String, Vec<(char, u64)>)> = vec![
        ("a".to_string(), vec![('x', u64::MAX - 1)]),
        ("b".to_string(), vec![('y', 1), ('z', 1)]),
    ];
    assert!(matches!(TransitionTable::from_entries(&entries), Err(TableError::Malformed(_))));
    let fits: Vec<(String, Vec<(char, u64)>)> = vec![
        ("a".to_string(), vec![('x', u64::MAX - 1)]),
        ("b".to_string(), vec![('y', 1), ('z', 0)]),
    ];
    assert!(TransitionTable::from_entries(&fits).is_ok());
}

#[test]
fn table_error_message() {
    assert_eq!(
        TableError::Malformed("no object".to_string()).message(),
        "malformed table: no object"
    );
    match read_map_from_resource("[]") {
        Err(e) => assert!(e.message().starts_with("malformed table: ")),
        Ok(_) => panic!("a list was read as a table"),
    }
}
