use namegen::builder::{compute_transitions_map, train};
use namegen::model::{SLICE_WINDOW_SIZE, TERMINATOR};
use namegen::table::TransitionTable;

fn lines(words: &[&str]) -> Vec<String> {
    words.iter().map(|w| w.to_string()).collect()
}

fn chars(word: &str) -> Vec<char> {
    word.chars().collect()
}

fn total(table: &TransitionTable) -> u64 {
    table
        .to_entries()
        .iter()
        .map(|(_, nexts)| nexts.iter().map(|(_, n)| *n).sum::<u64>())
        .sum()
}

#[test]
fn window_and_terminator_constants() {
    assert_eq!(SLICE_WINDOW_SIZE, 3);
    assert_eq!(TERMINATOR, '\0');
}

#[test]
fn example_ann_ana() {
    let table = compute_transitions_map(&lines(&["ann", "ana"]));
    let expected: Vec<(String, Vec<(char, u64)>)> = vec![
        ("a".to_string(), vec![('n', 2)]),
        ("an".to_string(), vec![('a', 1), ('n', 1)]),
        ("ana".to_string(), vec![('\0', 1)]),
        ("ann".to_string(), vec![('\0', 1)]),
    ];
    assert_eq!(table.to_entries(), expected);
    assert_eq!(table.len(), 4);
    assert_eq!(table.count(&chars("a"), 'n'), 2);
    assert_eq!(table.count(&chars("an"), 'n'), 1);
    assert_eq!(table.count(&chars("an"), 'a'), 1);
    assert_eq!(table.count(&chars("ann"), '\0'), 1);
    assert_eq!(table.count(&chars("ana"), '\0'), 1);
    assert_eq!(table.count(&chars("n"), 'n'), 0);
    assert_eq!(table.count(&chars("a"), 'a'), 0);
}

#[test]
fn no_training_strings_give_the_empty_table() {
    let table = compute_transitions_map(&Vec::new());
    assert_eq!(table.len(), 0);
    assert_eq!(table.to_entries(), Vec::new());
    assert_eq!(table, TransitionTable::new());
}

#[test]
fn strings_shorter_than_the_window_are_skipped() {
    let table = compute_transitions_map(&lines(&["", "a", "ab"]));
    assert_eq!(table.len(), 0);
    let mixed = compute_transitions_map(&lines(&["ab", "abc", "x"]));
    assert_eq!(mixed, compute_transitions_map(&lines(&["abc"])));
    assert_eq!(mixed.count(&chars("ab"), '\0'), 0);
    assert_eq!(mixed.count(&chars("ab"), 'c'), 1);
}

#[test]
fn a_string_of_window_length_is_counted() {
    let table = compute_transitions_map(&lines(&["abc"]));
    let expected: Vec<(String, Vec<(char, u64)>)> = vec![
        ("a".to_string(), vec![('b', 1)]),
        ("ab".to_string(), vec![('c', 1)]),
        ("abc".to_string(), vec![('\0', 1)]),
    ];
    assert_eq!(table.to_entries(), expected);
}

#[test]
fn contexts_slide_once_the_window_is_full() {
    let table = compute_transitions_map(&lines(&["abcde"]));
    let expected: Vec<(String, Vec<(char, u64)>)> = vec![
        ("a".to_string(), vec![('b', 1)]),
        ("ab".to_string(), vec![('c', 1)]),
        ("abc".to_string(), vec![('d', 1)]),
        ("bcd".to_string(), vec![('e', 1)]),
        ("cde".to_string(), vec![('\0', 1)]),
    ];
    assert_eq!(table.to_entries(), expected);
    assert_eq!(table.count(&chars("b"), 'c'), 0);
    assert_eq!(table.count(&chars("bc"), 'd'), 0);
}

#[test]
fn count_conservation() {
    for word in ["abc", "anna", "mississippi", "aaaaaaaaaa"] {
        let table = compute_transitions_map(&lines(&[word]));
        assert_eq!(total(&table), word.chars().count() as u64);
    }
    let table = compute_transitions_map(&lines(&["ab", "", "x"]));
    assert_eq!(total(&table), 0);
    let many = compute_transitions_map(&lines(&["anna", "ab", "bob", "hannah"]));
    assert_eq!(total(&many), 4 + 3 + 6);
}

#[test]
fn repeated_steps_add_up() {
    let table = compute_transitions_map(&lines(&["aaaa"]));
    let expected: Vec<(String, Vec<(char, u64)>)> = vec![
        ("a".to_string(), vec![('a', 1)]),
        ("aa".to_string(), vec![('a', 1)]),
        ("aaa".to_string(), vec![('\0', 1), ('a', 1)]),
    ];
    assert_eq!(table.to_entries(), expected);
    let twice = compute_transitions_map(&lines(&["aaaa", "aaaa"]));
    assert_eq!(twice.count(&chars("aaa"), 'a'), 2);
    assert_eq!(twice.count(&chars("aaa"), '\0'), 2);
    assert_eq!(twice.count(&chars("a"), 'a'), 2);
}

#[test]
fn building_twice_gives_the_same_table() {
    let data = lines(&["anna", "hannah", "bob", "ann", "ana", "xy"]);
    assert_eq!(compute_transitions_map(&data), compute_transitions_map(&data));
}

#[test]
fn order_of_training_strings_is_irrelevant() {
    let forward = compute_transitions_map(&lines(&["anna", "hannah", "bob", "ann"]));
    let backward = compute_transitions_map(&lines(&["ann", "bob", "hannah", "anna"]));
    let shuffled = compute_transitions_map(&lines(&["bob", "anna", "ann", "hannah"]));
    assert_eq!(forward, backward);
    assert_eq!(forward, shuffled);
    assert_eq!(forward.to_entries(), shuffled.to_entries());
}

#[test]
fn first_characters_are_start_symbols() {
    let table = compute_transitions_map(&lines(&["zoe", "anna", "bo", "bob"]));
    assert_eq!(table.start_letters(), vec!['a', 'b', 'z']);
    let none = compute_transitions_map(&lines(&["bo", "al"]));
    assert_eq!(none.start_letters(), Vec::<char>::new());
}

#[test]
fn contexts_have_one_to_window_characters_and_counts_are_positive() {
    let table = compute_transitions_map(&lines(&["mississippi", "anna", "hannah", "ab"]));
    for (context, nexts) in table.to_entries() {
        let n = context.chars().count();
        assert!(1 <= n && n <= SLICE_WINDOW_SIZE);
        assert!(!context.contains('\0'));
        assert!(!nexts.is_empty());
        for (_, count) in nexts {
            assert!(count >= 1);
        }
    }
}

#[test]
fn characters_are_counted_not_bytes() {
    let table = compute_transitions_map(&lines(&["éé", "żółw"]));
    assert_eq!(table.count(&chars("é"), 'é'), 0);
    assert_eq!(table.count(&chars("ż"), 'ó'), 1);
    assert_eq!(table.count(&chars("żó"), 'ł'), 1);
    assert_eq!(table.count(&chars("żół"), 'w'), 1);
    assert_eq!(table.count(&chars("ółw"), '\0'), 1);
    assert_eq!(total(&table), 4);
}

#[test]
fn train_adds_the_steps_of_one_string() {
    let mut table = TransitionTable::new();
    train(&mut table, &chars("ann"));
    train(&mut table, &chars("an"));
    train(&mut table, &chars("ana"));
    assert_eq!(table, compute_transitions_map(&lines(&["ann", "ana"])));
}

#[test]
fn record_counts_steps() {
    let mut table = TransitionTable::new();
    table.record(&chars("b"), 'x', 2);
    table.record(&chars("a"), 'z', 1);
    table.record(&chars("b"), 'a', 3);
    table.record(&chars("b"), 'x', 5);
    table.record(&chars("c"), 'q', 0);
    let expected: Vec<(String, Vec<(char, u64)>)> = vec![
        ("a".to_string(), vec![('z', 1)]),
        ("b".to_string(), vec![('a', 3), ('x', 7)]),
    ];
    assert_eq!(table.to_entries(), expected);
    assert_eq!(table.count(&chars("b"), 'x'), 7);
    assert_eq!(table.count(&chars("c"), 'q'), 0);
    assert_eq!(table.row(&chars("b")), Some(&vec![('a', 3), ('x', 7)]));
    assert_eq!(table.row(&chars("c")), None);
    assert_eq!(table.clone(), table);
}
