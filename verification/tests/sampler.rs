use namegen::builder::compute_transitions_map;
use namegen::error::SampleError;
use namegen::sampler::{choose_first_letter, generate_name, get_next_letter, letter_at};
use namegen::table::TransitionTable;
use rand::rngs::StdRng;
use rand::SeedableRng;

fn lines(words: &[&str]) -> Vec<String> {
    words.iter().map(|w| w.to_string()).collect()
}

fn chars(word: &str) -> Vec<char> {
    word.chars().collect()
}

fn table_of(rows: &[(&str, &[(char, u64)])]) -> TransitionTable {
    let entries: Vec<(String, Vec<(char, u64)>)> =
        rows.iter().map(|(k, v)| (k.to_string(), v.to_vec())).collect();
    TransitionTable::from_entries(&entries).unwrap()
}

fn window(name: &[char]) -> Vec<char> {
    let start = if name.len() > 3 { name.len() - 3 } else { 0 };
    name[start..].to_vec()
}

fn assert_is_finished_walk(table: &TransitionTable, name: &str) {
    let name = chars(name);
    assert!(!name.is_empty());
    assert!(table.row(&name[..1]).is_some());
    for i in 1..name.len() {
        assert!(name[i] != '\0');
        assert!(table.count(&window(&name[..i]), name[i]) >= 1);
    }
    assert!(table.count(&window(&name), '\0') >= 1);
}

#[test]
fn sampling_the_empty_table_fails_with_missing_start_symbol() {
    let table = TransitionTable::new();
    let mut rng = StdRng::seed_from_u64(1);
    assert_eq!(generate_name(&table, &mut rng, None), Err(SampleError::MissingStartSymbol));
    assert_eq!(generate_name(&table, &mut rng, Some(10)), Err(SampleError::MissingStartSymbol));
    assert_eq!(choose_first_letter(&table, &mut rng), Err(SampleError::MissingStartSymbol));
}

#[test]
fn a_table_without_contexts_of_one_character_has_no_start() {
    let table = table_of(&[("ab", &[('c', 1)]), ("abc", &[('\0', 1)])]);
    let mut rng = StdRng::seed_from_u64(2);
    assert_eq!(generate_name(&table, &mut rng, None), Err(SampleError::MissingStartSymbol));
}

#[test]
fn a_single_training_string_is_reproduced() {
    let table = compute_transitions_map(&lines(&["hello"]));
    let mut rng = StdRng::seed_from_u64(3);
    for _ in 0..20 {
        assert_eq!(generate_name(&table, &mut rng, None), Ok("hello".to_string()));
    }
}

#[test]
fn sampling_terminates_within_the_bound() {
    let table = compute_transitions_map(&lines(&[
        "anna", "hannah", "bob", "barbara", "banana", "alabama", "ann", "ana", "mississippi",
    ]));
    let mut rng = StdRng::seed_from_u64(4);
    for _ in 0..1000 {
        let name = generate_name(&table, &mut rng, Some(10_000)).unwrap();
        assert!(name.chars().count() <= 10_000);
        assert_is_finished_walk(&table, &name);
    }
}

#[test]
fn trained_tables_never_miss_a_context() {
    let table = compute_transitions_map(&lines(&["abcabcabd", "bcda", "cab", "dddd", "ab"]));
    let mut rng = StdRng::seed_from_u64(5);
    for _ in 0..500 {
        match generate_name(&table, &mut rng, Some(50)) {
            Ok(name) => assert_is_finished_walk(&table, &name),
            Err(e) => assert_eq!(e, SampleError::LengthLimit),
        }
    }
}

#[test]
fn every_start_letter_is_drawn() {
    let table = compute_transitions_map(&lines(&["abc", "bcd", "cde"]));
    let mut rng = StdRng::seed_from_u64(6);
    let mut seen = Vec::new();
    for _ in 0..200 {
        let c = choose_first_letter(&table, &mut rng).unwrap();
        assert!(table.start_letters().contains(&c));
        if !seen.contains(&c) {
            seen.push(c);
        }
    }
    seen.sort();
    assert_eq!(seen, vec!['a', 'b', 'c']);
}

#[test]
fn a_foreign_table_fails_with_missing_context() {
    let table = table_of(&[("a", &[('b', 1)])]);
    let mut rng = StdRng::seed_from_u64(7);
    assert_eq!(
        generate_name(&table, &mut rng, None),
        Err(SampleError::MissingContext("ab".to_string()))
    );
    assert_eq!(
        get_next_letter(&chars("ab"), &table, &mut rng),
        Err(SampleError::MissingContext("ab".to_string()))
    );
    assert_eq!(
        get_next_letter(&chars("xyzab"), &table, &mut rng),
        Err(SampleError::MissingContext("zab".to_string()))
    );
    assert_eq!(
        get_next_letter(&Vec::new(), &table, &mut rng),
        Err(SampleError::MissingContext(String::new()))
    );
}

#[test]
fn a_table_built_with_a_smaller_window_fails_with_missing_context() {
    let table = table_of(&[
        ("a", &[('b', 1)]),
        ("ab", &[('a', 1)]),
        ("ba", &[('\0', 1)]),
    ]);
    let mut rng = StdRng::seed_from_u64(8);
    assert_eq!(
        generate_name(&table, &mut rng, None),
        Err(SampleError::MissingContext("aba".to_string()))
    );
}

#[test]
fn a_table_that_never_ends_hits_the_length_limit() {
    let table = table_of(&[("a", &[('a', 1)]), ("aa", &[('a', 1)]), ("aaa", &[('a', 1)])]);
    let mut rng = StdRng::seed_from_u64(9);
    assert_eq!(generate_name(&table, &mut rng, Some(10)), Err(SampleError::LengthLimit));
    assert_eq!(generate_name(&table, &mut rng, Some(1)), Err(SampleError::LengthLimit));
    assert_eq!(generate_name(&table, &mut rng, Some(0)), Err(SampleError::LengthLimit));
}

#[test]
fn names_up_to_the_limit_are_returned() {
    let table = compute_transitions_map(&lines(&["abcd"]));
    let mut rng = StdRng::seed_from_u64(10);
    assert_eq!(generate_name(&table, &mut rng, Some(4)), Ok("abcd".to_string()));
    assert_eq!(generate_name(&table, &mut rng, Some(5)), Ok("abcd".to_string()));
    assert_eq!(generate_name(&table, &mut rng, Some(3)), Err(SampleError::LengthLimit));
    assert_eq!(generate_name(&table, &mut rng, Some(0)), Err(SampleError::LengthLimit));
}

#[test]
fn the_next_letter_uses_the_last_three_characters() {
    let table = compute_transitions_map(&lines(&["abcde"]));
    let mut rng = StdRng::seed_from_u64(11);
    assert_eq!(get_next_letter(&chars("a"), &table, &mut rng), Ok(Some('b')));
    assert_eq!(get_next_letter(&chars("ab"), &table, &mut rng), Ok(Some('c')));
    assert_eq!(get_next_letter(&chars("abc"), &table, &mut rng), Ok(Some('d')));
    assert_eq!(get_next_letter(&chars("abcd"), &table, &mut rng), Ok(Some('e')));
    assert_eq!(get_next_letter(&chars("xxbcd"), &table, &mut rng), Ok(Some('e')));
    assert_eq!(get_next_letter(&chars("abcde"), &table, &mut rng), Ok(None));
}

#[test]
fn next_letters_are_drawn_by_weight() {
    let table = table_of(&[("a", &[('x', 999), ('y', 1), ('\0', 0)])]);
    let mut rng = StdRng::seed_from_u64(12);
    let mut x = 0;
    let mut y = 0;
    for _ in 0..2000 {
        match get_next_letter(&chars("a"), &table, &mut rng) {
            Ok(Some('x')) => x += 1,
            Ok(Some('y')) => y += 1,
            other => panic!("unexpected draw {:?}", other),
        }
    }
    assert_eq!(x + y, 2000);
    assert!(x > 1900);
    assert!(y < 100);
}

#[test]
fn both_letters_of_an_even_row_are_drawn() {
    let table = table_of(&[("a", &[('x', 1), ('\0', 1)])]);
    let mut rng = StdRng::seed_from_u64(13);
    let mut ended = 0;
    let mut went_on = 0;
    for _ in 0..400 {
        match get_next_letter(&chars("a"), &table, &mut rng) {
            Ok(Some('x')) => went_on += 1,
            Ok(None) => ended += 1,
            other => panic!("unexpected draw {:?}", other),
        }
    }
    assert!(ended > 100);
    assert!(went_on > 100);
}

#[test]
fn letter_at_reads_the_entry() {
    let row = vec![('\0', 2), ('a', 1), ('b', 7)];
    assert_eq!(letter_at(&row, 0), None);
    assert_eq!(letter_at(&row, 1), Some('a'));
    assert_eq!(letter_at(&row, 2), Some('b'));
}

#[test]
fn the_same_seed_gives_the_same_names() {
    let table = compute_transitions_map(&lines(&["anna", "hannah", "bob", "barbara", "banana"]));
    let mut first = StdRng::seed_from_u64(14);
    let mut second = StdRng::seed_from_u64(14);
    for _ in 0..50 {
        assert_eq!(
            generate_name(&table, &mut first, Some(100)),
            generate_name(&table, &mut second, Some(100))
        );
    }
}

#[test]
fn sample_error_messages() {
    assert_eq!(SampleError::MissingStartSymbol.message(), "the table has no start symbol");
    assert_eq!(
        SampleError::MissingContext("abc".to_string()).message(),
        "the table has no context abc"
    );
    assert_eq!(SampleError::LengthLimit.message(), "the name grew beyond the length bound");
}
