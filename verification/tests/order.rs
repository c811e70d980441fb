use namegen::order::{compare, Rank};
use namegen::text::{chars_of, string_of};

fn chars(word: &str) -> Vec<char> {
    word.chars().collect()
}

#[test]
fn compare_orders_lexicographically() {
    assert_eq!(compare(&chars(""), &chars("")), Rank::Same);
    assert_eq!(compare(&chars("abc"), &chars("abc")), Rank::Same);
    assert_eq!(compare(&chars(""), &chars("a")), Rank::Before);
    assert_eq!(compare(&chars("a"), &chars("")), Rank::After);
    assert_eq!(compare(&chars("a"), &chars("ab")), Rank::Before);
    assert_eq!(compare(&chars("ab"), &chars("a")), Rank::After);
    assert_eq!(compare(&chars("ab"), &chars("b")), Rank::Before);
    assert_eq!(compare(&chars("b"), &chars("ab")), Rank::After);
    assert_eq!(compare(&chars("abc"), &chars("abd")), Rank::Before);
    assert_eq!(compare(&chars("abd"), &chars("abc")), Rank::After);
    assert_eq!(compare(&chars("z"), &chars("é")), Rank::Before);
}

#[test]
fn compare_agrees_with_the_order_of_strings() {
    let words = ["", "a", "ab", "abc", "b", "ba", "é", "żółw", "z", "\0", "a\0"];
    for a in words {
        for b in words {
            let expected = match a.cmp(b) {
                std::cmp::Ordering::Less => Rank::Before,
                std::cmp::Ordering::Equal => Rank::Same,
                std::cmp::Ordering::Greater => Rank::After,
            };
            assert_eq!(compare(&chars(a), &chars(b)), expected);
        }
    }
}

#[test]
fn strings_and_characters_convert_both_ways() {
    assert_eq!(chars_of(""), Vec::<char>::new());
    assert_eq!(chars_of("żółw"), vec!['ż', 'ó', 'ł', 'w']);
    assert_eq!(string_of(&['a', '\0', 'é']), "a\0é");
    assert_eq!(string_of(&[]), "");
    assert_eq!(string_of(&chars_of("hannah")), "hannah");
}
