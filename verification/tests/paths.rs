use pz_launcher::order::{rank, Rank};
use pz_launcher::paths::{
    decimal_string, eq_ignore_case, flag_at, has_name, join, leaf_name, normalize_all,
    normalize_separators, parent_dir, to_backslashes, to_chars,
};

fn chars(s: &str) -> Vec<char> {
    to_chars(s)
}

#[test]
fn separators_are_normalised() {
    assert_eq!(normalize_separators("a\\b\\c.txt"), "a/b/c.txt");
    assert_eq!(normalize_separators("a/b"), "a/b");
    assert_eq!(normalize_separators(""), "");
    assert_eq!(to_backslashes("C:/x/y"), "C:\\x\\y");
    assert_eq!(
        normalize_all(&vec!["a\\b".to_string(), "c".to_string()]),
        vec!["a/b".to_string(), "c".to_string()]
    );
}

#[test]
fn join_puts_one_separator_between() {
    assert_eq!(join("a", "b"), "a/b");
    assert_eq!(join("a/", "b"), "a/b");
    assert_eq!(join("a\\", "b"), "a\\b");
    assert_eq!(join("", "b"), "b");
    assert_eq!(join("a", ""), "a/");
}

#[test]
fn case_of_ascii_letters_is_ignored() {
    assert!(eq_ignore_case("D:/Mods/Zomboid", "d:/mods/ZOMBOID"));
    assert!(!eq_ignore_case("D:/Mods", "D:/Mod"));
    assert!(!eq_ignore_case("a/b", "a\\b"));
    assert!(!eq_ignore_case("[", "{"));
    assert!(!eq_ignore_case("@", "`"));
    assert!(eq_ignore_case("", ""));
}

#[test]
fn leaf_and_parent() {
    assert_eq!(leaf_name("a/b/c"), "c");
    assert_eq!(leaf_name("a\\b"), "b");
    assert_eq!(leaf_name("abc"), "abc");
    assert_eq!(leaf_name("a/"), "");
    assert_eq!(parent_dir("a/b/c"), "a/b");
    assert_eq!(parent_dir("abc"), "");
    assert_eq!(parent_dir("/abc"), "");
    assert_eq!(parent_dir("C:\\x\\y"), "C:\\x");
}

#[test]
fn numbers_in_decimal() {
    assert_eq!(decimal_string(0), "0");
    assert_eq!(decimal_string(7), "7");
    assert_eq!(decimal_string(10), "10");
    assert_eq!(decimal_string(1700000000), "1700000000");
    assert_eq!(decimal_string(u64::MAX), "18446744073709551615");
}

#[test]
fn characters_of_a_string() {
    assert_eq!(to_chars("añb"), vec!['a', 'ñ', 'b']);
    assert_eq!(to_chars(""), Vec::<char>::new());
}

#[test]
fn missing_flags_count_as_unset() {
    assert!(flag_at(&vec![false, true], 1));
    assert!(!flag_at(&vec![false, true], 0));
    assert!(!flag_at(&vec![false, true], 2));
}

#[test]
fn names_are_looked_up_exactly() {
    let list = vec!["a/b".to_string(), "c".to_string()];
    assert!(has_name(&list, &"c".to_string()));
    assert!(!has_name(&list, &"C".to_string()));
    assert!(!has_name(&Vec::new(), &"c".to_string()));
}

#[test]
fn paths_are_ranked_character_by_character() {
    assert_eq!(rank(&chars("a.txt"), &chars("b/c.txt")), Rank::Before);
    assert_eq!(rank(&chars("b"), &chars("a")), Rank::After);
    assert_eq!(rank(&chars("a"), &chars("a")), Rank::Same);
    assert_eq!(rank(&chars("a"), &chars("ab")), Rank::Before);
    assert_eq!(rank(&chars("ab"), &chars("a")), Rank::After);
    assert_eq!(rank(&chars(""), &chars("")), Rank::Same);
    assert_eq!(rank(&chars("Z"), &chars("a")), Rank::Before);
}

#[test]
fn rank_agrees_with_string_order() {
    let names = ["", "a", "a/b", "a.txt", "b/c.txt", "B", "é", "zz", "a/"];
    for x in names {
        for y in names {
            let expected = match x.cmp(y) {
                std::cmp::Ordering::Less => Rank::Before,
                std::cmp::Ordering::Equal => Rank::Same,
                std::cmp::Ordering::Greater => Rank::After,
            };
            assert_eq!(rank(&chars(x), &chars(y)), expected);
        }
    }
}
