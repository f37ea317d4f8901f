use mpq_folder_win::text::{
    chars_eq_ignore_case, chars_of, chars_start_with_ignore_case, compare_folded, fold_ascii,
    push_decimal, str_eq_ignore_case, string_of, NameOrder,
};

fn cs(s: &str) -> Vec<char> {
    s.chars().collect()
}

#[test]
fn fold_changes_ascii_capitals_only() {
    assert_eq!(fold_ascii('A'), 'a');
    assert_eq!(fold_ascii('Z'), 'z');
    assert_eq!(fold_ascii('a'), 'a');
    assert_eq!(fold_ascii('@'), '@');
    assert_eq!(fold_ascii('['), '[');
    assert_eq!(fold_ascii('/'), '/');
    assert_eq!(fold_ascii('\u{c9}'), '\u{c9}');
    for c in 'A'..='Z' {
        assert_eq!(fold_ascii(c), c.to_ascii_lowercase());
    }
}

#[test]
fn chars_and_strings_convert_both_ways() {
    assert_eq!(chars_of("a\u{e9}z"), vec!['a', '\u{e9}', 'z']);
    assert_eq!(chars_of(""), Vec::<char>::new());
    assert_eq!(string_of(&['x', '/', '\u{44f}']), "x/\u{44f}");
    assert_eq!(string_of(&chars_of("round trip")), "round trip");
}

#[test]
fn equal_ignoring_case() {
    assert!(chars_eq_ignore_case(&cs("Hello"), &cs("hELLO")));
    assert!(chars_eq_ignore_case(&cs(""), &cs("")));
    assert!(!chars_eq_ignore_case(&cs("Hello"), &cs("Hell")));
    assert!(!chars_eq_ignore_case(&cs("a/b"), &cs("a\\b")));
    assert!(str_eq_ignore_case("Hello", &cs("hELLO")));
    assert!(!str_eq_ignore_case("Hello", &cs("hELLO!")));
    assert!(!str_eq_ignore_case("Hello!", &cs("hELLO")));
    assert!(!str_eq_ignore_case("abc", &cs("abd")));
    assert!(str_eq_ignore_case("", &cs("")));
}

#[test]
fn starts_with_ignoring_case() {
    assert!(chars_start_with_ignore_case(&cs("Scripts/x"), &cs("scripts/")));
    assert!(chars_start_with_ignore_case(&cs("abc"), &cs("")));
    assert!(chars_start_with_ignore_case(&cs("abc"), &cs("ABC")));
    assert!(!chars_start_with_ignore_case(&cs("ab"), &cs("abc")));
    assert!(!chars_start_with_ignore_case(&cs("xbc"), &cs("ab")));
}

#[test]
fn order_by_folded_text() {
    assert_eq!(compare_folded(&cs("apple"), &cs("Banana")), NameOrder::Before);
    assert_eq!(compare_folded(&cs("Banana"), &cs("apple")), NameOrder::After);
    assert_eq!(compare_folded(&cs("ABC"), &cs("abc")), NameOrder::Same);
    assert_eq!(compare_folded(&cs("ab"), &cs("abc")), NameOrder::Before);
    assert_eq!(compare_folded(&cs("abc"), &cs("ab")), NameOrder::After);
    assert_eq!(compare_folded(&cs(""), &cs("")), NameOrder::Same);
    assert_eq!(compare_folded(&cs(""), &cs("a")), NameOrder::Before);
    assert_eq!(compare_folded(&cs("Z"), &cs("_")), NameOrder::After);
    assert_eq!(compare_folded(&cs("z"), &cs("\u{e9}")), NameOrder::Before);
}

#[test]
fn decimal_text() {
    for n in [0u64, 1, 9, 10, 11, 99, 100, 101, 4096, 18446744073709551615] {
        let mut s = String::from("n=");
        push_decimal(&mut s, n);
        assert_eq!(s, format!("n={}", n));
    }
}
