use sp_hints::text::{decimal_string, indexed_name, insert_sorted, name_less};

#[test]
fn decimal_notation_has_no_leading_zeros() {
    assert_eq!(decimal_string(0), "0");
    assert_eq!(decimal_string(7), "7");
    assert_eq!(decimal_string(10), "10");
    assert_eq!(decimal_string(1203), "1203");
    assert_eq!(decimal_string(usize::MAX), usize::MAX.to_string());
}

#[test]
fn indexed_names_join_with_an_underscore() {
    assert_eq!(indexed_name("some_name", 1), "some_name_1");
    assert_eq!(indexed_name("", 42), "_42");
    assert_eq!(indexed_name("2_3", 10), "2_3_10");
}

#[test]
fn names_compare_by_characters() {
    let s = |x: &str| x.to_string();
    assert!(name_less(&s("a"), &s("b")));
    assert!(name_less(&s("a"), &s("ab")));
    assert!(name_less(&s(""), &s("a")));
    assert!(!name_less(&s("ab"), &s("a")));
    assert!(!name_less(&s("a"), &s("a")));
    assert!(name_less(&s("B"), &s("a")));
    assert!(name_less(&s("a_to_b"), &s("a_to_c")));
}

#[test]
fn sorted_insertion_keeps_a_set() {
    let mut v: Vec<String> = vec![];
    for n in ["c", "a", "b", "a", "c", "aa"] {
        insert_sorted(&mut v, n.to_string());
    }
    assert_eq!(v, vec!["a", "aa", "b", "c"]);
}
