use hoard::text::{str_eq, str_lt};

#[test]
fn str_eq_compares_contents() {
    assert!(str_eq("", ""));
    assert!(str_eq("abc", "abc"));
    assert!(!str_eq("abc", "abd"));
    assert!(!str_eq("abc", "ab"));
    assert!(!str_eq("", "a"));
    assert!(str_eq("é", "\u{e9}"));
}

#[test]
fn str_lt_is_the_order_of_the_bytes() {
    assert!(str_lt("", "a"));
    assert!(!str_lt("a", ""));
    assert!(!str_lt("", ""));
    assert!(!str_lt("a", "a"));
    assert!(str_lt("a", "ab"));
    assert!(!str_lt("ab", "a"));
    assert!(str_lt("ab", "b"));
    assert!(str_lt("B", "a"));
    assert!(!str_lt("a", "B"));
    assert!(str_lt("z", "é"));
    assert!(str_lt("NAMESPACE1", "NAMESPACE2"));
}

#[test]
fn str_lt_agrees_with_the_standard_order() {
    let samples = ["", "a", "A", "ab", "abc", "b", "é", "z", "zz", "10", "9", "日本"];
    for a in samples {
        for b in samples {
            assert_eq!(str_lt(a, b), a < b, "{a:?} before {b:?}");
            assert_eq!(str_eq(a, b), a == b, "{a:?} equal to {b:?}");
        }
    }
}
