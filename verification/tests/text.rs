use codedestate::text::{text_before, text_eq};

#[test]
fn text_eq_compares_whole_strings() {
    assert!(text_eq("", ""));
    assert!(text_eq("abc", "abc"));
    assert!(!text_eq("abc", "abd"));
    assert!(!text_eq("abc", "ab"));
    assert!(!text_eq("", "a"));
}

#[test]
fn text_before_is_the_order_of_the_bytes() {
    assert!(text_before("", "a"));
    assert!(!text_before("", ""));
    assert!(!text_before("a", ""));
    assert!(text_before("a", "b"));
    assert!(!text_before("b", "a"));
    assert!(text_before("ab", "abc"));
    assert!(!text_before("abc", "ab"));
    assert!(!text_before("abc", "abc"));
    assert!(text_before("10", "9"));
    assert!(text_before("Z", "a"));
    assert!(text_before("z", "é"));
}

#[test]
fn text_before_agrees_with_the_standard_order() {
    let words = ["", "a", "aa", "ab", "b", "token1", "token10", "token2", "é", "日本"];
    for x in words.iter() {
        for y in words.iter() {
            assert_eq!(text_before(x, y), x.as_bytes() < y.as_bytes());
            assert_eq!(text_eq(x, y), x == y);
        }
    }
}
