use keeper::order::is_text_before;

#[test]
fn names_are_compared_character_by_character() {
    assert!(is_text_before("a", "b"));
    assert!(!is_text_before("b", "a"));
    assert!(is_text_before("lamp", "lamq"));
    assert!(is_text_before("B", "a"));
    assert!(!is_text_before("lamp", "lamp"));
    assert!(!is_text_before("", ""));
}

#[test]
fn a_name_comes_before_the_longer_names_that_begin_with_it() {
    assert!(is_text_before("", "a"));
    assert!(!is_text_before("a", ""));
    assert!(is_text_before("lamp", "lamps"));
    assert!(!is_text_before("lamps", "lamp"));
}

#[test]
fn the_order_of_names_is_the_order_of_strings() {
    let names = ["", "a", "A", "ab", "b", "lamp", "Lamp", "lamp2", "\u{e9}t\u{e9}", "z", "\u{1f4a1}", "~"];
    for a in names {
        for b in names {
            assert_eq!(is_text_before(a, b), a < b, "{:?} {:?}", a, b);
        }
    }
}
