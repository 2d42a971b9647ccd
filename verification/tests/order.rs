use ohaconf::order::{name_order, text_le_exec};

#[test]
fn text_order_matches_string_order() {
    let words = ["", "a", "b", "ab", "aa", "Z", "é", "e", "zz", "a\u{10000}", "a\u{ffff}"];
    for x in words.iter() {
        for y in words.iter() {
            assert_eq!(text_le_exec(x, y), x.to_string() <= y.to_string(), "{:?} {:?}", x, y);
        }
    }
}

#[test]
fn name_order_is_a_stable_sort() {
    let names: Vec<String> = ["list", "dashboard", "health", "dashboard", "a"].iter().map(|s| s.to_string()).collect();
    assert_eq!(name_order(&names), vec![4, 1, 3, 2, 0]);
    assert!(name_order(&Vec::new()).is_empty());
}
