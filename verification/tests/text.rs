use data_plumber::text::{
    appended, join, key_order, ordered_positions, text_before, text_equal,
};
use std::cmp::Ordering;

fn texts(rows: &[&str]) -> Vec<String> {
    rows.iter().map(|row| row.to_string()).collect()
}

#[test]
fn join_puts_the_joiner_between_the_items() {
    assert_eq!(join(&texts(&["a", "b", "c"]), None), "a,b,c");
    assert_eq!(join(&texts(&["a", "b", "c"]), Some("\n")), "a\nb\nc");
    assert_eq!(join(&texts(&["a"]), Some(", ")), "a");
    assert_eq!(join(&texts(&[]), Some(", ")), "");
    assert_eq!(join(&texts(&["", ""]), None), ",");
}

#[test]
fn texts_are_ordered_by_their_bytes() {
    assert!(text_before("1", "2"));
    assert!(text_before("10", "9"));
    assert!(text_before("", "a"));
    assert!(text_before("a", "ab"));
    assert!(text_before("Z", "a"));
    assert!(text_before("z", "é"));
    assert!(!text_before("a", "a"));
    assert!(!text_before("b", "a"));
    assert!(!text_before("", ""));
    for (a, b) in [("a", "b"), ("b", "a"), ("", ""), ("é", "e"), ("ab", "a"), ("x", "x")] {
        assert_eq!(text_before(a, b), a < b);
        assert_eq!(text_equal(a, b), a == b);
        assert_eq!(key_order(a, b), a.cmp(b));
    }
    assert_eq!(key_order("a", "b"), Ordering::Less);
}

#[test]
fn positions_come_in_the_stable_order_of_their_keys() {
    assert_eq!(ordered_positions(&texts(&["b", "a", "c"])), vec![1, 0, 2]);
    assert_eq!(ordered_positions(&texts(&["b", "a", "b", "a"])), vec![1, 3, 0, 2]);
    assert_eq!(ordered_positions(&texts(&[])), Vec::<usize>::new());
    assert_eq!(ordered_positions(&texts(&["10", "9", "100"])), vec![0, 2, 1]);
}

#[test]
fn appended_puts_the_tail_behind_the_head() {
    assert_eq!(appended("ab".to_string(), "cd"), "abcd");
    assert_eq!(appended(String::new(), ""), "");
}
