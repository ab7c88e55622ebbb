use rbrinfo::chains::parse_switch_var;
use rbrinfo::text::{block_label_string, block_list_string, decimal_string, find_char_in};

#[test]
fn decimal_of_zero() {
    assert_eq!(decimal_string(0), "0");
}

#[test]
fn decimal_of_small_and_large_values() {
    assert_eq!(decimal_string(7), "7");
    assert_eq!(decimal_string(10), "10");
    assert_eq!(decimal_string(1234567), "1234567");
    assert_eq!(decimal_string(u128::MAX), u128::MAX.to_string());
}

#[test]
fn block_labels() {
    assert_eq!(block_label_string(0), "bb0");
    assert_eq!(block_label_string(42), "bb42");
}

#[test]
fn block_lists() {
    assert_eq!(block_list_string(&vec![]), "[]");
    assert_eq!(block_list_string(&vec![3]), "[bb3]");
    assert_eq!(block_list_string(&vec![0, 2, 2, 5]), "[bb0, bb2, bb2, bb5]");
    assert_eq!(block_list_string(&vec![1, 4]), format!("{:?}", vec!["bb1", "bb4"]).replace('"', ""));
}

#[test]
fn finds_first_occurrence() {
    assert_eq!(find_char_in("switchInt(move _3)", '('), Some(9));
    assert_eq!(find_char_in("a_b_c", '_'), Some(1));
    assert_eq!(find_char_in("abc", 'z'), None);
    assert_eq!(find_char_in("", 'a'), None);
    assert_eq!(find_char_in("éa", 'a'), Some(1));
}

#[test]
fn switch_variable_of_a_move() {
    let v = parse_switch_var("switchInt(move _3) -> [0: bb2, otherwise: bb1]");
    assert_eq!(v.as_deref(), Some("_3"));
}

#[test]
fn switch_variable_of_a_copy() {
    let v = parse_switch_var("switchInt(copy _12) -> [1: bb4, otherwise: bb7]");
    assert_eq!(v.as_deref(), Some("_12"));
}

#[test]
fn switch_variable_keeps_the_rest_up_to_the_parenthesis() {
    let v = parse_switch_var("switchInt(move _5 as u8) -> [65: bb1, otherwise: bb4]");
    assert_eq!(v.as_deref(), Some("_5 as u8"));
}

#[test]
fn switch_text_without_a_local_is_refused() {
    assert_eq!(parse_switch_var("switchInt(const true) -> [0: bb1, otherwise: bb2]"), None);
}

#[test]
fn switch_text_without_parentheses_is_refused() {
    assert_eq!(parse_switch_var("goto -> bb3"), None);
    assert_eq!(parse_switch_var("switchInt _3"), None);
}

#[test]
fn switch_text_with_closing_parenthesis_first_is_refused() {
    assert_eq!(parse_switch_var(") _1 ("), None);
    assert_eq!(parse_switch_var("()"), None);
}
