use std::cmp::Ordering;

use qsv_core::compare::{iter_cmp, iter_cmp_no_case, next_no_case, select_fields};

fn key(fields: &[&str]) -> Vec<Vec<u8>> {
    fields.iter().map(|s| s.as_bytes().to_vec()).collect()
}

#[test]
fn cmp_bytes_orders() {
    assert_eq!(iter_cmp(&key(&["a"]), &key(&["b"])), Ordering::Less);
    assert_eq!(iter_cmp(&key(&["b"]), &key(&["a"])), Ordering::Greater);
    assert_eq!(iter_cmp(&key(&["a"]), &key(&["a"])), Ordering::Equal);
    // a field that is a prefix of the other sorts first
    assert_eq!(iter_cmp(&key(&["yellow"]), &key(&["yellow.0"])), Ordering::Less);
    // a key that is a prefix of the other sorts first
    assert_eq!(iter_cmp(&key(&["x"]), &key(&["x", "y"])), Ordering::Less);
    assert_eq!(iter_cmp(&key(&[]), &key(&["x"])), Ordering::Less);
    assert_eq!(iter_cmp(&key(&[]), &key(&[])), Ordering::Equal);
}

#[test]
fn cmp_case_modes() {
    // equal up to case: equal only when folding
    assert_eq!(iter_cmp_no_case(&key(&["YELLOW"]), &key(&["yellow"])), Ordering::Equal);
    assert_ne!(iter_cmp(&key(&["YELLOW"]), &key(&["yellow"])), Ordering::Equal);
    assert_eq!(iter_cmp_no_case(&key(&["AbC", "DeF"]), &key(&["abc", "def"])), Ordering::Equal);
    assert_eq!(iter_cmp_no_case(&key(&["a"]), &key(&["B"])), Ordering::Less);
}

#[test]
fn cmp_undecodable_field_ends_key() {
    let bad: Vec<Vec<u8>> = vec![vec![0xff, 0xfe]];
    let good = key(&["a"]);
    // a field that does not decode offers no value, so its key acts as
    // exhausted there
    assert_eq!(iter_cmp_no_case(&good, &bad), Ordering::Greater);
    assert_eq!(iter_cmp_no_case(&bad, &good), Ordering::Less);
    // two keys that both stop at an undecodable field compare equal
    let bad2: Vec<Vec<u8>> = vec![vec![0xff], key(&["z"]).remove(0)];
    let bad3: Vec<Vec<u8>> = vec![vec![0xfe], key(&["a"]).remove(0)];
    assert_eq!(iter_cmp_no_case(&bad2, &bad3), Ordering::Equal);
}

#[test]
fn next_no_case_folds() {
    let xs = key(&["AbC", "already"]);
    assert_eq!(next_no_case(&xs, 0), Some("abc".to_string()));
    assert_eq!(next_no_case(&xs, 1), Some("already".to_string()));
    assert_eq!(next_no_case(&xs, 2), None);
    let bad: Vec<Vec<u8>> = vec![vec![0xff]];
    assert_eq!(next_no_case(&bad, 0), None);
}

#[test]
fn select_projects_in_order() {
    let row = key(&["a", "b", "c"]);
    let sel: Vec<usize> = vec![2, 0, 2];
    assert_eq!(select_fields(&row, &sel), key(&["c", "a", "c"]));
}
