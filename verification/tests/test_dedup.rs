use qsv_core::dedup::{dedup_checked, dedup_rows, route, DedupError};

fn row(fields: &[&str]) -> Vec<Vec<u8>> {
    fields.iter().map(|s| s.as_bytes().to_vec()).collect()
}

fn table(rows: &[&[&str]]) -> Vec<Vec<Vec<u8>>> {
    rows.iter().map(|r| row(r)).collect()
}

#[test]
fn dedup_keyed_on_color_no_case() {
    // three rows keyed "yellow" form one group, "yellow.0" its own; the
    // earliest-positioned "yellow" row is kept, and "yellow" sorts before
    // "yellow.0"
    let data = table(&[
        &["164.0", "yellow"],
        &["165.0", "yellow"],
        &["166.0", "yellow"],
        &["167.0", "yellow.0"],
    ]);
    let sel: Vec<usize> = vec![1];
    let (kept, dupes) = dedup_rows(data, &sel, true);
    assert_eq!(
        kept,
        table(&[&["164.0", "yellow"], &["167.0", "yellow.0"]])
    );
    assert_eq!(dupes, table(&[&["165.0", "yellow"], &["166.0", "yellow"]]));

    // with no duplicates sink configured nothing else is produced
    let (primary, secondary) = route(&None, kept, dupes, false);
    assert_eq!(
        primary,
        table(&[&["164.0", "yellow"], &["167.0", "yellow.0"]])
    );
    assert!(secondary.is_none());
}

#[test]
fn dedup_empty_dataset_header_only() {
    // an empty dataset yields empty outputs; each requested sink still
    // carries the header
    let data: Vec<Vec<Vec<u8>>> = Vec::new();
    let sel: Vec<usize> = vec![0];
    let (kept, dupes) = dedup_rows(data, &sel, false);
    assert!(kept.is_empty());
    assert!(dupes.is_empty());

    let header = Some(row(&["identifier", "color"]));
    let (primary, secondary) = route(&header, kept, dupes, true);
    assert_eq!(primary, table(&[&["identifier", "color"]]));
    assert_eq!(secondary, Some(table(&[&["identifier", "color"]])));
}

#[test]
fn dedup_single_row() {
    let data = table(&[&["164.0", "yellow"]]);
    let sel: Vec<usize> = vec![0, 1];
    let (kept, dupes) = dedup_rows(data, &sel, false);
    assert_eq!(kept, table(&[&["164.0", "yellow"]]));
    assert!(dupes.is_empty());
}

#[test]
fn dedup_case_fold_modes() {
    // the two rows differ only by letter case in the keyed field: one
    // group when case-insensitive, two when case-sensitive
    let data = table(&[&["1", "YELLOW"], &["2", "yellow"]]);
    let sel: Vec<usize> = vec![1];

    let (kept, dupes) = dedup_rows(data.clone(), &sel, true);
    assert_eq!(kept, table(&[&["1", "YELLOW"]]));
    assert_eq!(dupes, table(&[&["2", "yellow"]]));

    let (kept, dupes) = dedup_rows(data, &sel, false);
    assert_eq!(kept, table(&[&["1", "YELLOW"], &["2", "yellow"]]));
    assert!(dupes.is_empty());
}

#[test]
fn dedup_conservation() {
    let data = table(&[
        &["a", "1"],
        &["b", "2"],
        &["c", "1"],
        &["d", "3"],
        &["e", "1"],
        &["f", "2"],
    ]);
    let sel: Vec<usize> = vec![1];
    let n = data.len();
    let (kept, dupes) = dedup_rows(data, &sel, false);
    assert_eq!(kept.len() + dupes.len(), n);
    assert_eq!(kept.len(), 3);
    assert_eq!(dupes.len(), 3);
}

#[test]
fn dedup_deterministic() {
    let data = table(&[
        &["b", "x"],
        &["a", "x"],
        &["c", "y"],
        &["a", "z"],
    ]);
    let sel: Vec<usize> = vec![1];
    let first = dedup_rows(data.clone(), &sel, false);
    let second = dedup_rows(data, &sel, false);
    assert_eq!(first, second);
}

#[test]
fn dedup_distinct_keys_sorts_only() {
    // pairwise distinct keys: nothing is a duplicate, and the kept output
    // is the dataset in key order
    let data = table(&[&["3", "c"], &["1", "a"], &["2", "b"]]);
    let sel: Vec<usize> = vec![1];
    let (kept, dupes) = dedup_rows(data, &sel, false);
    assert!(dupes.is_empty());
    assert_eq!(kept, table(&[&["1", "a"], &["2", "b"], &["3", "c"]]));
}

#[test]
fn dedup_keeps_earliest_position() {
    // two key-equal rows at positions 0 and 2: the one at position 0 is
    // kept even though the other would sort first by its unselected field
    let data = table(&[&["z", "k"], &["m", "other"], &["a", "k"]]);
    let sel: Vec<usize> = vec![1];
    let (kept, dupes) = dedup_rows(data, &sel, false);
    assert_eq!(kept, table(&[&["z", "k"], &["m", "other"]]));
    assert_eq!(dupes, table(&[&["a", "k"]]));
}

#[test]
fn dedup_invalid_selection() {
    let data = table(&[&["164.0", "yellow"]]);
    let sel: Vec<usize> = vec![5];
    let res = dedup_checked(data, &sel, false);
    assert_eq!(res, Err(DedupError::InvalidSelection));
}

#[test]
fn dedup_checked_ok() {
    let data = table(&[&["164.0", "yellow"], &["165.0", "yellow"]]);
    let sel: Vec<usize> = vec![1];
    let (kept, dupes) = dedup_checked(data, &sel, false).unwrap();
    assert_eq!(kept, table(&[&["164.0", "yellow"]]));
    assert_eq!(dupes, table(&[&["165.0", "yellow"]]));
}
