use qsv_core::replace::{compile, replace_rows};

fn row(fields: &[&str]) -> Vec<Vec<u8>> {
    fields.iter().map(|s| s.as_bytes().to_vec()).collect()
}

fn table(rows: &[&[&str]]) -> Vec<Vec<Vec<u8>>> {
    rows.iter().map(|r| row(r)).collect()
}

#[test]
fn replace() {
    let data = table(&[
        &["164.0", "yellow"],
        &["165.0", "yellow"],
        &["166.0", "yellow"],
        &["167.0", "yellow.0"],
    ]);
    let sel: Vec<usize> = vec![0, 1];
    let m = compile("\\.0$", false, false).unwrap();
    let rep: Vec<u8> = b"".to_vec();

    let mut got = vec![row(&["identifier", "color"])];
    got.extend(replace_rows(&data, &sel, &m, &rep));
    let expected = table(&[
        &["identifier", "color"],
        &["164", "yellow"],
        &["165", "yellow"],
        &["166", "yellow"],
        &["167", "yellow"],
    ]);
    assert_eq!(got, expected);
}

#[test]
fn replace_unicode() {
    let data = table(&[
        &["164.0", "ŷellow"],
        &["165.0", "yellow"],
        &["166.0", "yellѳwish"],
        &["167.0", "yelloψ"],
        &["167.0", "belloψ"],
        &["167.0", "bellowish"],
    ]);
    let sel: Vec<usize> = vec![0, 1];
    let m = compile("[\\s\\S]ell[\\s\\S]w", false, true).unwrap();
    let rep: Vec<u8> = "Ƀellow".as_bytes().to_vec();

    let mut got = vec![row(&["identifier", "color"])];
    got.extend(replace_rows(&data, &sel, &m, &rep));
    let expected = table(&[
        &["identifier", "color"],
        &["164.0", "Ƀellow"],
        &["165.0", "Ƀellow"],
        &["166.0", "Ƀellowish"],
        &["167.0", "yelloψ"],
        &["167.0", "belloψ"],
        &["167.0", "Ƀellowish"],
    ]);
    assert_eq!(got, expected);
}

#[test]
fn replace_unicode_envvar() {
    // the QSV_REGEX_UNICODE environment variable turns the unicode flag on
    // before the pattern is compiled; the compiled behaviour is the same
    let data = table(&[
        &["164.0", "ŷellow"],
        &["165.0", "yellow"],
        &["166.0", "yellѳwish"],
        &["167.0", "yelloψ"],
        &["167.0", "belloψ"],
        &["167.0", "bellowish"],
    ]);
    let sel: Vec<usize> = vec![0, 1];
    let m = compile("[\\s\\S]ell[\\s\\S]w", false, true).unwrap();
    let rep: Vec<u8> = "Ƀellow".as_bytes().to_vec();

    let mut got = vec![row(&["identifier", "color"])];
    got.extend(replace_rows(&data, &sel, &m, &rep));
    let expected = table(&[
        &["identifier", "color"],
        &["164.0", "Ƀellow"],
        &["165.0", "Ƀellow"],
        &["166.0", "Ƀellowish"],
        &["167.0", "yelloψ"],
        &["167.0", "belloψ"],
        &["167.0", "Ƀellowish"],
    ]);
    assert_eq!(got, expected);
}

#[test]
fn replace_no_headers() {
    let data = table(&[
        &["164.0", "yellow"],
        &["165.0", "yellow"],
        &["166.0", "yellow"],
        &["167.0", "yellow.0"],
    ]);
    let sel: Vec<usize> = vec![0];
    let m = compile("\\.0$", false, false).unwrap();
    let rep: Vec<u8> = b"".to_vec();

    let got = replace_rows(&data, &sel, &m, &rep);
    let expected = table(&[
        &["164", "yellow"],
        &["165", "yellow"],
        &["166", "yellow"],
        &["167", "yellow.0"],
    ]);
    assert_eq!(got, expected);
}

#[test]
fn replace_select() {
    let data = table(&[
        &["164.0", "yellow"],
        &["165.0", "yellow"],
        &["166.0", "yellow"],
        &["167.0", "yellow.0"],
    ]);
    let sel: Vec<usize> = vec![0];
    let m = compile("\\.0$", false, false).unwrap();
    let rep: Vec<u8> = b"".to_vec();

    let mut got = vec![row(&["identifier", "color"])];
    got.extend(replace_rows(&data, &sel, &m, &rep));
    let expected = table(&[
        &["identifier", "color"],
        &["164", "yellow"],
        &["165", "yellow"],
        &["166", "yellow"],
        &["167", "yellow.0"],
    ]);
    assert_eq!(got, expected);
}

#[test]
fn replace_groups() {
    let data = table(&[
        &["164.0", "yellow"],
        &["165.0", "yellow"],
        &["166.0", "yellow"],
        &["167.0", "yellow.0"],
    ]);
    let sel: Vec<usize> = vec![0];
    let m = compile("\\d+(\\d)\\.0$", false, false).unwrap();
    let rep: Vec<u8> = b"$1".to_vec();

    let mut got = vec![row(&["identifier", "color"])];
    got.extend(replace_rows(&data, &sel, &m, &rep));
    let expected = table(&[
        &["identifier", "color"],
        &["4", "yellow"],
        &["5", "yellow"],
        &["6", "yellow"],
        &["7", "yellow.0"],
    ]);
    assert_eq!(got, expected);
}

#[test]
fn replace_bad_pattern() {
    assert!(compile("(unclosed", false, false).is_err());
}
