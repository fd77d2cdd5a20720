use hust::log::{append, append_bytes, audit_lines, message};

fn lines(list: &[&str]) -> Vec<Vec<u8>> {
    list.iter().map(|t| t.as_bytes().to_vec()).collect()
}

#[test]
fn file_append_1() {
    let mut file = b"a".to_vec();
    append(&mut file, &lines(&["b"]));
    assert_eq!(file, b"a\nb\n");
}

#[test]
fn file_append_2() {
    let mut file = b"a\n".to_vec();
    append(&mut file, &lines(&["b"]));
    assert_eq!(file, b"a\nb\n");
}

#[test]
fn utils_append_1() {
    let mut file = b"a".to_vec();
    append(&mut file, &[b"b".to_vec()]);
    assert_eq!(String::from_utf8(file).unwrap(), "a\nb\n");
}

#[test]
fn utils_append_2() {
    let mut file = b"a\n".to_vec();
    append(&mut file, &[b"b".to_vec()]);
    assert_eq!(String::from_utf8(file).unwrap(), "a\nb\n");
}

#[test]
fn append_to_an_empty_file() {
    let mut file = Vec::new();
    append(&mut file, &lines(&["a", "b"]));
    assert_eq!(file, b"a\nb\n");
    append(&mut file, &[]);
    assert_eq!(file, b"a\nb\n");
}

#[test]
fn append_nothing_still_repairs_the_last_line() {
    let mut file = b"a".to_vec();
    append(&mut file, &[]);
    assert_eq!(file, b"a\n");
}

#[test]
fn append_bytes_goes_by_the_last_byte() {
    assert_eq!(append_bytes(None, &lines(&["x"])), b"x\n");
    assert_eq!(append_bytes(Some(b'\n'), &lines(&["x"])), b"x\n");
    assert_eq!(append_bytes(Some(b'q'), &lines(&["x", "y"])), b"\nx\ny\n");
    assert_eq!(append_bytes(Some(b'\r'), &[]), b"\n");
}

#[test]
fn audit_lines_name_scope_entry_and_time() {
    let out = audit_lines(
        b"app",
        &lines(&["1.2.3.0/24", "evil.com"]),
        b"Wed, 28 Oct 2026 10:00:00 +0000",
    );
    assert_eq!(
        out,
        lines(&[
            "app | 1.2.3.0/24 | Wed, 28 Oct 2026 10:00:00 +0000",
            "app | evil.com | Wed, 28 Oct 2026 10:00:00 +0000",
        ])
    );
    assert!(audit_lines(b"app", &[], b"now").is_empty());
}

#[test]
fn message_has_a_heading_and_the_entries() {
    assert_eq!(message(b"app", &lines(&["a.com", "b.com"])), b"## app\na.com\nb.com");
    assert_eq!(message(b"app", &Vec::new()), b"## app\n");
}

#[test]
fn bytes_are_kept_as_they_are() {
    let odd = vec![vec![0xff, 0x00, 0xfe]];
    let out = audit_lines(b"s", &odd, b"t");
    assert_eq!(out, vec![vec![b's', b' ', b'|', b' ', 0xff, 0x00, 0xfe, b' ', b'|', b' ', b't']]);
}

#[test]
fn gather_joins_the_answers() {
    let all = vec![Ok(b"a".to_vec()), Ok(b"".to_vec()), Ok(b"bc".to_vec())];
    assert_eq!(hust::log::gather(&all), Ok(b"abc".to_vec()));
    assert_eq!(hust::log::gather(&Vec::new()), Ok(Vec::new()));
}

#[test]
fn gather_reports_the_first_error() {
    let all = vec![
        Ok(b"a".to_vec()),
        Err(b"first".to_vec()),
        Ok(b"b".to_vec()),
        Err(b"second".to_vec()),
    ];
    assert_eq!(hust::log::gather(&all), Err(b"first".to_vec()));
}
