use hust::_add;
use hust::bytes::{bytes_eq, compare, has_sub, Order, TrimAsciiWhitespace};
use hust::lines::{file_lines, force_write, split_on, words, Separator};
use hust::tokens::TokenSet;

#[test]
fn assets_it_works() {
    let result = _add(2, 2);
    assert_eq!(result, 4);
}

#[test]
fn lib_it_works() {
    let result = _add(2, 2);
    assert_eq!(result, 4);
}

#[test]
fn trim_removes_whitespace_at_both_ends() {
    let v: Vec<u8> = b" \t\r\n a b \x0c\n".to_vec();
    assert_eq!(v.trim_ascii_whitespace(), b"a b");
    assert_eq!(b"abc"[..].trim_ascii_whitespace(), b"abc");
}

#[test]
fn trim_of_whitespace_is_empty() {
    assert_eq!(b" \n\t "[..].trim_ascii_whitespace(), b"");
    assert_eq!(b""[..].trim_ascii_whitespace(), b"");
}

#[test]
fn trim_keeps_vertical_tab() {
    assert_eq!(b"\x0ba\x0b"[..].trim_ascii_whitespace(), b"\x0ba\x0b");
}

#[test]
fn substring_search() {
    assert!(has_sub(b"foo bar baz", b"bar"));
    assert!(has_sub(b"foo bar baz", b""));
    assert!(has_sub(b"", b""));
    assert!(!has_sub(b"foo bar baz", b"quux"));
    assert!(!has_sub(b"ab", b"abc"));
}

#[test]
fn equality_and_order() {
    assert!(bytes_eq(b"abc", b"abc"));
    assert!(!bytes_eq(b"abc", b"abd"));
    assert!(!bytes_eq(b"abc", b"ab"));
    assert_eq!(compare(b"ab", b"abc"), Order::Less);
    assert_eq!(compare(b"abd", b"abc"), Order::Greater);
    assert_eq!(compare(b"", b""), Order::Equal);
    assert_eq!(compare(b"b", b"abc"), Order::Greater);
    assert_eq!(compare(b"\xff", b"a"), Order::Greater);
}

#[test]
fn split_gives_one_piece_more_than_separators() {
    let pieces = split_on(b"a\n\nb\n", Separator::Byte(b'\n'));
    assert_eq!(pieces, vec![&b"a"[..], &b""[..], &b"b"[..], &b""[..]]);
    let one = split_on(b"", Separator::Byte(b'\n'));
    assert_eq!(one, vec![&b""[..]]);
    let ws = split_on(b"a b\tc", Separator::Whitespace);
    assert_eq!(ws, vec![&b"a"[..], &b"b"[..], &b"c"[..]]);
}

#[test]
fn file_lines_trims_and_drops_empty_lines() {
    let lines = file_lines(b"\n  a.com \r\n\n\t\nb c\n");
    assert_eq!(lines, vec![b"a.com".to_vec(), b"b c".to_vec()]);
    assert_eq!(file_lines(b""), Vec::<Vec<u8>>::new());
    assert_eq!(file_lines(b" \n \n"), Vec::<Vec<u8>>::new());
}

#[test]
fn words_are_split_at_whitespace() {
    assert_eq!(words(b" a  b\nc\t"), vec![b"a".to_vec(), b"b".to_vec(), b"c".to_vec()]);
    assert_eq!(words(b""), Vec::<Vec<u8>>::new());
}

#[test]
fn force_write_replaces_the_file() {
    let mut file = b"old content".to_vec();
    force_write(&mut file, &vec![b"a".to_vec(), b"b".to_vec()]);
    assert_eq!(file, b"a\nb");
    force_write(&mut file, &vec![b"x".to_vec()]);
    assert_eq!(file, b"x");
    force_write(&mut file, &Vec::new());
    assert_eq!(file, b"");
}

#[test]
fn written_lines_read_back() {
    let lines = vec![b"a.com".to_vec(), b"b c".to_vec(), b"z".to_vec()];
    let mut file = Vec::new();
    force_write(&mut file, &lines);
    assert_eq!(file_lines(&file), lines);
}

#[test]
fn token_set_keeps_each_entry_once_and_in_order() {
    let mut set = TokenSet::new();
    assert!(set.is_empty());
    assert!(set.insert(b"b".to_vec()));
    assert!(set.insert(b"a".to_vec()));
    assert!(!set.insert(b"b".to_vec()));
    assert!(set.insert(b"ab".to_vec()));
    assert!(set.insert(Vec::new()));
    assert_eq!(set.len(), 4);
    assert!(set.contains(b"a"));
    assert!(set.contains(b""));
    assert!(!set.contains(b"c"));
    assert_eq!(
        set.lines(),
        &vec![b"".to_vec(), b"a".to_vec(), b"ab".to_vec(), b"b".to_vec()]
    );
}
