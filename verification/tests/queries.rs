use hust::classify::Key;
use hust::find::{
    matches_any, render_block, render_line, search, search_blocks, search_file, search_lines,
    Memfind, Scope,
};
use hust::cidr::CidrBlock;

fn needles(list: &[&str]) -> Vec<Vec<u8>> {
    list.iter().map(|t| t.as_bytes().to_vec()).collect()
}

fn lines(list: &[&str]) -> Vec<Vec<u8>> {
    needles(list)
}

const DOMAINS: &[u8] = b"evil.com\ngood.org\n\n  \nsub.evil.net";

#[test]
fn scenario_query_domain() {
    let found = DOMAINS.find(&needles(&["evil"]));
    assert_eq!(found, vec![&b"evil.com"[..], &b"sub.evil.net"[..]]);
    let file = b"evil.com".to_vec();
    let one = file.find(&needles(&["evil"]));
    assert_eq!(one, vec![&b"evil.com"[..]]);
}

#[test]
fn no_needles_match_every_line() {
    let found = DOMAINS.find(&[]);
    assert_eq!(found, vec![&b"evil.com"[..], &b"good.org"[..], &b"sub.evil.net"[..]]);
}

#[test]
fn blank_lines_are_skipped_and_lines_kept_as_they_stand() {
    let found = b" a \n\t\n\nb\r\n"[..].find(&[]);
    assert_eq!(found, vec![&b" a "[..], &b"b\r"[..]]);
    assert!(b""[..].find(&[]).is_empty());
}

#[test]
fn any_needle_suffices() {
    let found = DOMAINS.find(&needles(&["nothing", "good"]));
    assert_eq!(found, vec![&b"good.org"[..]]);
    assert!(DOMAINS.find(&needles(&["EVIL"])).is_empty());
    assert!(matches_any(b"abc", &needles(&["x", "bc"])));
    assert!(!matches_any(b"abc", &needles(&["x", "cb"])));
    assert!(matches_any(b"abc", &[]));
}

#[test]
fn lines_are_shown_with_or_without_scope() {
    assert_eq!(render_line(b"app", b"evil.com", false), b"evil.com");
    assert_eq!(render_line(b"app", b"evil.com", true), b"app | evil.com");
    assert_eq!(
        search_lines(b"app", DOMAINS, &needles(&["evil"]), true),
        lines(&["app | evil.com", "app | sub.evil.net"])
    );
    assert_eq!(
        search_lines(b"app", DOMAINS, &needles(&["good"]), false),
        lines(&["good.org"])
    );
}

#[test]
fn blocks_are_shown_with_or_without_scope() {
    let b = CidrBlock::parse(b"10.0.0.0/8").unwrap();
    let n = CidrBlock::parse(b"10.1.2.3").unwrap();
    assert_eq!(render_block(b"app", &b, &n, false), b"10.0.0.0/8");
    assert_eq!(render_block(b"app", &b, &n, true), b"app | 10.0.0.0/8 | 10.1.2.3/32");
}

#[test]
fn address_search_finds_the_covering_block() {
    let file = b"10.0.0.0/8\n192.168.1.0/24\n2001:db8::/32";
    assert_eq!(
        search_blocks(b"app", file, &needles(&["192.168.1.77"]), false),
        lines(&["192.168.1.0/24"])
    );
    assert_eq!(
        search_blocks(b"app", file, &needles(&["2001:db8::1"]), true),
        lines(&["app | 2001:db8::/32 | 2001:db8::1/128"])
    );
    assert!(search_blocks(b"app", file, &needles(&["11.0.0.1"]), false).is_empty());
}

#[test]
fn address_search_finds_overlapping_ranges() {
    let file = b"10.0.0.0/24\n10.0.1.0/24\n10.0.9.0/24";
    // the needle holds the first two blocks: its first address is in the
    // first, its last in the second
    assert_eq!(
        search_blocks(b"app", file, &needles(&["10.0.0.0/23"]), false),
        lines(&["10.0.0.0/24", "10.0.1.0/24"])
    );
    // a needle that holds a block without sharing an end with it
    assert!(search_blocks(b"app", b"10.0.1.0/24", &needles(&["10.0.0.0/22"]), false).is_empty());
}

#[test]
fn address_search_passes_over_what_is_no_block() {
    let file = b"junk\n10.0.0.0/8\n\n";
    assert_eq!(
        search_blocks(b"app", file, &needles(&["nonsense", "10.1.1.1", "10.2.2.2"]), false),
        lines(&["10.0.0.0/8", "10.0.0.0/8"])
    );
    // without a needle that reads as a block nothing is found
    assert!(search_blocks(b"app", file, &[], false).is_empty());
    assert!(search_blocks(b"app", file, &needles(&["junk"]), false).is_empty());
}

fn scopes() -> Vec<Scope<'static>> {
    vec![
        Scope { name: b"app", ip: b"1.2.3.0/24", domain: b"evil.com\napp.io", other: b"token-1" },
        Scope { name: b"shop", ip: b"", domain: b"shop.evil.com", other: b"" },
        Scope { name: b"webapp", ip: b"10.0.0.0/8", domain: b"", other: b"evil token" },
    ]
}

#[test]
fn search_file_chooses_by_key() {
    let all = scopes();
    assert_eq!(search_file(&all[0], Key::Domain, &needles(&["evil"]), false), lines(&["evil.com"]));
    assert_eq!(search_file(&all[0], Key::Other, &[], false), lines(&["token-1"]));
    assert_eq!(
        search_file(&all[0], Key::Ip, &needles(&["1.2.3.4"]), false),
        lines(&["1.2.3.0/24"])
    );
}

#[test]
fn search_one_partition_of_all_scopes() {
    let found = search(&scopes(), None, Some(Key::Domain), &needles(&["evil"]), true);
    assert_eq!(found, lines(&["app | evil.com", "shop | shop.evil.com"]));
}

#[test]
fn search_filters_scopes_by_part_of_the_name() {
    let found = search(&scopes(), Some(b"app"), Some(Key::Domain), &[], true);
    assert_eq!(found, lines(&["app | evil.com", "app | app.io"]));
    let found = search(&scopes(), Some(b"App"), Some(Key::Domain), &[], true);
    assert!(found.is_empty());
    let found = search(&scopes(), Some(b"shop"), Some(Key::Domain), &[], false);
    assert_eq!(found, lines(&["shop.evil.com"]));
}

#[test]
fn search_all_partitions() {
    let found = search(&scopes(), Some(b"webapp"), None, &needles(&["evil", "10.9.9.9"]), true);
    assert_eq!(found, lines(&["webapp | 10.0.0.0/8 | 10.9.9.9/32", "webapp | evil token"]));
    let found = search(&scopes(), Some(b"app"), None, &needles(&["1.2.3.4"]), false);
    assert_eq!(found, lines(&["1.2.3.0/24"]));
}

#[test]
fn search_in_no_scopes_finds_nothing() {
    assert!(search(&[], None, None, &[], false).is_empty());
}
