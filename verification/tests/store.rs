use hust::assets::Assets;
use hust::canon::Canonicalizer;
use hust::cidr::CidrBlock;
use hust::database::DataBase;
use hust::files::{insert, save_as, set_path, write_path};
use hust::tokens::TokenSet;

fn tokens(list: &[&str]) -> Vec<Vec<u8>> {
    list.iter().map(|t| t.as_bytes().to_vec()).collect()
}

fn block(text: &str) -> CidrBlock {
    CidrBlock::parse(text.as_bytes()).unwrap()
}

fn texts(c: &Canonicalizer) -> Vec<String> {
    c.list().iter().map(|b| String::from_utf8(b.text()).unwrap()).collect()
}

fn written(db: &DataBase) -> (Vec<u8>, Vec<u8>, Vec<u8>) {
    let mut ip = b"junk".to_vec();
    let mut domain = b"junk".to_vec();
    let mut other = b"junk".to_vec();
    db.write(&mut ip, &mut domain, &mut other);
    (ip, domain, other)
}

#[test]
fn canonicalizer_starts_empty() {
    let c = Canonicalizer::new();
    assert!(c.list().is_empty());
    assert!(!c.contains(false, 0));
    assert!(!c.contains(true, 0));
}

#[test]
fn canonicalizer_merges_halves() {
    let mut c = Canonicalizer::new();
    assert!(c.insert(block("10.0.0.0/24")));
    assert!(c.insert(block("10.0.1.0/24")));
    assert_eq!(texts(&c), vec!["10.0.0.0/23"]);
    assert!(c.insert(block("10.0.2.0/24")));
    assert!(c.insert(block("10.0.3.0/24")));
    assert_eq!(texts(&c), vec!["10.0.0.0/22"]);
}

#[test]
fn canonicalizer_keeps_neighbours_that_are_no_halves() {
    let mut c = Canonicalizer::new();
    assert!(c.insert(block("10.0.2.0/24")));
    assert!(c.insert(block("10.0.1.0/24")));
    assert_eq!(texts(&c), vec!["10.0.1.0/24", "10.0.2.0/24"]);
}

#[test]
fn canonicalizer_contains_covered_addresses() {
    let mut c = Canonicalizer::new();
    c.insert(block("1.2.3.0/24"));
    assert!(c.contains(false, 0x0102_0300));
    assert!(c.contains(false, 0x0102_03ff));
    assert!(!c.contains(false, 0x0102_0400));
    assert!(!c.contains(true, 0x0102_0300));
    assert!(!c.contains(false, 0x1_0102_0300));
    c.insert(block("::1"));
    assert!(c.contains(true, 1));
    assert!(!c.contains(false, 1));
}

#[test]
fn canonicalizer_takes_a_block_with_a_covered_end() {
    let mut c = Canonicalizer::new();
    assert!(c.insert(block("10.0.0.0/25")));
    // the first address of the larger block is covered, the block is not
    assert!(c.insert(block("10.0.0.0/24")));
    assert_eq!(texts(&c), vec!["10.0.0.0/24"]);
    // the same block again, and one inside it
    assert!(!c.insert(block("10.0.0.0/24")));
    assert!(!c.insert(block("10.0.0.0/25")));
    assert!(!c.insert(block("10.0.0.255")));
    assert_eq!(texts(&c), vec!["10.0.0.0/24"]);
}

#[test]
fn canonicalizer_takes_a_block_with_both_ends_covered() {
    let mut c = Canonicalizer::new();
    assert!(c.insert(block("10.0.0.0/26")));
    assert!(c.insert(block("10.0.0.192/26")));
    assert!(c.contains(false, 0x0a00_0000));
    assert!(c.contains(false, 0x0a00_00ff));
    assert!(!c.holds(&block("10.0.0.0/24")));
    assert!(c.insert(block("10.0.0.0/24")));
    assert_eq!(texts(&c), vec!["10.0.0.0/24"]);
}

#[test]
fn canonicalizer_refuses_what_two_halves_cover() {
    let mut c = Canonicalizer::new();
    assert!(c.insert(block("10.0.0.0/25")));
    assert!(c.insert(block("10.0.0.128/25")));
    assert!(c.holds(&block("10.0.0.0/24")));
    assert!(!c.insert(block("10.0.0.0/24")));
    assert_eq!(texts(&c), vec!["10.0.0.0/24"]);
}

#[test]
fn canonicalizer_holds_what_lies_in_one_block() {
    let mut c = Canonicalizer::new();
    assert!(!c.holds(&block("1.2.3.4")));
    c.insert(block("1.2.3.0/24"));
    c.insert(block("2001:db8::/32"));
    assert!(c.holds(&block("1.2.3.0/24")));
    assert!(c.holds(&block("1.2.3.128/25")));
    assert!(c.holds(&block("1.2.3.255")));
    assert!(!c.holds(&block("1.2.2.0/23")));
    assert!(!c.holds(&block("1.2.4.0")));
    assert!(c.holds(&block("2001:db8:1::/48")));
    assert!(!c.holds(&block("2001:db9::1")));
    assert!(!c.holds(&block("::/0")));
}

#[test]
fn canonicalizer_takes_a_block_that_holds_others() {
    let mut c = Canonicalizer::new();
    assert!(c.insert(block("10.0.0.64/26")));
    assert!(c.insert(block("10.0.0.128/26")));
    assert!(c.insert(block("10.0.0.0/24")));
    assert_eq!(texts(&c), vec!["10.0.0.0/24"]);
}

#[test]
fn canonicalizer_lists_v4_before_v6() {
    let mut c = Canonicalizer::new();
    c.insert(block("2001:db8::/32"));
    c.insert(block("9.9.9.9"));
    c.insert(block("::1"));
    c.insert(block("1.1.1.1"));
    assert_eq!(
        texts(&c),
        vec!["1.1.1.1/32", "9.9.9.9/32", "::1/128", "2001:db8::/32"]
    );
}

#[test]
fn containment_outer_then_inner() {
    let db = DataBase::init(b"", b"", b"").import(tokens(&["10.0.0.0/16", "10.0.3.0/24"]));
    assert_eq!(db.new().lines(), &tokens(&["10.0.0.0/16"]));
    assert_eq!(written(&db).0, b"10.0.0.0/16");
}

#[test]
fn containment_inner_then_outer() {
    let db = DataBase::init(b"", b"", b"").import(tokens(&["10.0.3.0/24", "10.0.0.0/16"]));
    assert_eq!(db.new().lines(), &tokens(&["10.0.0.0/16", "10.0.3.0/24"]));
    assert_eq!(written(&db).0, b"10.0.0.0/16");
}

#[test]
fn containment_inner_at_the_start_then_outer() {
    let db = DataBase::init(b"", b"", b"").import(tokens(&["1.2.3.0/25", "1.2.3.0/24"]));
    assert_eq!(db.new().lines(), &tokens(&["1.2.3.0/24", "1.2.3.0/25"]));
    assert_eq!(written(&db).0, b"1.2.3.0/24");
    assert!(db.ip().contains(false, 0x0102_0300));
    assert!(db.ip().contains(false, 0x0102_03ff));
    assert!(!db.ip().contains(false, 0x0102_02ff));
    assert!(!db.ip().contains(false, 0x0102_0400));
}

#[test]
fn stored_inner_block_gives_way_to_the_outer() {
    let db = DataBase::init(b"1.2.3.0/25\n", b"", b"").import(tokens(&["1.2.3.0/24"]));
    assert_eq!(db.new().lines(), &tokens(&["1.2.3.0/24"]));
    assert_eq!(written(&db).0, b"1.2.3.0/24");
}

#[test]
fn two_texts_of_one_block_are_new_once() {
    let db = DataBase::init(b"", b"", b"").import(tokens(&["1.2.3.4", "1.2.3.4/32"]));
    assert_eq!(db.new().lines(), &tokens(&["1.2.3.4"]));
    assert_eq!(written(&db).0, b"1.2.3.4/32");
}

#[test]
fn block_covered_by_earlier_blocks_together_is_not_new() {
    let db = DataBase::init(b"", b"", b"").import(tokens(&[
        "10.0.0.0/25",
        "10.0.0.128/25",
        "10.0.0.0/24",
    ]));
    assert_eq!(db.new().lines(), &tokens(&["10.0.0.0/25", "10.0.0.128/25"]));
    assert_eq!(written(&db).0, b"10.0.0.0/24");
}

#[test]
fn coverage_is_the_union_of_stored_and_given() {
    let db = DataBase::init(b"10.0.0.0/26\n10.0.0.192/26\n10.9.0.0/16", b"", b"")
        .import(tokens(&["10.0.0.0/24", "10.9.1.0/24", "10.8.0.0/16"]));
    assert_eq!(db.new().lines(), &tokens(&["10.0.0.0/24", "10.8.0.0/16"]));
    assert_eq!(written(&db).0, b"10.0.0.0/24\n10.8.0.0/15");
}

#[test]
fn scenario_import_and_flush() {
    let db = DataBase::init(b"", b"", b"").import(tokens(&[
        "1.2.3.0/24",
        "1.2.3.128/25",
        "evil.com",
        "evil.com",
    ]));
    assert_eq!(db.new().lines(), &tokens(&["1.2.3.0/24", "evil.com"]));
    let (ip, domain, other) = written(&db);
    assert_eq!(ip, b"1.2.3.0/24");
    assert_eq!(domain, b"evil.com");
    assert_eq!(other, b"");
}

#[test]
fn import_twice_adds_nothing_the_second_time() {
    let batch = tokens(&["1.2.3.0/24", "evil.com", "some token", "::1", "10.0.0.1"]);
    let first = DataBase::init(b"", b"", b"").import(batch.clone());
    let mut all = batch.clone();
    all.sort();
    assert_eq!(first.new().lines(), &all);
    let (ip, domain, other) = written(&first);
    // a second run on what the first has written
    let second = DataBase::init(&ip, &domain, &other).import(batch.clone());
    assert!(second.new().is_empty());
    assert_eq!(written(&second), (ip.clone(), domain.clone(), other.clone()));
    // a second import in the same run
    let again = first.import(batch);
    assert_eq!(again.new().lines(), &all);
    assert_eq!(written(&again), (ip, domain, other));
}

#[test]
fn entries_go_to_the_partition_of_their_class() {
    let db = DataBase::init(b"", b"", b"").import(tokens(&[
        "b.example.org",
        "not a domain",
        "a.example.org",
        "192.168.1.1",
        "-x",
    ]));
    assert_eq!(db.domain().lines(), &tokens(&["a.example.org", "b.example.org"]));
    assert_eq!(db.other().lines(), &tokens(&["-x", "not a domain"]));
    assert!(db.ip().contains(false, 0xc0a8_0101));
    let (ip, domain, other) = written(&db);
    assert_eq!(ip, b"192.168.1.1/32");
    assert_eq!(domain, b"a.example.org\nb.example.org");
    assert_eq!(other, b"-x\nnot a domain");
}

#[test]
fn init_reads_the_three_files() {
    let db = DataBase::init(
        b"10.0.0.0/24\nnot a block\n10.0.1.0/24\n",
        b" b.com \n\na.com\nb.com\n",
        b"x y\n",
    );
    assert!(db.new().is_empty());
    assert_eq!(db.domain().lines(), &tokens(&["a.com", "b.com"]));
    assert_eq!(db.other().lines(), &tokens(&["x y"]));
    let (ip, domain, other) = written(&db);
    // the line that is no block is gone, the two halves are one block
    assert_eq!(ip, b"10.0.0.0/23");
    assert_eq!(domain, b"a.com\nb.com");
    assert_eq!(other, b"x y");
}

#[test]
fn stored_entries_are_not_new() {
    let db = DataBase::init(b"10.0.0.0/8", b"a.com", b"tok").import(tokens(&[
        "10.1.2.3",
        "a.com",
        "tok",
        "b.com",
    ]));
    assert_eq!(db.new().lines(), &tokens(&["b.com"]));
}

#[test]
fn flush_and_reload_round_trip() {
    let db = DataBase::init(b"", b"", b"").import(tokens(&[
        "10.0.0.0/24",
        "10.0.1.0/24",
        "10.0.4.0/24",
        "2001:db8::/48",
        "::ffff:1.2.3.4",
        "z.org",
        "a.org",
        "free text",
    ]));
    let files = written(&db);
    let again = DataBase::init(&files.0, &files.1, &files.2);
    assert!(again.new().is_empty());
    assert_eq!(written(&again), files);
    assert_eq!(again.domain().lines(), db.domain().lines());
    assert_eq!(again.other().lines(), db.other().lines());
}

#[test]
fn token_with_outer_whitespace_does_not_read_back() {
    let db = DataBase::init(b"", b"", b"").import(vec![b" x".to_vec()]);
    let files = written(&db);
    assert_eq!(files.2, b" x");
    let again = DataBase::init(&files.0, &files.1, &files.2);
    assert_eq!(again.other().lines(), &tokens(&["x"]));
}

#[test]
fn database_insert_takes_the_parse_result() {
    let mut db = DataBase::init(b"", b"", b"");
    assert!(db.insert(b"label", Some(block("10.0.0.0/8"))));
    assert!(!db.insert(b"again", Some(block("10.1.0.0/16"))));
    assert!(db.insert(b"example.com", None));
    assert!(!db.insert(b"example.com", None));
    assert!(db.insert(b"10.0.0.0/8", None));
    assert_eq!(db.new().lines(), &tokens(&["10.0.0.0/8", "example.com", "label"]));
    assert_eq!(db.other().lines(), &tokens(&["10.0.0.0/8"]));
}

#[test]
fn insert_gives_files_log_and_report() {
    let r = insert(
        b"",
        b"old.com\n",
        b"",
        Some(b'x'),
        b"app",
        tokens(&["1.2.3.0/24", "1.2.3.128/25", "evil.com", "evil.com", "old.com"]),
        b"T",
        true,
    );
    assert_eq!(r.ip, b"1.2.3.0/24");
    assert_eq!(r.domain, b"evil.com\nold.com");
    assert_eq!(r.other, b"");
    assert_eq!(r.new, tokens(&["1.2.3.0/24", "evil.com"]));
    assert_eq!(r.log, b"\napp | 1.2.3.0/24 | T\napp | evil.com | T\n");
    assert_eq!(r.message, Some(b"## app\n1.2.3.0/24\nevil.com".to_vec()));
}

#[test]
fn insert_without_new_tokens_writes_no_log() {
    let r = insert(b"", b"old.com\n", b"", Some(b'x'), b"app", tokens(&["old.com"]), b"T", true);
    assert!(r.new.is_empty());
    assert_eq!(r.log, b"");
    assert_eq!(r.message, None);
    assert_eq!(r.domain, b"old.com");
}

#[test]
fn insert_without_notification_has_no_report() {
    let r = insert(b"", b"", b"", None, b"app", tokens(&["new.com"]), b"T", false);
    assert_eq!(r.message, None);
    assert_eq!(r.log, b"app | new.com | T\n");
}

#[test]
fn save_as_merges_and_returns_the_new_entries() {
    let mut assets = TokenSet::new();
    assets.insert(b"b".to_vec());
    assets.insert(b"a".to_vec());
    assets.insert(b"d".to_vec());
    let mut file = b"c\nb\n\n".to_vec();
    let news = save_as(assets, &mut file);
    assert_eq!(news.lines(), &tokens(&["a", "d"]));
    assert_eq!(file, b"a\nb\nc\nd");
}

#[test]
fn set_path_writes_one_line() {
    let mut config = b"old\nlines\n".to_vec();
    set_path(&mut config, b"/data/hunt");
    assert_eq!(config, b"/data/hunt\n");
}

#[test]
fn write_path_appends_a_line() {
    let mut config = b"https://discord.com/api/webhooks/1".to_vec();
    write_path(&mut config, b"/data/hunt");
    assert_eq!(config, b"https://discord.com/api/webhooks/1\n/data/hunt\n");
    let mut empty = Vec::new();
    write_path(&mut empty, b"/p");
    assert_eq!(empty, b"/p\n");
}

#[test]
fn assets_merge_into_both_files() {
    let assets = Assets::new(tokens(&["1.1.1.1", "zzz"]), tokens(&["b.com", "a.com"]));
    let mut ip = b"zzz\n".to_vec();
    let mut domain = b"a.com\n".to_vec();
    let news = assets.save_as(&mut ip, &mut domain);
    assert_eq!(news.lines(), &tokens(&["1.1.1.1", "b.com"]));
    assert_eq!(ip, b"1.1.1.1\nzzz");
    assert_eq!(domain, b"a.com\nb.com");
}

#[test]
fn assets_from_a_list_go_to_the_address_file() {
    let assets = Assets::from(tokens(&["b", "a", "b"]));
    let mut ip = Vec::new();
    let mut domain = b"keep".to_vec();
    let news = assets.save_as(&mut ip, &mut domain);
    assert_eq!(news.lines(), &tokens(&["a", "b"]));
    assert_eq!(ip, b"a\nb");
    assert_eq!(domain, b"keep");
}

#[test]
fn second_run_on_the_written_files_adds_nothing() {
    let batch = tokens(&["1.2.3.0/25", "1.2.3.0/24", "evil.com", "a token", "::1"]);
    let first = insert(b"", b"", b"", None, b"app", batch.clone(), b"T", true);
    let mut all = batch.clone();
    all.sort();
    assert_eq!(first.new, all);
    let second = insert(
        &first.ip,
        &first.domain,
        &first.other,
        Some(b'\n'),
        b"app",
        batch,
        b"T",
        true,
    );
    assert!(second.new.is_empty());
    assert_eq!(second.log, b"");
    assert_eq!(second.message, None);
    assert_eq!(second.ip, first.ip);
    assert_eq!(second.domain, first.domain);
    assert_eq!(second.other, first.other);
}
