use hust::classify::Key;
use hust::config::{Cli, Config, Find, Sub, WebHook};
use hust::run::{read_key, run, status, Action, Query, RunError};
use hust::text::{ascii_bytes, has_prefix};

fn words(list: &[&str]) -> Vec<Vec<u8>> {
    list.iter().map(|t| t.as_bytes().to_vec()).collect()
}

fn cli() -> Cli {
    Cli {
        quiet: false,
        notification: false,
        name: None,
        args: Vec::new(),
        path: None,
        webhooks: Vec::new(),
        find: None,
    }
}

fn config(name: Option<&str>, args: &[&str], piped: bool) -> Config {
    Config {
        quiet: false,
        notification: false,
        piped,
        name: name.map(|n| n.as_bytes().to_vec()),
        args: words(args),
        path: b".".to_vec(),
        webhooks: Vec::new(),
        find: None,
    }
}

#[test]
fn webhook_is_read_from_a_discord_address() {
    let w = WebHook::from_str(b"  https://discord.com/api/webhooks/1/abc \n").unwrap();
    assert_eq!(w.url(), b"https://discord.com/api/webhooks/1/abc");
    assert_eq!(w.to_string(), b"Discord => https://discord.com/api/webhooks/1/abc");
}

#[test]
fn other_text_is_no_webhook() {
    let e = WebHook::from_str(b"https://example.com/hook").unwrap_err();
    assert_eq!(e, b"'https://example.com/hook' is not a WebHook!");
    let e = WebHook::from_str(b" x ").unwrap_err();
    assert_eq!(e, b"' x ' is not a WebHook!");
    assert!(WebHook::from_str(b"").is_err());
}

#[test]
fn prefix_and_ascii_helpers() {
    assert!(has_prefix(b"abc", b"ab"));
    assert!(has_prefix(b"abc", b""));
    assert!(has_prefix(b"abc", b"abc"));
    assert!(!has_prefix(b"abc", b"abcd"));
    assert!(!has_prefix(b"abc", b"b"));
    assert_eq!(ascii_bytes("ip"), b"ip");
}

#[test]
fn find_from_a_name() {
    let f = Find::from(b"evil");
    assert_eq!(f.number, 1000000000);
    assert_eq!(f.verbose, 0);
    assert_eq!(f.program, None);
    assert_eq!(f.args, words(&["evil"]));
}

#[test]
fn config_takes_path_and_webhooks_from_the_file() {
    let mut c = cli();
    c.quiet = true;
    c.name = Some(b"app".to_vec());
    c.args = words(&["a.com"]);
    c.path = Some(b"/cli/path".to_vec());
    c.webhooks = vec![WebHook::from_str(b"https://discord.com/api/webhooks/cli").unwrap()];
    let file = b"/first/path\nhttps://discord.com/api/webhooks/file\n/data/hunt\n";
    let cfg = Config::parse(c, true, file, Some(b"b.com  c.com\n"));
    assert!(cfg.quiet);
    assert!(!cfg.notification);
    assert!(cfg.piped);
    assert_eq!(cfg.name, Some(b"app".to_vec()));
    assert_eq!(cfg.args, words(&["a.com", "b.com", "c.com"]));
    assert_eq!(cfg.path, b"/data/hunt");
    let urls: Vec<&[u8]> = cfg.webhooks.iter().map(|w| w.url()).collect();
    assert_eq!(
        urls,
        vec![
            &b"https://discord.com/api/webhooks/cli"[..],
            &b"https://discord.com/api/webhooks/file"[..]
        ]
    );
    assert!(cfg.find.is_none());
}

#[test]
fn config_path_of_the_command_line() {
    let mut c = cli();
    c.path = Some(b"/cli/path".to_vec());
    let cfg = Config::parse(c, true, b"", None);
    assert_eq!(cfg.path, b"/cli/path");
    assert!(!cfg.piped);
    let mut c = cli();
    c.path = Some(b"/no/dir".to_vec());
    assert_eq!(Config::parse(c, false, b"", None).path, b".");
    assert_eq!(Config::parse(cli(), true, b"", None).path, b".");
}

#[test]
fn key_words() {
    assert_eq!(read_key(b"ip"), Some(Key::Ip));
    assert_eq!(read_key(b"domain"), Some(Key::Domain));
    assert_eq!(read_key(b"other"), Some(Key::Other));
    assert_eq!(read_key(b"*"), None);
    assert_eq!(read_key(b"IP"), None);
    assert_eq!(read_key(b""), None);
}

#[test]
fn query_takes_the_key_from_the_first_word() {
    let q = Query::of(Find {
        verbose: 2,
        args: words(&["domain", "evil", "ip"]),
        program: Some(b"app".to_vec()),
        number: 5,
    });
    assert_eq!(q.key, Some(Key::Domain));
    assert_eq!(q.needles, words(&["evil", "ip"]));
    assert_eq!(q.filter, Some(b"app".to_vec()));
    assert!(q.verbose);
    let q = Query::of(Find { verbose: 0, args: words(&["*", "evil"]), program: None, number: 5 });
    assert_eq!(q.key, None);
    assert_eq!(q.needles, words(&["evil"]));
    assert!(!q.verbose);
    let q = Query::of(Find { verbose: 0, args: words(&["evil", "ip"]), program: None, number: 5 });
    assert_eq!(q.key, None);
    assert_eq!(q.needles, words(&["evil", "ip"]));
    let q = Query::of(Find { verbose: 0, args: Vec::new(), program: None, number: 5 });
    assert_eq!(q.key, None);
    assert!(q.needles.is_empty());
}

#[test]
fn run_follows_the_subcommand() {
    let mut cfg = config(Some("app"), &["a.com"], false);
    cfg.find = Some(Sub::Find(Box::new(Find {
        verbose: 1,
        args: words(&["ip", "10.0.0.1"]),
        program: Some(b"app".to_vec()),
        number: 1,
    })));
    match run(cfg) {
        Action::Search(q) => {
            assert_eq!(q.key, Some(Key::Ip));
            assert_eq!(q.needles, words(&["10.0.0.1"]));
            assert_eq!(q.filter, Some(b"app".to_vec()));
            assert!(q.verbose);
        }
        other => panic!("{:?}", other),
    }
}

#[test]
fn run_searches_for_a_name_alone() {
    match run(config(Some("evil"), &[], false)) {
        Action::Search(q) => {
            assert_eq!(q.key, None);
            assert_eq!(q.needles, words(&["evil"]));
            assert_eq!(q.filter, None);
            assert!(!q.verbose);
        }
        other => panic!("{:?}", other),
    }
    match run(config(Some("domain"), &[], false)) {
        Action::Search(q) => {
            assert_eq!(q.key, Some(Key::Domain));
            assert!(q.needles.is_empty());
        }
        other => panic!("{:?}", other),
    }
}

#[test]
fn run_imports_words_into_the_named_scope() {
    let mut cfg = config(Some("app"), &["a.com", "1.2.3.4"], false);
    cfg.notification = true;
    match run(cfg) {
        Action::Insert { name, tokens, notify } => {
            assert_eq!(name, b"app");
            assert_eq!(tokens, words(&["a.com", "1.2.3.4"]));
            assert!(!notify);
        }
        other => panic!("{:?}", other),
    }
    match run(config(Some("app"), &[], true)) {
        Action::Insert { tokens, notify, .. } => {
            assert!(tokens.is_empty());
            assert!(notify);
        }
        other => panic!("{:?}", other),
    }
}

#[test]
fn run_without_a_name() {
    assert!(matches!(run(config(None, &[], false)), Action::Status));
    assert!(matches!(run(config(None, &[], true)), Action::Status));
    match run(config(None, &["a.com"], true)) {
        Action::Fail(e) => {
            assert_eq!(e, RunError::NoProgram);
            assert_eq!(e.message(), "Program (-p) must be specified!");
        }
        other => panic!("{:?}", other),
    }
}

#[test]
fn status_shows_the_configuration() {
    let mut cfg = config(None, &[], false);
    cfg.path = b"/data/hunt".to_vec();
    assert_eq!(
        status(&cfg, None),
        b"Taste That PINK VENOM!\n\nPath: /data/hunt\nWebhooks:\nConfig file: None"
    );
    cfg.webhooks = vec![
        WebHook::from_str(b"https://discord.com/api/webhooks/1").unwrap(),
        WebHook::from_str(b"https://discord.com/api/webhooks/2").unwrap(),
    ];
    assert_eq!(
        String::from_utf8(status(&cfg, Some(b"/bin/.hust.cfg"))).unwrap(),
        "Taste That PINK VENOM!\n\nPath: /data/hunt\nWebhooks:\n\
         Discord => https://discord.com/api/webhooks/1\n\
         Discord => https://discord.com/api/webhooks/2\n\
         Config file: /bin/.hust.cfg"
    );
}
