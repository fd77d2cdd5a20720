//! What a run does: the decision between a search, an import and a status
//! report, and the text of the report.

use crate::bytes::{bytes_eq, push_bytes};
use crate::classify::Key;
use crate::config::{hook_views, Config, Find, Sub};
use crate::lines::vec_views;
use crate::text::{ascii, ascii_bytes};
use vstd::prelude::*;

verus! {

/// The file that a word names, if it names one.
pub open spec fn key_word(word: Seq<u8>) -> Option<Key> {
    if word == ascii("ip"@) {
        Some(Key::Ip)
    } else if word == ascii("domain"@) {
        Some(Key::Domain)
    } else if word == ascii("other"@) {
        Some(Key::Other)
    } else {
        None
    }
}

/// Whether the first word names a file, or is the star that stands for all
/// three.
pub open spec fn has_key(args: Seq<Seq<u8>>) -> bool {
    args.len() > 0 && (key_word(args[0]) is Some || args[0] == ascii("*"@))
}

/// The file that the words of a search name: the one that the first word
/// names, and none, which stands for all three, where the first word is a
/// star or no name of a file.
pub open spec fn query_key(args: Seq<Seq<u8>>) -> Option<Key> {
    if args.len() > 0 {
        key_word(args[0])
    } else {
        None
    }
}

/// The needles among the words of a search: all words but a first one that
/// names a file or is a star.
pub open spec fn query_needles(args: Seq<Seq<u8>>) -> Seq<Seq<u8>> {
    if has_key(args) {
        args.drop_first()
    } else {
        args
    }
}

/// A search, ready to be made.
#[derive(Debug)]
pub struct Query {
    /// The part of a scope's name by which scopes are chosen.
    pub filter: Option<Vec<u8>>,
    /// The file to search in; none stands for all three.
    pub key: Option<Key>,
    /// What to look for.
    pub needles: Vec<Vec<u8>>,
    /// Whether each line of output names its scope.
    pub verbose: bool,
}

/// Reads the name of a file from a word.
pub fn read_key(word: &[u8]) -> (r: Option<Key>)
    ensures
        r == key_word(word@),
{
    proof {
        reveal_strlit("ip");
        reveal_strlit("domain");
        reveal_strlit("other");
    }
    if bytes_eq(word, ascii_bytes("ip")) {
        Some(Key::Ip)
    } else if bytes_eq(word, ascii_bytes("domain")) {
        Some(Key::Domain)
    } else if bytes_eq(word, ascii_bytes("other")) {
        Some(Key::Other)
    } else {
        None
    }
}

impl Query {
    /// The search that was asked for. A first word that names a file, or a
    /// star, chooses where to search; the other words are the needles.
    pub fn of(find: Find) -> (r: Query)
        ensures
            r.filter == find.program,
            r.verbose == (find.verbose > 0),
            r.key == query_key(vec_views(find.args@)),
            vec_views(r.needles@) == query_needles(vec_views(find.args@)),
    {
        let Find { verbose, args, program, number: _ } = find;
        let ghost all = vec_views(args@);
        let mut needles = args;
        let mut key: Option<Key> = None;
        if needles.len() > 0 {
            proof {
                reveal_strlit("*");
            }
            key = read_key(needles[0].as_slice());
            if key.is_some() || bytes_eq(needles[0].as_slice(), ascii_bytes("*")) {
                needles.remove(0);
                assert(vec_views(needles@) =~= all.drop_first());
            }
        }
        Query { filter: program, key, needles, verbose: verbose > 0 }
    }
}

/// Why a run cannot be made.
#[derive(Clone, Copy, Debug, PartialEq, Eq, Structural)]
pub enum RunError {
    /// There are tokens to import, but no scope is named.
    NoProgram,
}

impl RunError {
    /// The error in words.
    pub fn message(&self) -> (r: &'static str)
        ensures
            r@ == "Program (-p) must be specified!"@,
    {
        "Program (-p) must be specified!"
    }
}

/// What a run is to do.
#[derive(Debug)]
pub enum Action {
    /// Search the stored files.
    Search(Query),
    /// Import tokens into a scope.
    Insert {
        /// The name of the scope.
        name: Vec<u8>,
        /// The tokens to import.
        tokens: Vec<Vec<u8>>,
        /// Whether new entries are reported to the webhooks.
        notify: bool,
    },
    /// Show the configuration.
    Status,
    /// Stop with an error.
    Fail(RunError),
}

/// Decides what a run is to do. A subcommand for a search is followed. A
/// name alone, with no words after it and nothing piped in, is searched for
/// in all scopes. A name with words is a scope to import the words into.
/// Words without a name are an error, and nothing at all asks for the
/// status.
pub fn run(cfg: Config) -> (r: Action)
    ensures
        match cfg.find {
            Some(Sub::Find(find)) => r matches Action::Search(q) && q.filter == find.program
                && q.verbose == (find.verbose > 0) && q.key == query_key(vec_views(find.args@))
                && vec_views(q.needles@) == query_needles(vec_views(find.args@)),
            None => match cfg.name {
                Some(name) => if cfg.args@.len() == 0 && !cfg.piped {
                    r matches Action::Search(q) && q.filter is None && !q.verbose && q.key
                        == query_key(seq![name@]) && vec_views(q.needles@) == query_needles(
                        seq![name@],
                    )
                } else {
                    r matches Action::Insert { name: n, tokens, notify } && n == name && tokens
                        == cfg.args && notify == !cfg.notification
                },
                None => if cfg.args@.len() == 0 {
                    r is Status
                } else {
                    r == Action::Fail(RunError::NoProgram)
                },
            },
        },
{
    let Config { quiet: _, notification, piped, name, args, path: _, webhooks: _, find } = cfg;
    match find {
        Some(Sub::Find(find)) => Action::Search(Query::of(*find)),
        None => match name {
            Some(name) => {
                if args.len() == 0 && !piped {
                    Action::Search(Query::of(Find::from(name.as_slice())))
                } else {
                    Action::Insert { name, tokens: args, notify: !notification }
                }
            },
            None => {
                if args.len() == 0 {
                    Action::Status
                } else {
                    Action::Fail(RunError::NoProgram)
                }
            },
        },
    }
}

/// The lines for the webhooks in a status report: each webhook as it is
/// shown, after a line feed.
pub open spec fn hook_lines(hooks: Seq<Seq<u8>>) -> Seq<u8>
    decreases hooks.len(),
{
    if hooks.len() == 0 {
        Seq::empty()
    } else {
        hook_lines(hooks.drop_last()) + seq![0x0au8] + ascii("Discord => "@) + hooks.last()
    }
}

/// The status report: a greeting, the directory of the scopes, the
/// webhooks, and the configuration file or `None`.
pub open spec fn status_text(path: Seq<u8>, hooks: Seq<Seq<u8>>, file: Option<Seq<u8>>) -> Seq<u8> {
    ascii("Taste That PINK VENOM!"@) + ascii("\n\nPath: "@) + path + ascii("\nWebhooks:"@)
        + hook_lines(hooks) + ascii("\nConfig file: "@) + match file {
        Some(f) => f,
        None => ascii("None"@),
    }
}

/// Writes the status report. `file` is the path of the configuration file,
/// if there is one.
pub fn status(cfg: &Config, file: Option<&[u8]>) -> (r: Vec<u8>)
    ensures
        r@ == status_text(
            cfg.path@,
            hook_views(cfg.webhooks@),
            match file {
                Some(f) => Some(f@),
                None => None,
            },
        ),
{
    proof {
        reveal_strlit("Taste That PINK VENOM!");
        reveal_strlit("\n\nPath: ");
        reveal_strlit("\nWebhooks:");
        reveal_strlit("\nConfig file: ");
        reveal_strlit("None");
    }
    let mut out: Vec<u8> = Vec::new();
    push_bytes(&mut out, ascii_bytes("Taste That PINK VENOM!"));
    push_bytes(&mut out, ascii_bytes("\n\nPath: "));
    push_bytes(&mut out, cfg.path.as_slice());
    push_bytes(&mut out, ascii_bytes("\nWebhooks:"));
    let ghost head = out@;
    let ghost hooks = hook_views(cfg.webhooks@);
    let mut k: usize = 0;
    assert(out@ =~= head + hook_lines(hooks.take(0)));
    while k < cfg.webhooks.len()
        invariant
            k <= cfg.webhooks@.len(),
            hooks == hook_views(cfg.webhooks@),
            out@ == head + hook_lines(hooks.take(k as int)),
        decreases cfg.webhooks@.len() - k,
    {
        proof {
            assert(hooks.take(k as int + 1).drop_last() =~= hooks.take(k as int));
            assert(hooks.take(k as int + 1).last() == cfg.webhooks@[k as int]@);
        }
        out.push(0x0a);
        let shown = cfg.webhooks[k].to_string();
        push_bytes(&mut out, shown.as_slice());
        assert(out@ =~= head + hook_lines(hooks.take(k as int + 1)));
        k += 1;
    }
    assert(hooks.take(cfg.webhooks@.len() as int) =~= hooks);
    push_bytes(&mut out, ascii_bytes("\nConfig file: "));
    match file {
        Some(f) => push_bytes(&mut out, f),
        None => push_bytes(&mut out, ascii_bytes("None")),
    }
    out
}

} // verus!
