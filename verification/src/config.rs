//! What a run is asked to do: the command line as it was read, and the
//! configuration that it makes together with the configuration file and
//! with what was piped in.

use crate::bytes::{push_bytes, trimmed, TrimAsciiWhitespace};
use crate::lines::{vec_views, words, words_of};
use crate::text::{ascii, ascii_bytes, has_prefix, starts_with};
use vstd::prelude::*;

verus! {

/// An address to which new entries are reported.
#[derive(Clone, Debug)]
pub enum WebHook {
    /// A webhook of Discord, with its address.
    Discord(Vec<u8>),
}

/// How the address of a Discord webhook starts.
pub open spec fn discord_prefix() -> Seq<u8> {
    ascii("https://discord.com/api/webhooks"@)
}

/// What is said of a text that is no webhook: the text between quotes, and
/// that it is no webhook.
pub open spec fn not_a_webhook(s: Seq<u8>) -> Seq<u8> {
    ascii("'"@) + s + ascii("' is not a WebHook!"@)
}

/// The webhook that a text names, or what is said of a text that names
/// none. The whitespace around the text does not count.
pub open spec fn webhook_of(s: Seq<u8>) -> Result<Seq<u8>, Seq<u8>> {
    if starts_with(trimmed(s), discord_prefix()) {
        Ok(trimmed(s))
    } else {
        Err(not_a_webhook(s))
    }
}

impl View for WebHook {
    type V = Seq<u8>;

    /// The address of the webhook.
    open spec fn view(&self) -> Seq<u8> {
        match self {
            WebHook::Discord(url) => url@,
        }
    }
}

impl WebHook {
    /// Reads a webhook from a text. The text names one where, without the
    /// whitespace around it, it starts like the address of a Discord
    /// webhook.
    pub fn from_str(s: &[u8]) -> (r: Result<WebHook, Vec<u8>>)
        ensures
            match r {
                Ok(w) => webhook_of(s@) == Ok::<Seq<u8>, Seq<u8>>(w@),
                Err(e) => webhook_of(s@) == Err::<Seq<u8>, Seq<u8>>(e@),
            },
    {
        let t = s.trim_ascii_whitespace();
        proof {
            reveal_strlit("https://discord.com/api/webhooks");
            reveal_strlit("'");
            reveal_strlit("' is not a WebHook!");
        }
        if has_prefix(t, ascii_bytes("https://discord.com/api/webhooks")) {
            Ok(WebHook::Discord(vstd::slice::slice_to_vec(t)))
        } else {
            let mut e: Vec<u8> = Vec::new();
            push_bytes(&mut e, ascii_bytes("'"));
            push_bytes(&mut e, s);
            push_bytes(&mut e, ascii_bytes("' is not a WebHook!"));
            Err(e)
        }
    }

    /// The address of the webhook.
    pub fn url(&self) -> (r: &[u8])
        ensures
            r@ == self@,
    {
        match self {
            WebHook::Discord(url) => url.as_slice(),
        }
    }

    /// The webhook as it is shown: its kind, an arrow and its address.
    pub fn to_string(&self) -> (r: Vec<u8>)
        ensures
            r@ == ascii("Discord => "@) + self@,
    {
        proof {
            reveal_strlit("Discord => ");
        }
        let mut out: Vec<u8> = Vec::new();
        push_bytes(&mut out, ascii_bytes("Discord => "));
        push_bytes(&mut out, self.url());
        out
    }
}

/// What a search is asked for.
#[derive(Clone, Debug)]
pub struct Find {
    /// How often the flag for more output was given.
    pub verbose: u8,
    /// The key of the file to search in, if the first word is one, and the
    /// needles.
    pub args: Vec<Vec<u8>>,
    /// The part of a scope's name by which scopes are chosen.
    pub program: Option<Vec<u8>>,
    /// The number of results asked for.
    pub number: usize,
}

impl Find {
    /// The search for one word in all scopes, with the usual number of
    /// results and no more output.
    pub fn from(name: &[u8]) -> (r: Find)
        ensures
            r.number == 1000000000,
            r.verbose == 0,
            r.program is None,
            vec_views(r.args@) == seq![name@],
    {
        let mut args: Vec<Vec<u8>> = Vec::new();
        args.push(vstd::slice::slice_to_vec(name));
        assert(vec_views(args@) =~= seq![name@]);
        Find { number: 1000000000, verbose: 0, program: None, args }
    }
}

/// The subcommands.
#[derive(Clone, Debug)]
pub enum Sub {
    /// A search.
    Find(Box<Find>),
}

/// The command line as it was read.
#[derive(Clone, Debug)]
pub struct Cli {
    /// Whether to say little.
    pub quiet: bool,
    /// Whether to send no report of new entries.
    pub notification: bool,
    /// The name of the scope.
    pub name: Option<Vec<u8>>,
    /// The words after the name.
    pub args: Vec<Vec<u8>>,
    /// The directory under which the scopes are kept.
    pub path: Option<Vec<u8>>,
    /// The webhooks that were given.
    pub webhooks: Vec<WebHook>,
    /// The subcommand, if one was given.
    pub find: Option<Sub>,
}

/// What a run is asked to do.
#[derive(Clone, Debug)]
pub struct Config {
    /// Whether to say little.
    pub quiet: bool,
    /// Whether to send no report of new entries.
    pub notification: bool,
    /// Whether words were piped in.
    pub piped: bool,
    /// The name of the scope.
    pub name: Option<Vec<u8>>,
    /// The words after the name, and those that were piped in.
    pub args: Vec<Vec<u8>>,
    /// The directory under which the scopes are kept.
    pub path: Vec<u8>,
    /// The webhooks that were given and those of the configuration file.
    pub webhooks: Vec<WebHook>,
    /// The subcommand, if one was given.
    pub find: Option<Sub>,
}

/// The addresses of the webhooks of a sequence.
pub open spec fn hook_views(v: Seq<WebHook>) -> Seq<Seq<u8>> {
    Seq::new(v.len(), |i: int| v[i]@)
}

/// The webhooks among the words of a configuration file, in order.
pub open spec fn file_hooks(words: Seq<Seq<u8>>) -> Seq<Seq<u8>>
    decreases words.len(),
{
    if words.len() == 0 {
        Seq::empty()
    } else {
        let rest = file_hooks(words.drop_last());
        match webhook_of(words.last()) {
            Ok(url) => rest.push(url),
            Err(_) => rest,
        }
    }
}

/// The directory that a configuration file names: its last word that is
/// no webhook, or `start` where it has no such word.
pub open spec fn file_path(words: Seq<Seq<u8>>, start: Seq<u8>) -> Seq<u8>
    decreases words.len(),
{
    if words.len() == 0 {
        start
    } else {
        match webhook_of(words.last()) {
            Ok(_) => file_path(words.drop_last(), start),
            Err(_) => words.last(),
        }
    }
}

/// The directory that the command line gives: the one that was named where
/// it is a directory, else the current one.
pub open spec fn cli_path(path: Option<Seq<u8>>, is_dir: bool) -> Seq<u8> {
    match path {
        Some(p) => if is_dir {
            p
        } else {
            ascii("."@)
        },
        None => ascii("."@),
    }
}

impl Config {
    /// Puts the configuration together. `path_is_dir` says whether the path
    /// of the command line, if it gave one, is a directory. `file` is what
    /// the configuration file holds, `piped` what was piped in, if anything
    /// was. The directory is the last word of the file that is no webhook;
    /// without such a word it is the one of the command line. The webhooks
    /// of the file follow those of the command line, and the words that were
    /// piped in follow its words.
    pub fn parse(cli: Cli, path_is_dir: bool, file: &[u8], piped: Option<&[u8]>) -> (r: Config)
        ensures
            r.quiet == cli.quiet,
            r.notification == cli.notification,
            r.name == cli.name,
            r.find == cli.find,
            r.piped == (piped is Some),
            r.path@ == file_path(
                words_of(file@),
                cli_path(
                    match cli.path {
                        Some(p) => Some(p@),
                        None => None,
                    },
                    path_is_dir,
                ),
            ),
            hook_views(r.webhooks@) == hook_views(cli.webhooks@) + file_hooks(words_of(file@)),
            vec_views(r.args@) == vec_views(cli.args@) + match piped {
                Some(p) => words_of(p@),
                None => Seq::empty(),
            },
    {
        let Cli { quiet, notification, name, args, path, webhooks, find } = cli;
        let ghost first_hooks = hook_views(webhooks@);
        let ghost first_args = vec_views(args@);
        let mut webhooks = webhooks;
        let mut args = args;
        proof {
            reveal_strlit(".");
        }
        let mut path: Vec<u8> = match path {
            Some(p) => if path_is_dir {
                p
            } else {
                vstd::slice::slice_to_vec(ascii_bytes("."))
            },
            None => vstd::slice::slice_to_vec(ascii_bytes(".")),
        };
        let ghost start = path@;
        let lines = words(file);
        let ghost all = words_of(file@);
        let mut k: usize = 0;
        assert(hook_views(webhooks@) =~= first_hooks + file_hooks(all.take(0)));
        while k < lines.len()
            invariant
                k <= lines@.len(),
                all == vec_views(lines@),
                path@ == file_path(all.take(k as int), start),
                hook_views(webhooks@) == first_hooks + file_hooks(all.take(k as int)),
            decreases lines@.len() - k,
        {
            proof {
                assert(all.take(k as int + 1).drop_last() =~= all.take(k as int));
                assert(all.take(k as int + 1).last() == lines@[k as int]@);
            }
            match WebHook::from_str(lines[k].as_slice()) {
                Ok(w) => {
                    proof {
                        let hooks = file_hooks(all.take(k as int));
                        assert(hook_views(webhooks@.push(w)) =~= hook_views(webhooks@).push(w@));
                        assert((first_hooks + hooks).push(w@) =~= first_hooks + hooks.push(w@));
                    }
                    webhooks.push(w);
                },
                Err(_) => {
                    path = vstd::slice::slice_to_vec(lines[k].as_slice());
                },
            }
            k += 1;
        }
        assert(all.take(lines@.len() as int) =~= all);
        let is_piped = piped.is_some();
        match piped {
            Some(p) => {
                let mut more = words(p);
                let ghost added = more@;
                args.append(&mut more);
                assert(vec_views(args@) =~= first_args + vec_views(added));
            },
            None => {
                assert(vec_views(args@) =~= first_args + Seq::<Seq<u8>>::empty());
            },
        }
        Config { quiet, notification, piped: is_piped, name, args, path, webhooks, find }
    }
}

} // verus!
