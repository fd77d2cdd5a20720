//! Whole steps on stored files: an import into a scope with all that it
//! writes, the merge of entries into one file, and the configuration file.

use crate::bytes::push_bytes;
use crate::database::{
    domain_file,
    import_all,
    ip_file,
    lemma_import_tidy,
    lemma_load_tidy,
    lines_only,
    load,
    load_ip,
    other_file,
    DataBase,
    Store,
};
use crate::delta::{lemma_import_again, with_new};
use crate::lines::{file_lines, force_write, join, lines_of, vec_views};
use crate::log::{append, append_bytes, appended, audit_lines, last_byte, log_lines, message, report};
use crate::lines::{all_lines, is_line, lemma_file_lines_are_lines, lemma_lines_round_trip};
use crate::tokens::{entries_of, TokenSet};
use vstd::prelude::*;

verus! {

/// What an import into a scope leaves to be written.
pub struct Inserted {
    /// What the address file is to hold.
    pub ip: Vec<u8>,
    /// What the file of domain names is to hold.
    pub domain: Vec<u8>,
    /// What the file of other tokens is to hold.
    pub other: Vec<u8>,
    /// The tokens that were new, in dictionary order.
    pub new: Vec<Vec<u8>>,
    /// The bytes to append to the audit log.
    pub log: Vec<u8>,
    /// The report to send to the webhooks, if one is to be sent.
    pub message: Option<Vec<u8>>,
}

/// Imports tokens into a scope. `ip`, `domain` and `other` are what the
/// three files of the scope hold, `log_end` is the last byte of the audit
/// log or `None` for an empty log, `time` is the time to write into the
/// log. The result holds what the three files are to hold afterwards; the
/// tokens that were new; a line of the audit log for each of them; and,
/// where `notify` is set and a token was new, the report of the new tokens.
/// Where the tokens that are neither blocks nor domain names can stand as
/// lines, the files read back as the store that was written, and a second
/// import of the same tokens into them adds nothing and changes nothing.
pub fn insert(
    ip: &[u8],
    domain: &[u8],
    other: &[u8],
    log_end: Option<u8>,
    program: &[u8],
    args: Vec<Vec<u8>>,
    time: &[u8],
    notify: bool,
) -> (r: Inserted)
    ensures
        vec_views(r.new@) == entries_of(
            import_all(load(ip@, domain@, other@), vec_views(args@)).new,
        ),
        r.ip@ == ip_file(import_all(load(ip@, domain@, other@), vec_views(args@))),
        r.domain@ == domain_file(import_all(load(ip@, domain@, other@), vec_views(args@))),
        r.other@ == other_file(import_all(load(ip@, domain@, other@), vec_views(args@))),
        load_ip(lines_of(r.ip@)) == import_all(load(ip@, domain@, other@), vec_views(args@)).ip,
        lines_only(vec_views(args@)) ==> load(r.ip@, r.domain@, r.other@) == (Store {
            new: Set::empty(),
            ..import_all(load(ip@, domain@, other@), vec_views(args@))
        }),
        lines_only(vec_views(args@)) ==> import_all(
            load(r.ip@, r.domain@, r.other@),
            vec_views(args@),
        ) == load(r.ip@, r.domain@, r.other@),
        r.log@ == if r.new@.len() == 0 {
            Seq::<u8>::empty()
        } else {
            appended(log_end, log_lines(program@, vec_views(r.new@), time@))
        },
        match r.message {
            Some(m) => notify && r.new@.len() > 0 && m@ == report(program@, vec_views(r.new@)),
            None => !notify || r.new@.len() == 0,
        },
{
    let ghost wanted = vec_views(args@);
    let ghost before = load(ip@, domain@, other@);
    let db = DataBase::init(ip, domain, other).import(args);
    let mut ip_file: Vec<u8> = Vec::new();
    let mut domain_file: Vec<u8> = Vec::new();
    let mut other_file: Vec<u8> = Vec::new();
    db.write(&mut ip_file, &mut domain_file, &mut other_file);
    proof {
        if lines_only(wanted) {
            lemma_load_tidy(ip@, domain@, other@);
            lemma_import_tidy(before, wanted);
            let again = load(ip_file@, domain_file@, other_file@);
            lemma_import_again(before, wanted, Set::empty());
            assert(again == with_new(db@, Set::empty()));
        }
    }
    let new_lines = db.new().lines();
    let mut new: Vec<Vec<u8>> = Vec::new();
    let mut k: usize = 0;
    while k < new_lines.len()
        invariant
            k <= new_lines@.len(),
            new@.len() == k,
            forall|i: int| 0 <= i < k ==> (#[trigger] new@[i])@ == new_lines@[i]@,
        decreases new_lines@.len() - k,
    {
        new.push(vstd::slice::slice_to_vec(new_lines[k].as_slice()));
        k += 1;
    }
    assert(vec_views(new@) =~= vec_views(new_lines@));
    let mut log: Vec<u8> = Vec::new();
    let mut report_text: Option<Vec<u8>> = None;
    if new.len() > 0 {
        let lines = audit_lines(program, new.as_slice(), time);
        log = append_bytes(log_end, lines.as_slice());
        if notify {
            report_text = Some(message(program, &new));
        }
    }
    Inserted { ip: ip_file, domain: domain_file, other: other_file, new, log, message: report_text }
}

/// Merges entries into a stored file: the file then holds the entries that
/// it held and the given ones, each once, in dictionary order. Returns the
/// given entries that the file did not hold. Where the given entries can
/// stand as lines, the file reads back as just these entries.
pub fn save_as(assets: TokenSet, file: &mut Vec<u8>) -> (news: TokenSet)
    ensures
        news@ == assets@.difference(lines_of(old(file)@).to_set()),
        final(file)@ == join(entries_of(lines_of(old(file)@).to_set().union(assets@)), 0x0a),
        (forall|x: Seq<u8>| assets@.contains(x) ==> is_line(x)) ==> lines_of(final(file)@)
            == entries_of(lines_of(old(file)@).to_set().union(assets@)),
{
    let stored = file_lines(file.as_slice());
    let ghost held = lines_of(file@);
    let mut all = TokenSet::new();
    let mut k: usize = 0;
    assert(held.take(0).to_set() =~= Set::<Seq<u8>>::empty());
    while k < stored.len()
        invariant
            k <= stored@.len(),
            held == vec_views(stored@),
            all@ == held.take(k as int).to_set(),
        decreases stored@.len() - k,
    {
        proof {
            lemma_take_push(held, k as int);
        }
        all.insert(vstd::slice::slice_to_vec(stored[k].as_slice()));
        k += 1;
    }
    assert(held.take(stored@.len() as int) =~= held);
    let given = assets.lines();
    let ghost wanted = vec_views(given@);
    let mut news = TokenSet::new();
    let mut j: usize = 0;
    assert(wanted.take(0).to_set() =~= Set::<Seq<u8>>::empty());
    assert(news@ =~= wanted.take(0).to_set().difference(held.to_set()));
    assert(all@ =~= held.to_set().union(wanted.take(0).to_set()));
    while j < given.len()
        invariant
            j <= given@.len(),
            wanted == vec_views(given@),
            news@ == wanted.take(j as int).to_set().difference(held.to_set()),
            all@ == held.to_set().union(wanted.take(j as int).to_set()),
        decreases given@.len() - j,
    {
        proof {
            lemma_take_push(wanted, j as int);
        }
        let token = given[j].as_slice();
        if all.insert(vstd::slice::slice_to_vec(token)) {
            news.insert(vstd::slice::slice_to_vec(token));
        }
        proof {
            let t = wanted[j as int];
            let next = wanted.take(j as int + 1).to_set();
            assert(next == wanted.take(j as int).to_set().insert(t));
            assert(all@ =~= held.to_set().union(next));
            assert(news@ =~= next.difference(held.to_set()));
        }
        j += 1;
    }
    assert(wanted.take(given@.len() as int) =~= wanted);
    let merged = all.lines();
    force_write(file, merged);
    proof {
        let lines = vec_views(merged@);
        if forall|x: Seq<u8>| assets@.contains(x) ==> is_line(x) {
            lemma_file_lines_are_lines(old(file)@);
            assert forall|i: int| 0 <= i < lines.len() implies is_line(#[trigger] lines[i]) by {
                assert(lines.contains(lines[i]));
                assert(lines.to_set().contains(lines[i]));
                if held.to_set().contains(lines[i]) {
                    let w = choose|w: int| 0 <= w < held.len() && held[w] == lines[i];
                }
            }
            lemma_lines_round_trip(lines);
        }
    }
    news
}

/// The entries of a longer start of a sequence are those of the shorter
/// start and the next entry.
pub proof fn lemma_take_push(s: Seq<Seq<u8>>, k: int)
    requires
        0 <= k < s.len(),
    ensures
        s.take(k + 1).to_set() == s.take(k).to_set().insert(s[k]),
{
    let before = s.take(k);
    let after = s.take(k + 1);
    assert forall|x: Seq<u8>| after.to_set().contains(x) <==> before.to_set().insert(s[k]).contains(
        x,
    ) by {
        if after.contains(x) {
            let i = choose|i: int| 0 <= i < after.len() && after[i] == x;
            if i < k {
                assert(before[i] == x);
            }
        }
        if before.contains(x) {
            let i = choose|i: int| 0 <= i < before.len() && before[i] == x;
            assert(after[i] == x);
        }
        assert(after[k] == s[k]);
    }
    assert(after.to_set() =~= before.to_set().insert(s[k]));
}

/// Appends a directory to the configuration file, on a line of its own.
pub fn write_path(config: &mut Vec<u8>, path: &[u8])
    ensures
        final(config)@ == old(config)@ + appended(last_byte(old(config)@), seq![path@]),
{
    let mut lines: Vec<Vec<u8>> = Vec::new();
    lines.push(vstd::slice::slice_to_vec(path));
    assert(vec_views(lines@) =~= seq![path@]);
    append(config, lines.as_slice());
}

/// Makes the directory the only line of the configuration file.
pub fn set_path(config: &mut Vec<u8>, path: &[u8])
    ensures
        final(config)@ == path@ + seq![0x0au8],
{
    config.clear();
    push_bytes(config, path);
    config.push(0x0a);
}

} // verus!
