//! Entries that are merged into the stored files of a scope line by line,
//! without being read as blocks.

use crate::files::{lemma_take_push, save_as};
use crate::lines::{join, lines_of, vec_views};
use crate::tokens::{entries_of, TokenSet};
use vstd::prelude::*;

verus! {

/// Entries for the address file and for the file of domain names of a
/// scope.
pub struct Assets {
    ips: TokenSet,
    domains: TokenSet,
}

/// Puts byte strings into a set.
fn set_of(values: &Vec<Vec<u8>>) -> (r: TokenSet)
    ensures
        r@ == vec_views(values@).to_set(),
{
    let ghost all = vec_views(values@);
    let mut set = TokenSet::new();
    let mut k: usize = 0;
    assert(all.take(0).to_set() =~= Set::<Seq<u8>>::empty());
    while k < values.len()
        invariant
            k <= values@.len(),
            all == vec_views(values@),
            set@ == all.take(k as int).to_set(),
        decreases values@.len() - k,
    {
        proof {
            lemma_take_push(all, k as int);
        }
        set.insert(vstd::slice::slice_to_vec(values[k].as_slice()));
        k += 1;
    }
    assert(all.take(values@.len() as int) =~= all);
    set
}

impl Assets {
    /// The entries for the address file.
    pub closed spec fn ips(&self) -> Set<Seq<u8>> {
        self.ips@
    }

    /// The entries for the file of domain names.
    pub closed spec fn domains(&self) -> Set<Seq<u8>> {
        self.domains@
    }

    /// Entries of which each goes where it is said to go.
    pub fn new(ips: Vec<Vec<u8>>, domains: Vec<Vec<u8>>) -> (r: Assets)
        ensures
            r.ips() == vec_views(ips@).to_set(),
            r.domains() == vec_views(domains@).to_set(),
    {
        Assets { ips: set_of(&ips), domains: set_of(&domains) }
    }

    /// Entries that all go to the address file.
    pub fn from(value: Vec<Vec<u8>>) -> (r: Assets)
        ensures
            r.ips() == vec_views(value@).to_set(),
            r.domains() == Set::<Seq<u8>>::empty(),
    {
        Assets { ips: set_of(&value), domains: TokenSet::new() }
    }

    /// Merges the entries into the two files: each file then holds the
    /// entries that it held and the given ones, each once, in dictionary
    /// order. Returns the given entries that their file did not hold.
    pub fn save_as(self, ip: &mut Vec<u8>, domain: &mut Vec<u8>) -> (news: TokenSet)
        ensures
            final(ip)@ == join(entries_of(lines_of(old(ip)@).to_set().union(self.ips())), 0x0a),
            final(domain)@ == join(
                entries_of(lines_of(old(domain)@).to_set().union(self.domains())),
                0x0a,
            ),
            news@ == self.ips().difference(lines_of(old(ip)@).to_set()).union(
                self.domains().difference(lines_of(old(domain)@).to_set()),
            ),
    {
        let Assets { ips, domains } = self;
        let mut news = save_as(ips, ip);
        let more = save_as(domains, domain);
        let lines = more.lines();
        let ghost first = news@;
        let ghost all = vec_views(lines@);
        let mut k: usize = 0;
        assert(all.take(0).to_set() =~= Set::<Seq<u8>>::empty());
        assert(news@ =~= first.union(all.take(0).to_set()));
        while k < lines.len()
            invariant
                k <= lines@.len(),
                all == vec_views(lines@),
                news@ == first.union(all.take(k as int).to_set()),
            decreases lines@.len() - k,
        {
            proof {
                lemma_take_push(all, k as int);
            }
            news.insert(vstd::slice::slice_to_vec(lines[k].as_slice()));
            assert(news@ =~= first.union(all.take(k as int + 1).to_set()));
            k += 1;
        }
        assert(all.take(lines@.len() as int) =~= all);
        news
    }
}

} // verus!
