//! The store of one scope: three partitions of entries, and the record of
//! what an import has added.

use crate::canon::{block_views, canonical, coverage, Canonicalizer};
use crate::cidr::{parsed, Block, CidrBlock};
use crate::classify::{is_domain, is_hostname};
use crate::lines::{
    all_lines,
    file_lines,
    force_write,
    is_line,
    join,
    lemma_lines_round_trip,
    lines_of,
    vec_views,
};
use crate::nesting::lemma_size;
use crate::minimal::{canonical_of, lemma_canonical_of};
use crate::tokens::{entries_of, sorted, TokenSet};
use vstd::prelude::*;

verus! {

/// The mathematical content of a store.
pub struct Store {
    /// The addresses that the address partition covers, each with its
    /// family.
    pub ip: Set<(bool, nat)>,
    /// The entries of the domain partition.
    pub domain: Set<Seq<u8>>,
    /// The entries of the third partition.
    pub other: Set<Seq<u8>>,
    /// The tokens that were new when they were imported.
    pub new: Set<Seq<u8>>,
}

/// The store that holds nothing.
pub open spec fn empty_store() -> Store {
    Store { ip: Set::empty(), domain: Set::empty(), other: Set::empty(), new: Set::empty() }
}

/// A block is admitted where not all of its addresses are covered yet.
pub open spec fn admits(ip: Set<(bool, nat)>, b: Block) -> bool {
    !b.addresses().subset_of(ip)
}

/// Whether a token, which reads as the given block or as none, adds
/// something to the store.
pub open spec fn is_new(s: Store, token: Seq<u8>, block: Option<Block>) -> bool {
    match block {
        Some(b) => admits(s.ip, b),
        None => if is_hostname(token) {
            !s.domain.contains(token)
        } else {
            !s.other.contains(token)
        },
    }
}

/// The store after one token, which reads as the given block or as none,
/// was put in. A token that adds nothing leaves the store as it is. One that
/// adds something goes to the partition of its class and, where `track` is
/// set, to the record of new tokens.
pub open spec fn put(s: Store, token: Seq<u8>, block: Option<Block>, track: bool) -> Store {
    if !is_new(s, token, block) {
        s
    } else {
        let new = if track {
            s.new.insert(token)
        } else {
            s.new
        };
        match block {
            Some(b) => Store { ip: s.ip.union(b.addresses()), new, ..s },
            None => if is_hostname(token) {
                Store { domain: s.domain.insert(token), new, ..s }
            } else {
                Store { other: s.other.insert(token), new, ..s }
            },
        }
    }
}

/// The store after one token was imported.
pub open spec fn import_one(s: Store, token: Seq<u8>) -> Store {
    put(s, token, parsed(token), true)
}

/// The store after the tokens were imported one after the other.
pub open spec fn import_all(s: Store, tokens: Seq<Seq<u8>>) -> Store
    decreases tokens.len(),
{
    if tokens.len() == 0 {
        s
    } else {
        import_one(import_all(s, tokens.drop_last()), tokens.last())
    }
}

/// The addresses that the lines of a stored address file cover: those of
/// every line that reads as a block. A line that does not read as a block
/// adds nothing.
pub open spec fn load_ip(lines: Seq<Seq<u8>>) -> Set<(bool, nat)>
    decreases lines.len(),
{
    if lines.len() == 0 {
        Set::empty()
    } else {
        let ip = load_ip(lines.drop_last());
        match parsed(lines.last()) {
            Some(b) => ip.union(b.addresses()),
            None => ip,
        }
    }
}

/// The store that the three stored files of a scope stand for.
pub open spec fn load(ip: Seq<u8>, domain: Seq<u8>, other: Seq<u8>) -> Store {
    Store {
        ip: load_ip(lines_of(ip)),
        domain: lines_of(domain).to_set(),
        other: lines_of(other).to_set(),
        new: Set::empty(),
    }
}

/// Whether every entry of a store can stand as a line of a stored file, so
/// that it is read back as it was written.
pub open spec fn tidy(s: Store) -> bool {
    &&& forall|x: Seq<u8>| s.domain.contains(x) ==> is_line(x)
    &&& forall|x: Seq<u8>| s.other.contains(x) ==> is_line(x)
}

/// Empty files stand for the store that holds nothing.
pub proof fn lemma_load_empty()
    ensures
        load(Seq::empty(), Seq::empty(), Seq::empty()) == empty_store(),
{
    let e = Seq::<u8>::empty();
    crate::lines::lemma_lines_round_trip(Seq::<Seq<u8>>::empty());
    assert(join(Seq::<Seq<u8>>::empty(), 0x0a) =~= e);
    assert(lines_of(e) =~= Seq::<Seq<u8>>::empty());
    assert(lines_of(e).to_set() =~= Set::<Seq<u8>>::empty());
}

/// What is read from stored files can be written and read again.
pub proof fn lemma_load_tidy(ip: Seq<u8>, domain: Seq<u8>, other: Seq<u8>)
    ensures
        tidy(load(ip, domain, other)),
{
    crate::lines::lemma_file_lines_are_lines(domain);
    crate::lines::lemma_file_lines_are_lines(other);
    let s = load(ip, domain, other);
    assert forall|x: Seq<u8>| s.domain.contains(x) implies is_line(x) by {
        let i = choose|i: int| 0 <= i < lines_of(domain).len() && lines_of(domain)[i] == x;
    }
    assert forall|x: Seq<u8>| s.other.contains(x) implies is_line(x) by {
        let i = choose|i: int| 0 <= i < lines_of(other).len() && lines_of(other)[i] == x;
    }
}

/// An import keeps a store fit to be written and read again, where those
/// of its tokens that are neither blocks nor domain names can stand as
/// lines. Blocks and domain names always can.
pub proof fn lemma_import_tidy(s: Store, tokens: Seq<Seq<u8>>)
    requires
        tidy(s),
        lines_only(tokens),
    ensures
        tidy(import_all(s, tokens)),
    decreases tokens.len(),
{
    if tokens.len() > 0 {
        let front = tokens.drop_last();
        assert forall|i: int|
            0 <= i < front.len() && parsed(#[trigger] front[i]) is None && !is_hostname(
                front[i],
            ) implies is_line(front[i]) by {
            assert(front[i] == tokens[i]);
        }
        lemma_import_tidy(s, front);
        let t = tokens[tokens.len() - 1];
        if parsed(t) is None && is_hostname(t) {
            crate::classify::lemma_hostname_is_line(t);
        }
    }
}

/// The blocks in CIDR notation, one text for each.
pub open spec fn block_texts(blocks: Seq<Block>) -> Seq<Seq<u8>> {
    Seq::new(blocks.len(), |i: int| blocks[i].text())
}

/// What the address file of a store holds: the canonical blocks of what is
/// covered, in CIDR notation, one on each line.
pub open spec fn ip_file(s: Store) -> Seq<u8> {
    join(block_texts(canonical_of(s.ip)), 0x0a)
}

/// What the file of domain names of a store holds: the entries in
/// dictionary order, one on each line.
pub open spec fn domain_file(s: Store) -> Seq<u8> {
    join(entries_of(s.domain), 0x0a)
}

/// What the file of other tokens of a store holds: the entries in
/// dictionary order, one on each line.
pub open spec fn other_file(s: Store) -> Seq<u8> {
    join(entries_of(s.other), 0x0a)
}

/// Whether every token that is neither a block nor a domain name can stand
/// as a line of a stored file.
pub open spec fn lines_only(tokens: Seq<Seq<u8>>) -> bool {
    forall|i: int|
        0 <= i < tokens.len() && parsed(#[trigger] tokens[i]) is None && !is_hostname(tokens[i])
            ==> is_line(tokens[i])
}

/// Reading the texts of a canonical list of blocks covers what the list
/// covers.
pub proof fn lemma_load_blocks(blocks: Seq<Block>, texts: Seq<Seq<u8>>)
    requires
        canonical(blocks),
        texts.len() == blocks.len(),
        forall|i: int| 0 <= i < texts.len() ==> parsed(#[trigger] texts[i]) == Some(blocks[i]),
    ensures
        load_ip(texts) == coverage(blocks),
    decreases texts.len(),
{
    if texts.len() == 0 {
        assert(coverage(blocks) =~= Set::<(bool, nat)>::empty());
    } else {
        let n = texts.len() - 1;
        let bf = blocks.drop_last();
        let tf = texts.drop_last();
        let b = blocks[n];
        assert(canonical(bf)) by {
            assert forall|x: int| 0 <= x < bf.len() implies (#[trigger] bf[x]).wf() by {
                assert(bf[x] == blocks[x]);
            }
            assert forall|x: int, y: int| 0 <= x < y < bf.len() implies crate::canon::ordered(
                #[trigger] bf[x],
                #[trigger] bf[y],
            ) by {
                assert(bf[x] == blocks[x] && bf[y] == blocks[y]);
            }
            assert forall|x: int, y: int|
                0 <= x < bf.len() && 0 <= y < bf.len() implies !crate::canon::halves(
                #[trigger] bf[x],
                #[trigger] bf[y],
            ) by {
                assert(bf[x] == blocks[x] && bf[y] == blocks[y]);
            }
        }
        assert forall|i: int| 0 <= i < tf.len() implies parsed(#[trigger] tf[i]) == Some(bf[i]) by {
            assert(tf[i] == texts[i] && bf[i] == blocks[i]);
        }
        lemma_load_blocks(bf, tf);
        assert(parsed(texts[n]) == Some(b));
        assert(b.wf());
        lemma_size(b);
        assert forall|p: (bool, nat)| coverage(blocks).contains(p) <==> coverage(bf).union(
            b.addresses(),
        ).contains(p) by {
            if crate::canon::covered(blocks, p.0, p.1) {
                let x = choose|x: int|
                    0 <= x < blocks.len() && (#[trigger] blocks[x]).contains(p.0, p.1);
                if x < n {
                    assert(bf[x] == blocks[x]);
                }
            }
            if crate::canon::covered(bf, p.0, p.1) {
                let x = choose|x: int| 0 <= x < bf.len() && (#[trigger] bf[x]).contains(p.0, p.1);
                assert(blocks[x] == bf[x]);
            }
            if b.contains(p.0, p.1) {
                assert(blocks[n].contains(p.0, p.1));
            }
        }
        assert(coverage(blocks) =~= coverage(bf).union(b.addresses()));
    }
}

/// The store of one scope.
pub struct DataBase {
    ip: Canonicalizer,
    domain: TokenSet,
    other: TokenSet,
    new: TokenSet,
}

impl View for DataBase {
    type V = Store;

    closed spec fn view(&self) -> Store {
        Store { ip: self.ip@, domain: self.domain@, other: self.other@, new: self.new@ }
    }
}

/// Reads the entries of a stored file into a set.
fn load_set(content: &[u8]) -> (r: TokenSet)
    ensures
        r@ == lines_of(content@).to_set(),
{
    let lines = file_lines(content);
    let mut set = TokenSet::new();
    let ghost all = lines_of(content@);
    let mut k: usize = 0;
    assert(all.take(0).to_set() =~= Set::<Seq<u8>>::empty());
    while k < lines.len()
        invariant
            k <= lines@.len(),
            all == vec_views(lines@),
            set@ == all.take(k as int).to_set(),
        decreases lines@.len() - k,
    {
        let token = vstd::slice::slice_to_vec(lines[k].as_slice());
        proof {
            let before = all.take(k as int);
            let after = all.take(k as int + 1);
            assert(after =~= before.push(all[k as int]));
            assert forall|x: Seq<u8>| after.to_set().contains(x) <==> before.to_set().insert(
                all[k as int],
            ).contains(x) by {
                if after.contains(x) {
                    let i = choose|i: int| 0 <= i < after.len() && after[i] == x;
                    if i < k {
                        assert(before[i] == x);
                    }
                }
                if before.contains(x) {
                    let i = choose|i: int| 0 <= i < before.len() && before[i] == x;
                    assert(after[i] == x);
                }
                assert(after[k as int] == all[k as int]);
            }
            assert(after.to_set() =~= before.to_set().insert(all[k as int]));
        }
        set.insert(token);
        k += 1;
    }
    assert(all.take(lines@.len() as int) =~= all);
    set
}

/// Reads the blocks of a stored address file into a canonicalizer.
fn load_blocks(content: &[u8]) -> (r: Canonicalizer)
    ensures
        r@ == load_ip(lines_of(content@)),
{
    let lines = file_lines(content);
    let mut ip = Canonicalizer::new();
    let ghost all = lines_of(content@);
    let mut k: usize = 0;
    while k < lines.len()
        invariant
            k <= lines@.len(),
            all == vec_views(lines@),
            ip@ == load_ip(all.take(k as int)),
        decreases lines@.len() - k,
    {
        proof {
            let after = all.take(k as int + 1);
            assert(after.drop_last() =~= all.take(k as int));
            assert(after.last() == lines@[k as int]@);
        }
        match CidrBlock::parse(lines[k].as_slice()) {
            Some(block) => {
                ip.insert(block);
            },
            None => {},
        }
        k += 1;
    }
    assert(all.take(lines@.len() as int) =~= all);
    ip
}

impl DataBase {
    /// The store that the three stored files of a scope stand for. Nothing
    /// counts as new in it.
    pub fn init(ip: &[u8], domain: &[u8], other: &[u8]) -> (r: DataBase)
        ensures
            r@ == load(ip@, domain@, other@),
    {
        DataBase {
            ip: load_blocks(ip),
            domain: load_set(domain),
            other: load_set(other),
            new: TokenSet::new(),
        }
    }

    /// Puts in one token, which reads as the given block or as none.
    /// Returns whether it added something.
    pub fn insert(&mut self, token: &[u8], block: Option<CidrBlock>) -> (r: bool)
        ensures
            r == is_new(
                old(self)@,
                token@,
                match block {
                    Some(b) => Some(b@),
                    None => None,
                },
            ),
            final(self)@ == put(
                old(self)@,
                token@,
                match block {
                    Some(b) => Some(b@),
                    None => None,
                },
                true,
            ),
    {
        let added = match block {
            Some(b) => self.ip.insert(b),
            None => if is_domain(token) {
                self.domain.insert(vstd::slice::slice_to_vec(token))
            } else {
                self.other.insert(vstd::slice::slice_to_vec(token))
            },
        };
        if added {
            self.new.insert(vstd::slice::slice_to_vec(token));
        }
        proof {
            let ghost_block: Option<Block> = match block {
                Some(b) => Some(b@),
                None => None,
            };
            assert(self@.ip =~= put(old(self)@, token@, ghost_block, true).ip);
            assert(self@.domain =~= put(old(self)@, token@, ghost_block, true).domain);
            assert(self@.other =~= put(old(self)@, token@, ghost_block, true).other);
            assert(self@.new =~= put(old(self)@, token@, ghost_block, true).new);
        }
        added
    }

    /// Imports the tokens one after the other: each is classified and, if
    /// it adds something, goes to its partition and to the record of new
    /// tokens.
    pub fn import(self, args: Vec<Vec<u8>>) -> (r: DataBase)
        ensures
            r@ == import_all(self@, vec_views(args@)),
    {
        let mut db = self;
        let ghost all = vec_views(args@);
        let mut k: usize = 0;
        while k < args.len()
            invariant
                k <= args@.len(),
                all == vec_views(args@),
                db@ == import_all(self@, all.take(k as int)),
            decreases args@.len() - k,
        {
            proof {
                let after = all.take(k as int + 1);
                assert(after.drop_last() =~= all.take(k as int));
                assert(after.last() == args@[k as int]@);
            }
            let token = args[k].as_slice();
            let block = CidrBlock::parse(token);
            db.insert(token, block);
            k += 1;
        }
        assert(all.take(args@.len() as int) =~= all);
        db
    }

    /// The blocks of the address partition, in order.
    pub closed spec fn blocks(&self) -> Seq<Block> {
        self.ip.blocks()
    }

    /// The entries of the domain partition in dictionary order.
    pub closed spec fn domain_lines(&self) -> Seq<Seq<u8>> {
        self.domain.seq()
    }

    /// The entries of the third partition in dictionary order.
    pub closed spec fn other_lines(&self) -> Seq<Seq<u8>> {
        self.other.seq()
    }

    /// Writes the three partitions, each to its file. What a file held
    /// before is gone. The address file holds the canonical blocks in CIDR
    /// notation, the 32-bit ones first; the two others hold their entries in
    /// dictionary order. Each entry stands on a line of its own.
    pub fn write(&self, ip: &mut Vec<u8>, domain: &mut Vec<u8>, other: &mut Vec<u8>)
        ensures
            final(ip)@ == ip_file(self@),
            final(domain)@ == domain_file(self@),
            final(other)@ == other_file(self@),
            self.blocks() == canonical_of(self@.ip),
            canonical(self.blocks()),
            coverage(self.blocks()) == self@.ip,
            self.domain_lines() == entries_of(self@.domain),
            sorted(self.domain_lines()),
            self.domain_lines().to_set() == self@.domain,
            self.other_lines() == entries_of(self@.other),
            sorted(self.other_lines()),
            self.other_lines().to_set() == self@.other,
            lines_of(final(ip)@) == block_texts(self.blocks()),
            forall|i: int|
                0 <= i < self.blocks().len() ==> parsed(#[trigger] block_texts(self.blocks())[i])
                    == Some(self.blocks()[i]),
            load_ip(lines_of(final(ip)@)) == self@.ip,
            all_lines(self.domain_lines()) ==> lines_of(final(domain)@) == self.domain_lines(),
            all_lines(self.other_lines()) ==> lines_of(final(other)@) == self.other_lines(),
            tidy(self@) ==> load(final(ip)@, final(domain)@, final(other)@) == (Store {
                new: Set::empty(),
                ..self@
            }),
    {
        let blocks = self.ip.list();
        let mut texts: Vec<Vec<u8>> = Vec::new();
        let ghost all = self.blocks();
        let mut k: usize = 0;
        while k < blocks.len()
            invariant
                k <= blocks@.len(),
                all == block_views(blocks@),
                vec_views(texts@) =~= block_texts(all.take(k as int)),
                forall|i: int|
                    0 <= i < k ==> is_line(#[trigger] vec_views(texts@)[i]) && parsed(
                        vec_views(texts@)[i],
                    ) == Some(all[i]),
            decreases blocks@.len() - k,
        {
            let text = blocks[k].text();
            proof {
                assert(all[k as int] == blocks@[k as int]@);
                assert(vec_views(texts@.push(text)) =~= vec_views(texts@).push(text@));
                assert(block_texts(all.take(k as int + 1)) =~= block_texts(all.take(k as int)).push(
                    all[k as int].text(),
                ));
            }
            texts.push(text);
            k += 1;
        }
        assert(all.take(blocks@.len() as int) =~= all);
        force_write(ip, &texts);
        force_write(domain, self.domain.lines());
        force_write(other, self.other.lines());
        proof {
            let lines = vec_views(texts@);
            lemma_lines_round_trip(lines);
            lemma_load_blocks(all, lines);
            lemma_canonical_of(all);
            if tidy(self@) {
                let d = self.domain_lines();
                assert forall|i: int| 0 <= i < d.len() implies is_line(#[trigger] d[i]) by {
                    assert(d.contains(d[i]));
                    assert(d.to_set().contains(d[i]));
                }
                let o = self.other_lines();
                assert forall|i: int| 0 <= i < o.len() implies is_line(#[trigger] o[i]) by {
                    assert(o.contains(o[i]));
                    assert(o.to_set().contains(o[i]));
                }
            }
            if all_lines(self.domain_lines()) {
                lemma_lines_round_trip(self.domain_lines());
            }
            if all_lines(self.other_lines()) {
                lemma_lines_round_trip(self.other_lines());
            }
        }
    }

    /// The tokens that were new when they were imported.
    pub fn new(&self) -> (r: &TokenSet)
        ensures
            r@ == self@.new,
    {
        &self.new
    }

    /// The entries of the domain partition.
    pub fn domain(&self) -> (r: &TokenSet)
        ensures
            r@ == self@.domain,
    {
        &self.domain
    }

    /// The entries of the third partition.
    pub fn other(&self) -> (r: &TokenSet)
        ensures
            r@ == self@.other,
    {
        &self.other
    }

    /// The address partition.
    pub fn ip(&self) -> (r: &Canonicalizer)
        ensures
            r@ == self@.ip,
    {
        &self.ip
    }
}

} // verus!
