//! Searching the stored files of scopes: by substring in the files of
//! domain names and other tokens, by address in the file of address blocks.

use crate::bytes::{contains_sub, has_sub, push_bytes, trimmed, TrimAsciiWhitespace};
use crate::cidr::{parsed, Block, CidrBlock};
use crate::classify::Key;
use crate::lines::{newline, slice_views, split, split_on, vec_views, Separator};
use vstd::prelude::*;

verus! {

/// A line matches where no needle is given, or where one of the needles is
/// a part of it.
pub open spec fn line_matches(line: Seq<u8>, needles: Seq<Seq<u8>>) -> bool {
    needles.len() == 0 || exists|k: int|
        0 <= k < needles.len() && contains_sub(line, #[trigger] needles[k])
}

/// Whether a line is empty or made of whitespace alone.
pub open spec fn is_blank(line: Seq<u8>) -> bool {
    trimmed(line).len() == 0
}

/// The lines that are not blank and match, in order and as they stand.
pub open spec fn keep(lines: Seq<Seq<u8>>, needles: Seq<Seq<u8>>) -> Seq<Seq<u8>>
    decreases lines.len(),
{
    if lines.len() == 0 {
        Seq::empty()
    } else {
        let rest = keep(lines.drop_last(), needles);
        if !is_blank(lines.last()) && line_matches(lines.last(), needles) {
            rest.push(lines.last())
        } else {
            rest
        }
    }
}

/// The lines of a file that match the needles.
pub open spec fn found(content: Seq<u8>, needles: Seq<Seq<u8>>) -> Seq<Seq<u8>> {
    keep(split(content, newline()), needles)
}

/// Whether one of the needles is a part of the line, or none is given.
pub fn matches_any(line: &[u8], needles: &[Vec<u8>]) -> (r: bool)
    ensures
        r == line_matches(line@, vec_views(needles@)),
{
    if needles.len() == 0 {
        return true;
    }
    let ghost all = vec_views(needles@);
    let mut k: usize = 0;
    while k < needles.len()
        invariant
            k <= needles@.len(),
            all == vec_views(needles@),
            forall|j: int| 0 <= j < k ==> !contains_sub(line@, #[trigger] all[j]),
        decreases needles@.len() - k,
    {
        assert(all[k as int] == needles@[k as int]@);
        if has_sub(line, needles[k].as_slice()) {
            return true;
        }
        k += 1;
    }
    false
}

/// Search in a byte string that holds lines.
pub trait Memfind {
    /// The bytes that are searched.
    spec fn content(&self) -> Seq<u8>;

    /// The lines that are not blank and of which one of the needles is a
    /// part, or all lines that are not blank where no needle is given. The
    /// lines come in their order and as they stand in the file.
    fn find(&self, needles: &[Vec<u8>]) -> (r: Vec<&[u8]>)
        ensures
            slice_views(r@) == found(self.content(), vec_views(needles@)),
    ;
}

impl Memfind for [u8] {
    open spec fn content(&self) -> Seq<u8> {
        self@
    }

    fn find(&self, needles: &[Vec<u8>]) -> (r: Vec<&[u8]>) {
        let lines = split_on(self, Separator::Byte(0x0a));
        let ghost all = slice_views(lines@);
        let ghost wanted = vec_views(needles@);
        let mut out: Vec<&[u8]> = Vec::new();
        let mut k: usize = 0;
        assert(slice_views(out@) =~= keep(all.take(0), wanted));
        while k < lines.len()
            invariant
                k <= lines@.len(),
                all == slice_views(lines@),
                wanted == vec_views(needles@),
                slice_views(out@) == keep(all.take(k as int), wanted),
            decreases lines@.len() - k,
        {
            let line = lines[k];
            proof {
                assert(all.take(k as int + 1).drop_last() =~= all.take(k as int));
                assert(all.take(k as int + 1).last() == line@);
            }
            if line.trim_ascii_whitespace().len() > 0 && matches_any(line, needles) {
                assert(slice_views(out@.push(line)) =~= slice_views(out@).push(line@));
                out.push(line);
            }
            k += 1;
        }
        assert(all.take(lines@.len() as int) =~= all);
        out
    }
}

impl Memfind for Vec<u8> {
    open spec fn content(&self) -> Seq<u8> {
        self@
    }

    fn find(&self, needles: &[Vec<u8>]) -> (r: Vec<&[u8]>) {
        self.as_slice().find(needles)
    }
}

/// The blocks that the texts stand for, in order; a text that stands for
/// none is left out.
pub open spec fn blocks_of(texts: Seq<Seq<u8>>) -> Seq<Block>
    decreases texts.len(),
{
    if texts.len() == 0 {
        Seq::empty()
    } else {
        let rest = blocks_of(texts.drop_last());
        match parsed(texts.last()) {
            Some(b) => rest.push(b),
            None => rest,
        }
    }
}

/// A stored block meets a needle where it holds the first or the last
/// address of the needle.
pub open spec fn meets(block: Block, needle: Block) -> bool {
    block.contains(needle.v6, needle.first()) || block.contains(needle.v6, needle.last())
}

/// A separator of the parts of a line of output: a bar between two spaces.
pub open spec fn bar() -> Seq<u8> {
    seq![0x20u8, 0x7cu8, 0x20u8]
}

/// The line of output for a stored line that matched.
pub open spec fn show_line(scope: Seq<u8>, line: Seq<u8>, verbose: bool) -> Seq<u8> {
    if verbose {
        scope + bar() + line
    } else {
        line
    }
}

/// The line of output for a stored block that met a needle.
pub open spec fn show_block(scope: Seq<u8>, block: Block, needle: Block, verbose: bool) -> Seq<
    u8,
> {
    if verbose {
        scope + bar() + block.text() + bar() + needle.text()
    } else {
        block.text()
    }
}

/// The output for one stored block: a line for each needle that it meets,
/// in the order of the needles.
pub open spec fn block_hits(scope: Seq<u8>, block: Block, needles: Seq<Block>, verbose: bool) -> Seq<
    Seq<u8>,
>
    decreases needles.len(),
{
    if needles.len() == 0 {
        Seq::empty()
    } else {
        let rest = block_hits(scope, block, needles.drop_last(), verbose);
        if meets(block, needles.last()) {
            rest.push(show_block(scope, block, needles.last(), verbose))
        } else {
            rest
        }
    }
}

/// The output for the stored blocks, block after block.
pub open spec fn blocks_hits(
    scope: Seq<u8>,
    blocks: Seq<Block>,
    needles: Seq<Block>,
    verbose: bool,
) -> Seq<Seq<u8>>
    decreases blocks.len(),
{
    if blocks.len() == 0 {
        Seq::empty()
    } else {
        blocks_hits(scope, blocks.drop_last(), needles, verbose) + block_hits(
            scope,
            blocks.last(),
            needles,
            verbose,
        )
    }
}

/// The output for the matching lines, line after line.
pub open spec fn show_lines(scope: Seq<u8>, lines: Seq<Seq<u8>>, verbose: bool) -> Seq<Seq<u8>> {
    Seq::new(lines.len(), |i: int| show_line(scope, lines[i], verbose))
}

/// The output of a search in the address file of a scope. The lines of the
/// file that are not blank are read as blocks, and so are the needles; what
/// does not read as a block is passed over.
pub open spec fn found_blocks(
    scope: Seq<u8>,
    content: Seq<u8>,
    needles: Seq<Seq<u8>>,
    verbose: bool,
) -> Seq<Seq<u8>> {
    blocks_hits(
        scope,
        blocks_of(found(content, Seq::empty())),
        blocks_of(needles),
        verbose,
    )
}

/// The output of a search in a file of domain names or other tokens.
pub open spec fn found_lines(
    scope: Seq<u8>,
    content: Seq<u8>,
    needles: Seq<Seq<u8>>,
    verbose: bool,
) -> Seq<Seq<u8>> {
    show_lines(scope, found(content, needles), verbose)
}

/// Reads each text as a block and leaves out those that stand for none.
pub fn parse_blocks(texts: &[&[u8]]) -> (r: Vec<CidrBlock>)
    ensures
        crate::canon::block_views(r@) == blocks_of(slice_views(texts@)),
{
    let ghost all = slice_views(texts@);
    let mut out: Vec<CidrBlock> = Vec::new();
    let mut k: usize = 0;
    assert(crate::canon::block_views(out@) =~= blocks_of(all.take(0)));
    while k < texts.len()
        invariant
            k <= texts@.len(),
            all == slice_views(texts@),
            crate::canon::block_views(out@) == blocks_of(all.take(k as int)),
        decreases texts@.len() - k,
    {
        proof {
            assert(all.take(k as int + 1).drop_last() =~= all.take(k as int));
            assert(all.take(k as int + 1).last() == texts@[k as int]@);
        }
        match CidrBlock::parse(texts[k]) {
            Some(b) => {
                assert(crate::canon::block_views(out@.push(b)) =~= crate::canon::block_views(
                    out@,
                ).push(b@));
                out.push(b);
            },
            None => {},
        }
        k += 1;
    }
    assert(all.take(texts@.len() as int) =~= all);
    out
}

/// The byte strings as slices.
pub fn as_slices(v: &[Vec<u8>]) -> (r: Vec<&[u8]>)
    ensures
        slice_views(r@) == vec_views(v@),
{
    let mut out: Vec<&[u8]> = Vec::new();
    let mut k: usize = 0;
    while k < v.len()
        invariant
            k <= v@.len(),
            out@.len() == k,
            forall|i: int| 0 <= i < k ==> (#[trigger] out@[i])@ == v@[i]@,
        decreases v@.len() - k,
    {
        out.push(v[k].as_slice());
        k += 1;
    }
    assert(slice_views(out@) =~= vec_views(v@));
    out
}

/// Puts the line of output for a stored line together.
pub fn render_line(scope: &[u8], line: &[u8], verbose: bool) -> (r: Vec<u8>)
    ensures
        r@ == show_line(scope@, line@, verbose),
{
    let mut out: Vec<u8> = Vec::new();
    if verbose {
        push_bytes(&mut out, scope);
        out.push(0x20);
        out.push(0x7c);
        out.push(0x20);
    }
    push_bytes(&mut out, line);
    assert(out@ =~= show_line(scope@, line@, verbose));
    out
}

/// Puts the line of output for a stored block and a needle together.
pub fn render_block(scope: &[u8], block: &CidrBlock, needle: &CidrBlock, verbose: bool) -> (r: Vec<
    u8,
>)
    ensures
        r@ == show_block(scope@, block@, needle@, verbose),
{
    let text = block.text();
    if !verbose {
        return text;
    }
    let mut out: Vec<u8> = Vec::new();
    push_bytes(&mut out, scope);
    out.push(0x20);
    out.push(0x7c);
    out.push(0x20);
    push_bytes(&mut out, text.as_slice());
    out.push(0x20);
    out.push(0x7c);
    out.push(0x20);
    let other = needle.text();
    push_bytes(&mut out, other.as_slice());
    assert(out@ =~= show_block(scope@, block@, needle@, verbose));
    out
}

/// Searches the address file of a scope: each line that reads as a block
/// is held against each needle that reads as one.
pub fn search_blocks(scope: &[u8], content: &[u8], needles: &[Vec<u8>], verbose: bool) -> (r: Vec<
    Vec<u8>,
>)
    ensures
        vec_views(r@) == found_blocks(scope@, content@, vec_views(needles@), verbose),
{
    let wanted_texts = as_slices(needles);
    let wanted = parse_blocks(wanted_texts.as_slice());
    let none: Vec<Vec<u8>> = Vec::new();
    assert(vec_views(none@) =~= Seq::<Seq<u8>>::empty());
    let lines = content.find(none.as_slice());
    let stored = parse_blocks(lines.as_slice());
    let ghost bs = crate::canon::block_views(stored@);
    let ghost ns = crate::canon::block_views(wanted@);
    let mut out: Vec<Vec<u8>> = Vec::new();
    let mut i: usize = 0;
    assert(vec_views(out@) =~= blocks_hits(scope@, bs.take(0), ns, verbose));
    while i < stored.len()
        invariant
            i <= stored@.len(),
            bs == crate::canon::block_views(stored@),
            ns == crate::canon::block_views(wanted@),
            vec_views(out@) == blocks_hits(scope@, bs.take(i as int), ns, verbose),
        decreases stored@.len() - i,
    {
        let block = stored[i];
        let ghost before = vec_views(out@);
        let mut j: usize = 0;
        assert(vec_views(out@) =~= before + block_hits(scope@, block@, ns.take(0), verbose));
        while j < wanted.len()
            invariant
                j <= wanted@.len(),
                ns == crate::canon::block_views(wanted@),
                vec_views(out@) == before + block_hits(scope@, block@, ns.take(j as int), verbose),
            decreases wanted@.len() - j,
        {
            let needle = wanted[j];
            proof {
                assert(ns.take(j as int + 1).drop_last() =~= ns.take(j as int));
                assert(ns.take(j as int + 1).last() == needle@);
            }
            let first = needle.first();
            let last = needle.last();
            let v6 = needle.is_v6();
            if block.contains(v6, first) || block.contains(v6, last) {
                let line = render_block(scope, &block, &needle, verbose);
                proof {
                    let hits = block_hits(scope@, block@, ns.take(j as int), verbose);
                    assert(vec_views(out@.push(line)) =~= vec_views(out@).push(line@));
                    assert((before + hits).push(line@) =~= before + hits.push(line@));
                }
                out.push(line);
            }
            j += 1;
        }
        proof {
            assert(ns.take(wanted@.len() as int) =~= ns);
            assert(bs.take(i as int + 1).drop_last() =~= bs.take(i as int));
            assert(bs.take(i as int + 1).last() == block@);
        }
        i += 1;
    }
    assert(bs.take(stored@.len() as int) =~= bs);
    out
}

/// Searches a file of domain names or other tokens for the needles.
pub fn search_lines(scope: &[u8], content: &[u8], needles: &[Vec<u8>], verbose: bool) -> (r: Vec<
    Vec<u8>,
>)
    ensures
        vec_views(r@) == found_lines(scope@, content@, vec_views(needles@), verbose),
{
    let lines = content.find(needles);
    let ghost all = slice_views(lines@);
    let mut out: Vec<Vec<u8>> = Vec::new();
    let mut k: usize = 0;
    while k < lines.len()
        invariant
            k <= lines@.len(),
            all == slice_views(lines@),
            out@.len() == k,
            forall|i: int| 0 <= i < k ==> (#[trigger] out@[i])@ == show_line(scope@, all[i], verbose),
        decreases lines@.len() - k,
    {
        let line = render_line(scope, lines[k], verbose);
        assert(all[k as int] == lines@[k as int]@);
        out.push(line);
        k += 1;
    }
    assert(vec_views(out@) =~= show_lines(scope@, all, verbose));
    out
}

/// The mathematical content of the stored files of one scope.
pub struct ScopeFiles {
    /// The name of the scope.
    pub name: Seq<u8>,
    /// What the address file holds.
    pub ip: Seq<u8>,
    /// What the file of domain names holds.
    pub domain: Seq<u8>,
    /// What the file of other tokens holds.
    pub other: Seq<u8>,
}

/// The stored files of one scope. A file that does not exist is given as
/// an empty one.
pub struct Scope<'a> {
    /// The name of the scope.
    pub name: &'a [u8],
    /// What the address file holds.
    pub ip: &'a [u8],
    /// What the file of domain names holds.
    pub domain: &'a [u8],
    /// What the file of other tokens holds.
    pub other: &'a [u8],
}

impl<'a> View for Scope<'a> {
    type V = ScopeFiles;

    open spec fn view(&self) -> ScopeFiles {
        ScopeFiles { name: self.name@, ip: self.ip@, domain: self.domain@, other: self.other@ }
    }
}

/// The mathematical content of each scope of a sequence.
pub open spec fn scope_views(v: Seq<Scope>) -> Seq<ScopeFiles> {
    Seq::new(v.len(), |i: int| v[i]@)
}

/// A scope is searched where no filter is given, or where the filter is a
/// part of its name.
pub open spec fn selected(name: Seq<u8>, filter: Option<Seq<u8>>) -> bool {
    match filter {
        Some(f) => contains_sub(name, f),
        None => true,
    }
}

/// The output of a search in one file of a scope.
pub open spec fn found_in(
    scope: ScopeFiles,
    key: Key,
    needles: Seq<Seq<u8>>,
    verbose: bool,
) -> Seq<Seq<u8>> {
    match key {
        Key::Ip => found_blocks(scope.name, scope.ip, needles, verbose),
        Key::Domain => found_lines(scope.name, scope.domain, needles, verbose),
        Key::Other => found_lines(scope.name, scope.other, needles, verbose),
    }
}

/// The output of a search in one scope: in the file that the key names,
/// or, where none is named, in all three, addresses first and other tokens
/// last.
pub open spec fn found_in_scope(
    scope: ScopeFiles,
    key: Option<Key>,
    needles: Seq<Seq<u8>>,
    verbose: bool,
) -> Seq<Seq<u8>> {
    match key {
        Some(k) => found_in(scope, k, needles, verbose),
        None => found_in(scope, Key::Ip, needles, verbose) + found_in(
            scope,
            Key::Domain,
            needles,
            verbose,
        ) + found_in(scope, Key::Other, needles, verbose),
    }
}

/// The output of a search over scopes: that of each selected scope, in the
/// order of the scopes.
pub open spec fn found_all(
    scopes: Seq<ScopeFiles>,
    filter: Option<Seq<u8>>,
    key: Option<Key>,
    needles: Seq<Seq<u8>>,
    verbose: bool,
) -> Seq<Seq<u8>>
    decreases scopes.len(),
{
    if scopes.len() == 0 {
        Seq::empty()
    } else {
        let rest = found_all(scopes.drop_last(), filter, key, needles, verbose);
        if selected(scopes.last().name, filter) {
            rest + found_in_scope(scopes.last(), key, needles, verbose)
        } else {
            rest
        }
    }
}

/// Moves the lines of `more` to the end of `out`.
fn append_lines(out: &mut Vec<Vec<u8>>, more: Vec<Vec<u8>>)
    ensures
        vec_views(final(out)@) == vec_views(old(out)@) + vec_views(more@),
{
    let mut more = more;
    let ghost added = more@;
    out.append(&mut more);
    assert(vec_views(out@) =~= vec_views(old(out)@) + vec_views(added));
}

/// Searches one file of a scope.
pub fn search_file(scope: &Scope, key: Key, needles: &[Vec<u8>], verbose: bool) -> (r: Vec<Vec<u8>>)
    ensures
        vec_views(r@) == found_in(scope@, key, vec_views(needles@), verbose),
{
    match key {
        Key::Ip => search_blocks(scope.name, scope.ip, needles, verbose),
        Key::Domain => search_lines(scope.name, scope.domain, needles, verbose),
        Key::Other => search_lines(scope.name, scope.other, needles, verbose),
    }
}

/// Searches the stored files of the scopes. Only scopes of whose name the
/// filter is a part are searched, all where no filter is given. The key
/// names the file to search in, all three where none is given. In a file of
/// domain names or other tokens a line matches where a needle is a part of
/// it, or where no needle is given; in the address file a block matches a
/// needle where it holds the first or the last address of the needle.
/// With `verbose`, each line of output starts with the name of its scope.
pub fn search(
    scopes: &[Scope],
    filter: Option<&[u8]>,
    key: Option<Key>,
    needles: &[Vec<u8>],
    verbose: bool,
) -> (r: Vec<Vec<u8>>)
    ensures
        vec_views(r@) == found_all(
            scope_views(scopes@),
            match filter {
                Some(f) => Some(f@),
                None => None,
            },
            key,
            vec_views(needles@),
            verbose,
        ),
{
    let ghost all = scope_views(scopes@);
    let ghost wanted = vec_views(needles@);
    let ghost part: Option<Seq<u8>> = match filter {
        Some(f) => Some(f@),
        None => None,
    };
    let mut out: Vec<Vec<u8>> = Vec::new();
    let mut k: usize = 0;
    assert(vec_views(out@) =~= found_all(all.take(0), part, key, wanted, verbose));
    while k < scopes.len()
        invariant
            k <= scopes@.len(),
            all == scope_views(scopes@),
            wanted == vec_views(needles@),
            part == match filter {
                Some(f) => Some(f@),
                None => None,
            },
            vec_views(out@) == found_all(all.take(k as int), part, key, wanted, verbose),
        decreases scopes@.len() - k,
    {
        let scope = &scopes[k];
        proof {
            assert(all.take(k as int + 1).drop_last() =~= all.take(k as int));
            assert(all.take(k as int + 1).last() == scope@);
        }
        let wanted_scope = match filter {
            Some(f) => has_sub(scope.name, f),
            None => true,
        };
        if wanted_scope {
            match key {
                Some(key) => {
                    append_lines(&mut out, search_file(scope, key, needles, verbose));
                },
                None => {
                    let ghost before = vec_views(out@);
                    append_lines(&mut out, search_file(scope, Key::Ip, needles, verbose));
                    append_lines(&mut out, search_file(scope, Key::Domain, needles, verbose));
                    append_lines(&mut out, search_file(scope, Key::Other, needles, verbose));
                    assert(vec_views(out@) =~= before + found_in_scope(
                        scope@,
                        None,
                        wanted,
                        verbose,
                    ));
                },
            }
        }
        k += 1;
    }
    assert(all.take(scopes@.len() as int) =~= all);
    out
}

} // verus!
