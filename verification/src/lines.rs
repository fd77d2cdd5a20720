//! Text files as byte strings: splitting into pieces and lines, and joining
//! lines again.

use crate::bytes::{
    is_ascii_space,
    is_space,
    push_bytes,
    trim_end,
    trim_start,
    trimmed,
    TrimAsciiWhitespace,
};
use vstd::prelude::*;

verus! {

/// What separates the pieces of a byte string.
#[derive(Clone, Copy, Debug, PartialEq, Eq)]
pub enum Separator {
    /// One given byte.
    Byte(u8),
    /// Any byte of ASCII whitespace.
    Whitespace,
}

impl Separator {
    /// Whether `b` separates two pieces.
    pub open spec fn matches(self, b: u8) -> bool {
        match self {
            Separator::Byte(x) => b == x,
            Separator::Whitespace => is_space(b),
        }
    }

    /// Whether `b` separates two pieces.
    pub fn is_match(&self, b: u8) -> (r: bool)
        ensures
            r == self.matches(b),
    {
        match self {
            Separator::Byte(x) => b == *x,
            Separator::Whitespace => is_ascii_space(b),
        }
    }
}

/// The line feed, which ends a line.
pub open spec fn newline() -> Separator {
    Separator::Byte(0x0a)
}

/// The index of the first separator in `s`, or the length of `s` where it
/// holds none.
pub open spec fn first_sep(s: Seq<u8>, sep: Separator) -> int
    decreases s.len(),
{
    if s.len() == 0 || sep.matches(s[0]) {
        0
    } else {
        1 + first_sep(s.drop_first(), sep)
    }
}

/// The pieces of `s` between its separators, in order. A byte string with
/// `n` separators has `n + 1` pieces, some of which may be empty.
pub open spec fn split(s: Seq<u8>, sep: Separator) -> Seq<Seq<u8>>
    decreases s.len(),
{
    let i = first_sep(s, sep);
    if 0 <= i < s.len() {
        seq![s.take(i)] + split(s.skip(i + 1), sep)
    } else {
        seq![s]
    }
}

/// The byte strings that a sequence of slices stands for.
pub open spec fn slice_views(v: Seq<&[u8]>) -> Seq<Seq<u8>> {
    Seq::new(v.len(), |i: int| v[i]@)
}

/// The byte strings that a sequence of vectors stands for.
pub open spec fn vec_views(v: Seq<Vec<u8>>) -> Seq<Seq<u8>> {
    Seq::new(v.len(), |i: int| v[i]@)
}

/// Where the first `k` bytes of `s` are no separators and the next one is,
/// or `s` ends there, `k` is the index that `first_sep` gives.
pub proof fn lemma_first_sep(s: Seq<u8>, sep: Separator, k: int)
    requires
        0 <= k <= s.len(),
        forall|j: int| 0 <= j < k ==> !sep.matches(s[j]),
        k == s.len() || sep.matches(s[k]),
    ensures
        first_sep(s, sep) == k,
    decreases k,
{
    if k > 0 {
        lemma_first_sep(s.drop_first(), sep, k - 1);
    }
}

/// `first_sep` gives an index in `s` or its length; no byte before it is a
/// separator, and the byte at it, if there is one, is.
pub proof fn lemma_first_sep_is_first(s: Seq<u8>, sep: Separator)
    ensures
        0 <= first_sep(s, sep) <= s.len(),
        forall|j: int| 0 <= j < first_sep(s, sep) ==> !sep.matches(s[j]),
        first_sep(s, sep) < s.len() ==> sep.matches(s[first_sep(s, sep)]),
    decreases s.len(),
{
    if s.len() > 0 && !sep.matches(s[0]) {
        lemma_first_sep_is_first(s.drop_first(), sep);
        assert forall|j: int| 0 <= j < first_sep(s, sep) implies !sep.matches(s[j]) by {
            if j > 0 {
                assert(s[j] == s.drop_first()[j - 1]);
            }
        }
    }
}

/// Splits `s` at every separator.
pub fn split_on<'a>(s: &'a [u8], sep: Separator) -> (r: Vec<&'a [u8]>)
    ensures
        slice_views(r@) == split(s@, sep),
{
    let mut out: Vec<&'a [u8]> = Vec::new();
    let mut start: usize = 0;
    let mut i: usize = 0;
    assert(s@.skip(0) =~= s@);
    assert(slice_views(out@) + split(s@.skip(0), sep) =~= split(s@, sep));
    while i < s.len()
        invariant
            start <= i <= s@.len(),
            forall|j: int| start <= j < i ==> !sep.matches(s@[j]),
            slice_views(out@) + split(s@.skip(start as int), sep) == split(s@, sep),
        decreases s@.len() - i,
    {
        if sep.is_match(s[i]) {
            let piece = vstd::slice::slice_subrange(s, start, i);
            proof {
                let rest = s@.skip(start as int);
                lemma_first_sep(rest, sep, i - start);
                assert(rest.take(i - start) =~= piece@);
                assert(rest.skip(i - start + 1) =~= s@.skip(i as int + 1));
                assert(slice_views(out@.push(piece)) =~= slice_views(out@) + seq![piece@]);
            }
            out.push(piece);
            start = i + 1;
        }
        i += 1;
    }
    let piece = vstd::slice::slice_subrange(s, start, s.len());
    proof {
        let rest = s@.skip(start as int);
        lemma_first_sep(rest, sep, rest.len() as int);
        assert(rest =~= piece@);
        assert(slice_views(out@.push(piece)) =~= slice_views(out@) + seq![piece@]);
    }
    out.push(piece);
    out
}

/// The pieces that are not made of whitespace alone, each without the
/// whitespace at its ends, in order.
pub open spec fn clean(pieces: Seq<Seq<u8>>) -> Seq<Seq<u8>>
    decreases pieces.len(),
{
    if pieces.len() == 0 {
        Seq::empty()
    } else {
        let rest = clean(pieces.drop_last());
        let t = trimmed(pieces.last());
        if t.len() == 0 {
            rest
        } else {
            rest.push(t)
        }
    }
}

/// The entries that a stored file holds: its lines, trimmed, without the
/// empty ones.
pub open spec fn lines_of(content: Seq<u8>) -> Seq<Seq<u8>> {
    clean(split(content, newline()))
}

/// The words of a text: its pieces between whitespace, without the empty
/// ones.
pub open spec fn words_of(content: Seq<u8>) -> Seq<Seq<u8>> {
    clean(split(content, Separator::Whitespace))
}

/// The lines joined into one byte string, with `sep` between each two.
pub open spec fn join(lines: Seq<Seq<u8>>, sep: u8) -> Seq<u8>
    decreases lines.len(),
{
    if lines.len() == 0 {
        Seq::empty()
    } else if lines.len() == 1 {
        lines[0]
    } else {
        join(lines.drop_last(), sep) + seq![sep] + lines.last()
    }
}

/// A byte string that can stand as a line of a stored file and be read back
/// unchanged: not empty, no whitespace at either end, no line feed inside.
pub open spec fn is_line(l: Seq<u8>) -> bool {
    &&& l.len() > 0
    &&& !is_space(l[0])
    &&& !is_space(l.last())
    &&& forall|j: int| 0 <= j < l.len() ==> l[j] != 0x0a
}

/// Whether every entry can stand as a line.
pub open spec fn all_lines(ls: Seq<Seq<u8>>) -> bool {
    forall|i: int| 0 <= i < ls.len() ==> is_line(#[trigger] ls[i])
}

fn clean_pieces(pieces: &Vec<&[u8]>) -> (r: Vec<Vec<u8>>)
    ensures
        vec_views(r@) == clean(slice_views(pieces@)),
{
    let mut out: Vec<Vec<u8>> = Vec::new();
    let mut k: usize = 0;
    let ghost all = slice_views(pieces@);
    assert(vec_views(out@) =~= clean(all.take(0)));
    while k < pieces.len()
        invariant
            k <= pieces@.len(),
            all == slice_views(pieces@),
            vec_views(out@) == clean(all.take(k as int)),
        decreases pieces@.len() - k,
    {
        let t = pieces[k].trim_ascii_whitespace();
        proof {
            assert(all.take(k as int + 1).drop_last() =~= all.take(k as int));
            assert(all.take(k as int + 1).last() == pieces@[k as int]@);
        }
        if t.len() > 0 {
            let owned = vstd::slice::slice_to_vec(t);
            assert(vec_views(out@.push(owned)) =~= vec_views(out@).push(owned@));
            out.push(owned);
        }
        k += 1;
    }
    assert(all.take(pieces@.len() as int) =~= all);
    out
}

/// Reads the entries of a stored file: splits it at line feeds, trims each
/// line and leaves out the empty ones.
pub fn file_lines(content: &[u8]) -> (r: Vec<Vec<u8>>)
    ensures
        vec_views(r@) == lines_of(content@),
{
    let pieces = split_on(content, Separator::Byte(0x0a));
    clean_pieces(&pieces)
}

/// Reads the words of a text: splits it at whitespace and leaves out the
/// empty pieces.
pub fn words(content: &[u8]) -> (r: Vec<Vec<u8>>)
    ensures
        vec_views(r@) == words_of(content@),
{
    let pieces = split_on(content, Separator::Whitespace);
    clean_pieces(&pieces)
}

/// Replaces what `file` holds by the given lines, with a line feed between
/// each two and none after the last.
pub fn force_write(file: &mut Vec<u8>, lines: &Vec<Vec<u8>>)
    ensures
        final(file)@ == join(vec_views(lines@), 0x0a),
{
    file.clear();
    let mut k: usize = 0;
    let ghost all = vec_views(lines@);
    assert(all.take(0) =~= Seq::<Seq<u8>>::empty());
    while k < lines.len()
        invariant
            k <= lines@.len(),
            all == vec_views(lines@),
            file@ == join(all.take(k as int), 0x0a),
        decreases lines@.len() - k,
    {
        if k > 0 {
            file.push(0x0a);
        }
        push_bytes(file, lines[k].as_slice());
        proof {
            let next = all.take(k as int + 1);
            assert(next.drop_last() =~= all.take(k as int));
            assert(next.last() == lines@[k as int]@);
            if k == 0 {
                assert(file@ =~= next[0]);
            }
        }
        k += 1;
    }
    assert(all.take(lines@.len() as int) =~= all);
}

/// Splitting a byte string that was put together around one separator
/// gives the pieces of its two parts.
pub proof fn lemma_split_concat(a: Seq<u8>, x: u8, c: Seq<u8>, sep: Separator)
    requires
        sep.matches(x),
    ensures
        split(a + seq![x] + c, sep) == split(a, sep) + split(c, sep),
    decreases a.len(),
{
    let s = a + seq![x] + c;
    let i = first_sep(a, sep);
    lemma_first_sep_is_first(a, sep);
    assert forall|j: int| 0 <= j < i implies !sep.matches(s[j]) by {
        assert(s[j] == a[j]);
    }
    if i < a.len() {
        assert(s[i] == a[i]);
        lemma_first_sep(s, sep, i);
        assert(s.take(i) =~= a.take(i));
        assert(s.skip(i + 1) =~= a.skip(i + 1) + seq![x] + c);
        lemma_split_concat(a.skip(i + 1), x, c, sep);
        assert(split(s, sep) =~= split(a, sep) + split(c, sep));
    } else {
        assert(s[i] == x);
        lemma_first_sep(s, sep, i);
        assert(s.take(i) =~= a);
        assert(s.skip(i + 1) =~= c);
        assert(split(s, sep) =~= split(a, sep) + split(c, sep));
    }
}

/// A byte string without a separator is its own single piece.
pub proof fn lemma_split_single(l: Seq<u8>, sep: Separator)
    requires
        forall|j: int| 0 <= j < l.len() ==> !sep.matches(l[j]),
    ensures
        split(l, sep) == seq![l],
{
    lemma_first_sep(l, sep, l.len() as int);
}

/// Joining at least one line, none of which holds a line feed, and
/// splitting the result at line feeds gives the lines back.
pub proof fn lemma_split_join(ls: Seq<Seq<u8>>)
    requires
        ls.len() > 0,
        forall|i: int, j: int| 0 <= i < ls.len() && 0 <= j < ls[i].len() ==> ls[i][j] != 0x0a,
    ensures
        split(join(ls, 0x0a), newline()) == ls,
    decreases ls.len(),
{
    lemma_split_single(ls.last(), newline());
    if ls.len() == 1 {
        assert(ls =~= seq![ls[0]]);
    } else {
        let front = ls.drop_last();
        assert forall|i: int, j: int| 0 <= i < front.len() && 0 <= j < front[i].len() implies front[i][j]
            != 0x0a by {
            assert(front[i] == ls[i]);
        }
        lemma_split_join(front);
        lemma_split_concat(join(front, 0x0a), 0x0a, ls.last(), newline());
        assert(ls =~= front + seq![ls.last()]);
    }
}

/// A byte string with no whitespace at either end is its own trimmed form.
pub proof fn lemma_trimmed_line(l: Seq<u8>)
    requires
        l.len() > 0,
        !is_space(l[0]),
        !is_space(l.last()),
    ensures
        trimmed(l) == l,
{
}

/// Entries that can stand as lines are kept as they are.
pub proof fn lemma_clean_lines(ls: Seq<Seq<u8>>)
    requires
        all_lines(ls),
    ensures
        clean(ls) == ls,
    decreases ls.len(),
{
    if ls.len() > 0 {
        let front = ls.drop_last();
        assert forall|i: int| 0 <= i < front.len() implies is_line(#[trigger] front[i]) by {
            assert(front[i] == ls[i]);
        }
        lemma_clean_lines(front);
        assert(is_line(ls[ls.len() - 1]));
        lemma_trimmed_line(ls.last());
        assert(ls =~= front.push(ls.last()));
    } else {
        assert(ls =~= Seq::empty());
    }
}

/// Whether no byte is a line feed.
pub open spec fn no_newline(s: Seq<u8>) -> bool {
    forall|j: int| 0 <= j < s.len() ==> s[j] != 0x0a
}

/// What is left of a byte string without its leading whitespace does not
/// start with whitespace, and holds no line feed where the whole held none.
pub proof fn lemma_trim_start(s: Seq<u8>)
    ensures
        trim_start(s).len() > 0 ==> !is_space(trim_start(s)[0]),
        no_newline(s) ==> no_newline(trim_start(s)),
    decreases s.len(),
{
    if s.len() > 0 && is_space(s[0]) {
        lemma_trim_start(s.drop_first());
        if no_newline(s) {
            assert forall|j: int| 0 <= j < s.drop_first().len() implies s.drop_first()[j]
                != 0x0a by {
                assert(s.drop_first()[j] == s[j + 1]);
            }
        }
    }
}

/// What is left of a byte string without its trailing whitespace does not
/// end with whitespace, starts as the whole started, and holds no line feed
/// where the whole held none.
pub proof fn lemma_trim_end(s: Seq<u8>)
    ensures
        trim_end(s).len() > 0 ==> !is_space(trim_end(s).last()) && trim_end(s)[0] == s[0],
        no_newline(s) ==> no_newline(trim_end(s)),
    decreases s.len(),
{
    if s.len() > 0 && is_space(s.last()) {
        lemma_trim_end(s.drop_last());
        if no_newline(s) {
            assert forall|j: int| 0 <= j < s.drop_last().len() implies s.drop_last()[j]
                != 0x0a by {
                assert(s.drop_last()[j] == s[j]);
            }
        }
    }
}

/// No piece of a split holds a separator.
pub proof fn lemma_split_pieces(s: Seq<u8>, sep: Separator, i: int, j: int)
    requires
        0 <= i < split(s, sep).len(),
        0 <= j < split(s, sep)[i].len(),
    ensures
        !sep.matches(split(s, sep)[i][j]),
    decreases s.len(),
{
    let k = first_sep(s, sep);
    lemma_first_sep_is_first(s, sep);
    if k < s.len() {
        if i == 0 {
            assert(split(s, sep)[0] == s.take(k));
        } else {
            assert(split(s, sep)[i] == split(s.skip(k + 1), sep)[i - 1]);
            lemma_split_pieces(s.skip(k + 1), sep, i - 1, j);
        }
    }
}

/// The trimmed pieces that are kept can stand as lines, where no piece
/// holds a line feed.
pub proof fn lemma_clean_gives_lines(pieces: Seq<Seq<u8>>)
    requires
        forall|i: int| 0 <= i < pieces.len() ==> no_newline(#[trigger] pieces[i]),
    ensures
        all_lines(clean(pieces)),
    decreases pieces.len(),
{
    if pieces.len() > 0 {
        let front = pieces.drop_last();
        assert forall|i: int| 0 <= i < front.len() implies no_newline(#[trigger] front[i]) by {
            assert(front[i] == pieces[i]);
        }
        lemma_clean_gives_lines(front);
        let p = pieces.last();
        assert(no_newline(pieces[pieces.len() - 1]));
        lemma_trim_start(p);
        lemma_trim_end(trim_start(p));
        let t = trimmed(p);
        if t.len() > 0 {
            assert(is_line(t));
            assert forall|i: int| 0 <= i < clean(pieces).len() implies is_line(
                #[trigger] clean(pieces)[i],
            ) by {
                if i < clean(front).len() {
                    assert(clean(pieces)[i] == clean(front)[i]);
                }
            }
        }
    }
}

/// Every entry that is read from a stored file can stand as a line.
pub proof fn lemma_file_lines_are_lines(content: Seq<u8>)
    ensures
        all_lines(lines_of(content)),
{
    let pieces = split(content, newline());
    assert forall|i: int| 0 <= i < pieces.len() implies no_newline(#[trigger] pieces[i]) by {
        assert forall|j: int| 0 <= j < pieces[i].len() implies pieces[i][j] != 0x0a by {
            lemma_split_pieces(content, newline(), i, j);
        }
    }
    lemma_clean_gives_lines(pieces);
}

/// Where the pieces of a split hold no line feed and the separator is none,
/// the whole holds none; it starts as its first piece starts and ends as
/// its last piece ends, where these are not empty.
pub proof fn lemma_split_whole(s: Seq<u8>, x: u8)
    requires
        x != 0x0a,
        forall|i: int|
            0 <= i < split(s, Separator::Byte(x)).len() ==> no_newline(
                #[trigger] split(s, Separator::Byte(x))[i],
            ),
    ensures
        no_newline(s),
        split(s, Separator::Byte(x)).len() >= 1,
        split(s, Separator::Byte(x))[0].len() > 0 ==> s.len() > 0 && s[0] == split(
            s,
            Separator::Byte(x),
        )[0][0],
        split(s, Separator::Byte(x)).last().len() > 0 ==> s.len() > 0 && s.last() == split(
            s,
            Separator::Byte(x),
        ).last().last(),
    decreases s.len(),
{
    let sep = Separator::Byte(x);
    let k = first_sep(s, sep);
    lemma_first_sep_is_first(s, sep);
    let pieces = split(s, sep);
    if k < s.len() {
        let rest = s.skip(k + 1);
        let tail = split(rest, sep);
        assert(pieces =~= seq![s.take(k)] + tail);
        assert forall|i: int| 0 <= i < tail.len() implies no_newline(#[trigger] tail[i]) by {
            assert(tail[i] == pieces[i + 1]);
        }
        lemma_split_whole(rest, x);
        assert(no_newline(pieces[0]));
        assert forall|j: int| 0 <= j < s.len() implies s[j] != 0x0a by {
            if j < k {
                assert(s[j] == pieces[0][j]);
            } else if j > k {
                assert(s[j] == rest[j - k - 1]);
            }
        }
        assert(pieces.last() == tail.last());
        if tail.last().len() > 0 {
            assert(rest.last() == s.last());
        }
        if pieces[0].len() > 0 {
            assert(pieces[0][0] == s[0]);
        }
    } else {
        assert(pieces =~= seq![s]);
        assert(no_newline(pieces[0]));
    }
}

/// Writing entries that can stand as lines and reading the file back gives
/// the same entries in the same order.
pub proof fn lemma_lines_round_trip(ls: Seq<Seq<u8>>)
    requires
        all_lines(ls),
    ensures
        lines_of(join(ls, 0x0a)) == ls,
{
    lemma_clean_lines(ls);
    if ls.len() == 0 {
        let e = Seq::<u8>::empty();
        lemma_split_single(e, newline());
        assert(join(ls, 0x0a) =~= e);
        assert(seq![e].drop_last() =~= Seq::<Seq<u8>>::empty());
        assert(clean(seq![e].drop_last()) =~= Seq::<Seq<u8>>::empty());
        assert(trimmed(seq![e].last()) =~= e);
        assert(clean(seq![e]) =~= Seq::<Seq<u8>>::empty());
        assert(ls =~= Seq::<Seq<u8>>::empty());
    } else {
        assert forall|i: int, j: int| 0 <= i < ls.len() && 0 <= j < ls[i].len() implies ls[i][j]
            != 0x0a by {
            assert(is_line(ls[i]));
        }
        lemma_split_join(ls);
    }
}

} // verus!
