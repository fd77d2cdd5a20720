//! Byte-string helpers: ASCII whitespace, trimming, comparison and search.

use vstd::prelude::*;

verus! {

/// The five bytes that count as ASCII whitespace: space, tab, line feed,
/// form feed and carriage return.
pub open spec fn is_space(b: u8) -> bool {
    b == 0x20 || b == 0x09 || b == 0x0a || b == 0x0c || b == 0x0d
}

/// `s` without its leading whitespace.
pub open spec fn trim_start(s: Seq<u8>) -> Seq<u8>
    decreases s.len(),
{
    if s.len() > 0 && is_space(s[0]) {
        trim_start(s.drop_first())
    } else {
        s
    }
}

/// `s` without its trailing whitespace.
pub open spec fn trim_end(s: Seq<u8>) -> Seq<u8>
    decreases s.len(),
{
    if s.len() > 0 && is_space(s.last()) {
        trim_end(s.drop_last())
    } else {
        s
    }
}

/// `s` without whitespace at either end.
pub open spec fn trimmed(s: Seq<u8>) -> Seq<u8> {
    trim_end(trim_start(s))
}

/// Whether `b` is ASCII whitespace.
pub fn is_ascii_space(b: u8) -> (r: bool)
    ensures
        r == is_space(b),
{
    b == 0x20 || b == 0x09 || b == 0x0a || b == 0x0c || b == 0x0d
}

/// Trimming of ASCII whitespace from both ends of a byte string.
pub trait TrimAsciiWhitespace {
    /// The bytes that the value stands for.
    spec fn bytes(&self) -> Seq<u8>;

    /// The part of the value that is left when the whitespace at its start
    /// and at its end is removed.
    fn trim_ascii_whitespace(&self) -> (r: &[u8])
        ensures
            r@ == trimmed(self.bytes()),
    ;
}

impl TrimAsciiWhitespace for [u8] {
    open spec fn bytes(&self) -> Seq<u8> {
        self@
    }

    fn trim_ascii_whitespace(&self) -> (r: &[u8]) {
        let mut from: usize = 0;
        assert(self@.skip(0) =~= self@);
        while from < self.len() && is_ascii_space(self[from])
            invariant
                from <= self@.len(),
                trim_start(self@) == trim_start(self@.skip(from as int)),
            decreases self@.len() - from,
        {
            assert(self@.skip(from as int).drop_first() =~= self@.skip(from as int + 1));
            from += 1;
        }
        let mut to: usize = self.len();
        assert(self@.skip(from as int) =~= self@.subrange(from as int, to as int));
        while to > from && is_ascii_space(self[to - 1])
            invariant
                from <= to <= self@.len(),
                trim_start(self@) == self@.skip(from as int),
                trimmed(self@) == trim_end(self@.subrange(from as int, to as int)),
            decreases to - from,
        {
            assert(self@.subrange(from as int, to as int).drop_last() =~= self@.subrange(
                from as int,
                to as int - 1,
            ));
            to -= 1;
        }
        vstd::slice::slice_subrange(self, from, to)
    }
}

impl TrimAsciiWhitespace for Vec<u8> {
    open spec fn bytes(&self) -> Seq<u8> {
        self@
    }

    fn trim_ascii_whitespace(&self) -> (r: &[u8]) {
        self.as_slice().trim_ascii_whitespace()
    }
}

/// Whether `needle` stands in `hay` at index `i`.
pub open spec fn occurs_at(hay: Seq<u8>, needle: Seq<u8>, i: int) -> bool {
    0 <= i && i + needle.len() <= hay.len() && hay.subrange(i, i + needle.len()) == needle
}

/// Whether `needle` is a contiguous part of `hay`. The empty needle is part
/// of every byte string.
pub open spec fn contains_sub(hay: Seq<u8>, needle: Seq<u8>) -> bool {
    exists|i: int| occurs_at(hay, needle, i)
}

/// Calls `memchr::memmem::find`, which returns the index of the first place
/// at which the needle stands in the haystack, and `None` exactly when it
/// stands nowhere.
#[verifier::external_body]
fn first_occurrence(hay: &[u8], needle: &[u8]) -> (r: Option<usize>)
    ensures
        match r {
            Some(i) => occurs_at(hay@, needle@, i as int) && forall|j: int|
                0 <= j < i ==> !occurs_at(hay@, needle@, j),
            None => !contains_sub(hay@, needle@),
        },
{
    memchr::memmem::find(hay, needle)
}

/// Whether `needle` is a contiguous part of `hay`.
pub fn has_sub(hay: &[u8], needle: &[u8]) -> (r: bool)
    ensures
        r == contains_sub(hay@, needle@),
{
    first_occurrence(hay, needle).is_some()
}

/// Whether two byte strings hold the same bytes.
pub fn bytes_eq(a: &[u8], b: &[u8]) -> (r: bool)
    ensures
        r == (a@ == b@),
{
    if a.len() != b.len() {
        return false;
    }
    let mut i: usize = 0;
    while i < a.len()
        invariant
            i <= a@.len(),
            a@.len() == b@.len(),
            forall|j: int| 0 <= j < i ==> a@[j] == b@[j],
        decreases a@.len() - i,
    {
        if a[i] != b[i] {
            return false;
        }
        i += 1;
    }
    assert(a@ =~= b@);
    true
}

/// Appends the bytes of `src` to `dst`.
pub fn push_bytes(dst: &mut Vec<u8>, src: &[u8])
    ensures
        final(dst)@ == old(dst)@ + src@,
{
    let mut i: usize = 0;
    while i < src.len()
        invariant
            i <= src@.len(),
            dst@ == old(dst)@ + src@.take(i as int),
        decreases src@.len() - i,
    {
        dst.push(src[i]);
        assert(src@.take(i as int + 1) =~= src@.take(i as int).push(src@[i as int]));
        assert(dst@ =~= old(dst)@ + src@.take(i as int + 1));
        i += 1;
    }
    assert(src@.take(src@.len() as int) =~= src@);
}

/// The outcome of comparing two byte strings.
#[derive(Clone, Copy, Debug, PartialEq, Eq)]
pub enum Order {
    Less,
    Equal,
    Greater,
}

/// The dictionary order on byte strings: `a` comes before `b` when `a` is a
/// proper prefix of `b`, or when the first byte in which they differ is
/// smaller in `a`.
pub open spec fn lex_less(a: Seq<u8>, b: Seq<u8>) -> bool
    decreases a.len(),
{
    if b.len() == 0 {
        false
    } else if a.len() == 0 {
        true
    } else if a[0] != b[0] {
        a[0] < b[0]
    } else {
        lex_less(a.drop_first(), b.drop_first())
    }
}

/// No byte string comes before itself.
pub proof fn lemma_lex_irreflexive(a: Seq<u8>)
    ensures
        !lex_less(a, a),
    decreases a.len(),
{
    if a.len() > 0 {
        lemma_lex_irreflexive(a.drop_first());
    }
}

/// The dictionary order is transitive.
pub proof fn lemma_lex_transitive(a: Seq<u8>, b: Seq<u8>, c: Seq<u8>)
    requires
        lex_less(a, b),
        lex_less(b, c),
    ensures
        lex_less(a, c),
    decreases a.len(),
{
    if a.len() > 0 && a[0] == b[0] && b[0] == c[0] {
        lemma_lex_transitive(a.drop_first(), b.drop_first(), c.drop_first());
    }
}

/// Compares two byte strings in dictionary order.
pub fn compare(a: &[u8], b: &[u8]) -> (r: Order)
    ensures
        match r {
            Order::Less => lex_less(a@, b@),
            Order::Equal => a@ == b@,
            Order::Greater => lex_less(b@, a@),
        },
{
    let mut i: usize = 0;
    assert(a@.skip(0) =~= a@ && b@.skip(0) =~= b@);
    while i < a.len() && i < b.len()
        invariant
            i <= a@.len(),
            i <= b@.len(),
            forall|j: int| 0 <= j < i ==> a@[j] == b@[j],
            lex_less(a@, b@) == lex_less(a@.skip(i as int), b@.skip(i as int)),
            lex_less(b@, a@) == lex_less(b@.skip(i as int), a@.skip(i as int)),
        decreases a@.len() - i,
    {
        if a[i] < b[i] {
            return Order::Less;
        }
        if a[i] > b[i] {
            return Order::Greater;
        }
        assert(a@.skip(i as int).drop_first() =~= a@.skip(i as int + 1));
        assert(b@.skip(i as int).drop_first() =~= b@.skip(i as int + 1));
        i += 1;
    }
    if i < b.len() {
        Order::Less
    } else if i < a.len() {
        Order::Greater
    } else {
        assert(a@ =~= b@);
        Order::Equal
    }
}

} // verus!
