//! Classification of a token: an address block, a domain name, or anything
//! else.

use crate::cidr::{parsed, CidrBlock};
use crate::lines::{is_line, lemma_split_whole, no_newline, slice_views, split, split_on, Separator};
use vstd::prelude::*;
use vstd::std_specs::convert::FromSpecImpl;

verus! {

/// The three classes of tokens. The class of a token names the partition
/// that holds it.
#[derive(Clone, Copy, Debug, PartialEq, Eq, Hash, Structural)]
pub enum Key {
    /// An address or an address block.
    Ip,
    /// A domain name.
    Domain,
    /// Anything else.
    Other,
}

/// The bytes that a label of a domain name may hold: ASCII letters, digits
/// and the hyphen.
pub open spec fn is_label_byte(b: u8) -> bool {
    (0x30 <= b <= 0x39) || (0x41 <= b <= 0x5a) || (0x61 <= b <= 0x7a) || b == 0x2d
}

/// A label has 1 to 63 bytes, all of them letters, digits or hyphens, and
/// neither starts nor ends with a hyphen.
pub open spec fn is_label(l: Seq<u8>) -> bool {
    &&& 1 <= l.len() <= 63
    &&& forall|j: int| 0 <= j < l.len() ==> is_label_byte(#[trigger] l[j])
    &&& l[0] != 0x2d
    &&& l.last() != 0x2d
}

/// The dot, which separates the labels of a domain name.
pub open spec fn dot() -> Separator {
    Separator::Byte(0x2e)
}

/// A domain name is made of two or more labels with dots between them.
pub open spec fn is_hostname(t: Seq<u8>) -> bool {
    let labels = split(t, dot());
    labels.len() >= 2 && forall|i: int| 0 <= i < labels.len() ==> is_label(#[trigger] labels[i])
}

/// The class of a token: an address block where it reads as one, else a
/// domain name where it is made like one, else the third class.
pub open spec fn class_of(token: Seq<u8>) -> Key {
    if parsed(token) is Some {
        Key::Ip
    } else if is_hostname(token) {
        Key::Domain
    } else {
        Key::Other
    }
}

/// A domain name can stand as a line of a stored file: it is not empty and
/// holds neither whitespace at its ends nor a line feed.
pub proof fn lemma_hostname_is_line(t: Seq<u8>)
    requires
        is_hostname(t),
    ensures
        is_line(t),
{
    let labels = split(t, dot());
    assert forall|i: int| 0 <= i < labels.len() implies no_newline(#[trigger] labels[i]) by {
        assert(is_label(labels[i]));
        assert forall|j: int| 0 <= j < labels[i].len() implies labels[i][j] != 0x0a by {
            assert(is_label_byte(labels[i][j]));
        }
    }
    lemma_split_whole(t, 0x2e);
    assert(is_label(labels[0]));
    assert(is_label_byte(labels[0][0]));
    let l = labels[labels.len() - 1];
    assert(is_label(l));
    assert(is_label_byte(l[l.len() - 1]));
}

/// Whether `l` can be a label of a domain name.
pub fn check_label(l: &[u8]) -> (r: bool)
    ensures
        r == is_label(l@),
{
    let n = l.len();
    if n < 1 || n > 63 {
        return false;
    }
    if l[0] == 0x2d || l[n - 1] == 0x2d {
        return false;
    }
    let mut j: usize = 0;
    while j < n
        invariant
            j <= n,
            n == l@.len(),
            forall|k: int| 0 <= k < j ==> is_label_byte(#[trigger] l@[k]),
        decreases n - j,
    {
        let b = l[j];
        let ok = (0x30 <= b && b <= 0x39) || (0x41 <= b && b <= 0x5a) || (0x61 <= b && b <= 0x7a)
            || b == 0x2d;
        if !ok {
            return false;
        }
        j += 1;
    }
    true
}

/// Whether `token` is made like a domain name.
pub fn is_domain(token: &[u8]) -> (r: bool)
    ensures
        r == is_hostname(token@),
{
    let labels = split_on(token, Separator::Byte(0x2e));
    if labels.len() < 2 {
        return false;
    }
    let ghost all = split(token@, dot());
    let mut i: usize = 0;
    while i < labels.len()
        invariant
            i <= labels@.len(),
            all == slice_views(labels@),
            all == split(token@, dot()),
            all.len() >= 2,
            forall|k: int| 0 <= k < i ==> is_label(#[trigger] all[k]),
        decreases labels@.len() - i,
    {
        assert(all[i as int] == labels@[i as int]@);
        if !check_label(labels[i]) {
            assert(!is_label(all[i as int]));
            return false;
        }
        i += 1;
    }
    true
}

impl Key {
    /// The class of a token of which it is known whether it reads as an
    /// address block.
    pub fn of(block: &Option<CidrBlock>, token: &[u8]) -> (r: Key)
        ensures
            r == if block is Some {
                Key::Ip
            } else if is_hostname(token@) {
                Key::Domain
            } else {
                Key::Other
            },
    {
        if block.is_some() {
            Key::Ip
        } else if is_domain(token) {
            Key::Domain
        } else {
            Key::Other
        }
    }

    /// The name of the file that holds the entries of this class.
    pub fn as_ref(&self) -> (r: &'static str)
        ensures
            r@ == match *self {
                Key::Ip => "ip"@,
                Key::Domain => "domain"@,
                Key::Other => "other"@,
            },
    {
        match self {
            Key::Ip => "ip",
            Key::Domain => "domain",
            Key::Other => "other",
        }
    }
}

impl<'a> From<&'a [u8]> for Key {
    /// Classifies a token.
    fn from(token: &'a [u8]) -> (r: Key) {
        let block = CidrBlock::parse(token);
        Key::of(&block, token)
    }
}

impl<'a> FromSpecImpl<&'a [u8]> for Key {
    open spec fn obeys_from_spec() -> bool {
        true
    }

    open spec fn from_spec(token: &'a [u8]) -> Key {
        class_of(token@)
    }
}

} // verus!
