//! A set of byte strings, kept in dictionary order.

use crate::bytes::{compare, lemma_lex_irreflexive, lemma_lex_transitive, lex_less, Order};
use crate::lines::vec_views;
use vstd::prelude::*;

verus! {

/// Whether each entry comes before all later ones in dictionary order. Such
/// a sequence holds no entry twice.
pub open spec fn sorted(s: Seq<Seq<u8>>) -> bool {
    forall|i: int, j: int| 0 <= i < j < s.len() ==> lex_less(#[trigger] s[i], #[trigger] s[j])
}

/// Putting `t` into a sorted sequence at the place where everything before
/// it is smaller and everything after it is larger keeps the sequence
/// sorted, and adds `t` to what it holds.
pub proof fn lemma_insert_sorted(s: Seq<Seq<u8>>, idx: int, t: Seq<u8>)
    requires
        sorted(s),
        0 <= idx <= s.len(),
        forall|i: int| 0 <= i < idx ==> lex_less(#[trigger] s[i], t),
        forall|i: int| idx <= i < s.len() ==> lex_less(t, #[trigger] s[i]),
    ensures
        sorted(s.insert(idx, t)),
        s.insert(idx, t).to_set() == s.to_set().insert(t),
{
    let n = s.insert(idx, t);
    assert forall|i: int, j: int| 0 <= i < j < n.len() implies lex_less(
        #[trigger] n[i],
        #[trigger] n[j],
    ) by {
        if j < idx {
            assert(n[i] == s[i] && n[j] == s[j]);
        } else if j == idx {
            assert(n[i] == s[i]);
        } else if i < idx {
            assert(n[i] == s[i] && n[j] == s[j - 1]);
            lemma_lex_transitive(s[i], t, s[j - 1]);
        } else if i == idx {
            assert(n[j] == s[j - 1]);
        } else {
            assert(n[i] == s[i - 1] && n[j] == s[j - 1]);
        }
    }
    assert forall|x: Seq<u8>| n.to_set().contains(x) <==> s.to_set().insert(t).contains(x) by {
        if n.contains(x) {
            let k = choose|k: int| 0 <= k < n.len() && n[k] == x;
            if k < idx {
                assert(s[k] == x);
            } else if k > idx {
                assert(s[k - 1] == x);
            }
        }
        if s.contains(x) {
            let k = choose|k: int| 0 <= k < s.len() && s[k] == x;
            if k < idx {
                assert(n[k] == x);
            } else {
                assert(n[k + 1] == x);
            }
        }
        if x == t {
            assert(n[idx] == x);
        }
    }
    assert(n.to_set() =~= s.to_set().insert(t));
}

/// A set has one sorted sequence of its entries only: two sorted sequences
/// that hold the same entries are the same sequence.
pub proof fn lemma_sorted_unique(s: Seq<Seq<u8>>, t: Seq<Seq<u8>>)
    requires
        sorted(s),
        sorted(t),
        s.to_set() == t.to_set(),
    ensures
        s == t,
    decreases s.len(),
{
    if s.len() == 0 {
        if t.len() > 0 {
            assert(t.contains(t[0]));
            assert(t.to_set().contains(t[0]));
            assert(s.contains(t[0]));
        }
        assert(s =~= t);
    } else {
        assert(s.contains(s[0]));
        assert(s.to_set().contains(s[0]));
        assert(t.contains(s[0]));
        let n = s.len() - 1;
        let m = t.len() - 1;
        assert(s.contains(s[n]));
        assert(s.to_set().contains(s[n]));
        assert(t.contains(s[n]));
        let j = choose|j: int| 0 <= j < t.len() && t[j] == s[n];
        assert(t.contains(t[m]));
        assert(t.to_set().contains(t[m]));
        assert(s.contains(t[m]));
        let i = choose|i: int| 0 <= i < s.len() && s[i] == t[m];
        lemma_lex_irreflexive(s[n]);
        if j < m {
            assert(lex_less(t[j], t[m]));
            if i < n {
                assert(lex_less(s[i], s[n]));
                lemma_lex_transitive(s[n], s[i], s[n]);
            }
        }
        assert(j == m);
        let s1 = s.drop_last();
        let t1 = t.drop_last();
        assert(sorted(s1)) by {
            assert forall|x: int, y: int| 0 <= x < y < s1.len() implies lex_less(
                #[trigger] s1[x],
                #[trigger] s1[y],
            ) by {
                assert(s1[x] == s[x] && s1[y] == s[y]);
            }
        }
        assert(sorted(t1)) by {
            assert forall|x: int, y: int| 0 <= x < y < t1.len() implies lex_less(
                #[trigger] t1[x],
                #[trigger] t1[y],
            ) by {
                assert(t1[x] == t[x] && t1[y] == t[y]);
            }
        }
        assert forall|e: Seq<u8>| s1.to_set().contains(e) <==> t1.to_set().contains(e) by {
            if s1.contains(e) {
                let x = choose|x: int| 0 <= x < s1.len() && s1[x] == e;
                assert(s[x] == e);
                assert(s.contains(e));
                assert(s.to_set().contains(e));
                assert(t.contains(e));
                let y = choose|y: int| 0 <= y < t.len() && t[y] == e;
                assert(lex_less(s[x], s[n]));
                assert(y != m);
                assert(t1[y] == e);
            }
            if t1.contains(e) {
                let y = choose|y: int| 0 <= y < t1.len() && t1[y] == e;
                assert(t[y] == e);
                assert(t.contains(e));
                assert(t.to_set().contains(e));
                assert(s.contains(e));
                let x = choose|x: int| 0 <= x < s.len() && s[x] == e;
                assert(lex_less(t[y], t[m]));
                assert(x != n);
                assert(s1[x] == e);
            }
        }
        assert(s1.to_set() =~= t1.to_set());
        lemma_sorted_unique(s1, t1);
        assert(s =~= s1.push(s[n]));
        assert(t =~= t1.push(t[m]));
    }
}

/// The entries of a set in dictionary order, each once.
pub open spec fn entries_of(set: Set<Seq<u8>>) -> Seq<Seq<u8>> {
    choose|l: Seq<Seq<u8>>| sorted(l) && l.to_set() == set
}

/// A sorted sequence is the sequence of the entries of the set that it
/// holds.
pub proof fn lemma_entries_of(l: Seq<Seq<u8>>)
    requires
        sorted(l),
    ensures
        entries_of(l.to_set()) == l,
{
    let m = entries_of(l.to_set());
    assert(sorted(m) && m.to_set() == l.to_set());
    lemma_sorted_unique(m, l);
}

/// A set of byte strings.
pub struct TokenSet {
    items: Vec<Vec<u8>>,
}

impl View for TokenSet {
    type V = Set<Seq<u8>>;

    closed spec fn view(&self) -> Set<Seq<u8>> {
        self.seq().to_set()
    }
}

impl TokenSet {
    /// The entries in dictionary order.
    pub closed spec fn seq(&self) -> Seq<Seq<u8>> {
        vec_views(self.items@)
    }

    #[verifier::type_invariant]
    spec fn inv(&self) -> bool {
        sorted(self.seq())
    }

    /// The empty set.
    pub fn new() -> (r: TokenSet)
        ensures
            r@ == Set::<Seq<u8>>::empty(),
            r.seq() == Seq::<Seq<u8>>::empty(),
    {
        let r = TokenSet { items: Vec::new() };
        assert(r.seq() =~= Seq::<Seq<u8>>::empty());
        assert(r@ =~= Set::<Seq<u8>>::empty());
        r
    }

    /// The number of entries.
    pub fn len(&self) -> (n: usize)
        ensures
            n == self.seq().len(),
    {
        self.items.len()
    }

    /// Whether the set holds nothing.
    pub fn is_empty(&self) -> (r: bool)
        ensures
            r == (self.seq().len() == 0),
            r == (self@ == Set::<Seq<u8>>::empty()),
    {
        proof {
            if self.seq().len() == 0 {
                assert(self@ =~= Set::<Seq<u8>>::empty());
            } else {
                assert(self.seq().contains(self.seq()[0]));
                assert(self@.contains(self.seq()[0]));
            }
        }
        self.items.len() == 0
    }

    /// The entries in dictionary order, each once.
    pub fn lines(&self) -> (r: &Vec<Vec<u8>>)
        ensures
            vec_views(r@) == self.seq(),
            sorted(self.seq()),
            self.seq().to_set() == self@,
            self.seq() == entries_of(self@),
    {
        proof {
            use_type_invariant(self);
            lemma_entries_of(self.seq());
        }
        &self.items
    }

    /// Where `t` stands among the entries, or where it would have to be put.
    fn search(&self, t: &[u8]) -> (r: (bool, usize))
        ensures
            r.1 <= self.seq().len(),
            r.0 ==> r.1 < self.seq().len() && self.seq()[r.1 as int] == t@,
            !r.0 ==> forall|i: int| 0 <= i < r.1 ==> lex_less(#[trigger] self.seq()[i], t@),
            !r.0 ==> forall|i: int|
                r.1 <= i < self.seq().len() ==> lex_less(t@, #[trigger] self.seq()[i]),
    {
        proof {
            use_type_invariant(self);
        }
        let ghost s = self.seq();
        let mut lo: usize = 0;
        let mut hi: usize = self.items.len();
        while lo < hi
            invariant
                lo <= hi <= s.len(),
                s == self.seq(),
                s.len() == self.items@.len(),
                sorted(s),
                forall|i: int| 0 <= i < lo ==> lex_less(#[trigger] s[i], t@),
                forall|i: int| hi <= i < s.len() ==> lex_less(t@, #[trigger] s[i]),
            decreases hi - lo,
        {
            let mid: usize = lo + (hi - lo) / 2;
            assert(s[mid as int] == self.items@[mid as int]@);
            match compare(self.items[mid].as_slice(), t) {
                Order::Less => {
                    assert forall|i: int| 0 <= i < mid + 1 implies lex_less(#[trigger] s[i], t@) by {
                        if i < mid {
                            lemma_lex_transitive(s[i], s[mid as int], t@);
                        }
                    }
                    lo = mid + 1;
                },
                Order::Equal => {
                    return (true, mid);
                },
                Order::Greater => {
                    assert forall|i: int| mid <= i < s.len() implies lex_less(t@, #[trigger] s[i]) by {
                        if i > mid {
                            lemma_lex_transitive(t@, s[mid as int], s[i]);
                        }
                    }
                    hi = mid;
                },
            }
        }
        (false, lo)
    }

    /// Whether `t` is in the set.
    pub fn contains(&self, t: &[u8]) -> (r: bool)
        ensures
            r == self@.contains(t@),
    {
        let (found, idx) = self.search(t);
        proof {
            let s = self.seq();
            if found {
                assert(s.contains(t@));
            } else {
                assert forall|i: int| 0 <= i < s.len() implies s[i] != t@ by {
                    lemma_lex_irreflexive(t@);
                }
            }
        }
        found
    }

    /// Puts `t` into the set. Returns whether it was new.
    pub fn insert(&mut self, t: Vec<u8>) -> (r: bool)
        ensures
            final(self)@ == old(self)@.insert(t@),
            r == !old(self)@.contains(t@),
    {
        let (found, idx) = self.search(t.as_slice());
        proof {
            use_type_invariant(&*self);
            let s = self.seq();
            if found {
                assert(s.contains(t@));
                assert(self@ =~= self@.insert(t@));
            } else {
                assert forall|i: int| 0 <= i < s.len() implies s[i] != t@ by {
                    lemma_lex_irreflexive(t@);
                }
                lemma_insert_sorted(s, idx as int, t@);
                assert(vec_views(self.items@.insert(idx as int, t)) =~= s.insert(idx as int, t@));
            }
        }
        if !found {
            let mut items: Vec<Vec<u8>> = Vec::new();
            assert(vec_views(items@) =~= Seq::<Seq<u8>>::empty());
            core::mem::swap(&mut self.items, &mut items);
            items.insert(idx, t);
            self.items = items;
        }
        !found
    }
}

} // verus!
