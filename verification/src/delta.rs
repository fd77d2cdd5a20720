//! What an import adds: statements about the record of new tokens.

use crate::canon::{canonical, coverage};
use crate::cidr::{parsed, Block};
use crate::classify::{class_of, is_hostname, Key};
use crate::database::{admits, empty_store, import_all, import_one, is_new, Store};
use crate::minimal::lemma_single_block;
use crate::nesting::{lemma_same_range, lemma_size};
use vstd::prelude::*;

verus! {

/// A token is represented in a store where importing it would add nothing.
pub open spec fn represented(s: Store, token: Seq<u8>) -> bool {
    !is_new(s, token, parsed(token))
}

/// The same store with another record of new tokens.
pub open spec fn with_new(s: Store, new: Set<Seq<u8>>) -> Store {
    Store { new, ..s }
}

/// A block that `parsed` gives is well formed.
pub proof fn lemma_parsed_wf(token: Seq<u8>)
    ensures
        parsed(token) is Some ==> parsed(token)->0.wf(),
{
}

/// Importing a token leaves it represented, and leaves represented what
/// was represented before.
pub proof fn lemma_import_represents(s: Store, token: Seq<u8>, other: Seq<u8>)
    ensures
        represented(import_one(s, token), token),
        represented(s, other) ==> represented(import_one(s, token), other),
{
    lemma_parsed_wf(token);
    match parsed(token) {
        Some(b) => {
            lemma_size(b);
            assert(b.addresses().contains((b.v6, b.first())));
        },
        None => {},
    }
}

/// After an import every imported token is represented.
pub proof fn lemma_import_all_represents(s: Store, tokens: Seq<Seq<u8>>, i: int)
    requires
        0 <= i < tokens.len(),
    ensures
        represented(import_all(s, tokens), tokens[i]),
    decreases tokens.len(),
{
    let before = import_all(s, tokens.drop_last());
    if i < tokens.len() - 1 {
        lemma_import_all_represents(s, tokens.drop_last(), i);
        assert(tokens.drop_last()[i] == tokens[i]);
    }
    lemma_import_represents(before, tokens.last(), tokens[i]);
}

/// Importing tokens that are all represented changes nothing.
pub proof fn lemma_import_represented(s: Store, tokens: Seq<Seq<u8>>)
    requires
        forall|i: int| 0 <= i < tokens.len() ==> represented(s, #[trigger] tokens[i]),
    ensures
        import_all(s, tokens) == s,
    decreases tokens.len(),
{
    if tokens.len() > 0 {
        let front = tokens.drop_last();
        assert forall|i: int| 0 <= i < front.len() implies represented(s, #[trigger] front[i]) by {
            assert(front[i] == tokens[i]);
        }
        lemma_import_represented(s, front);
        assert(represented(s, tokens[tokens.len() - 1]));
    }
}

/// Importing the same tokens a second time adds nothing: the store stays
/// as the first import left it, and whatever the record of new tokens held
/// before the second import, an empty record too, it holds after it.
pub proof fn lemma_import_again(s: Store, tokens: Seq<Seq<u8>>, record: Set<Seq<u8>>)
    ensures
        import_all(import_all(s, tokens), tokens) == import_all(s, tokens),
        import_all(with_new(import_all(s, tokens), record), tokens) == with_new(
            import_all(s, tokens),
            record,
        ),
        import_all(with_new(import_all(s, tokens), record), tokens).new == record,
{
    let once = import_all(s, tokens);
    assert forall|i: int| 0 <= i < tokens.len() implies represented(once, #[trigger] tokens[i]) by {
        lemma_import_all_represents(s, tokens, i);
    }
    lemma_import_represented(once, tokens);
    let reset = with_new(once, record);
    assert forall|i: int| 0 <= i < tokens.len() implies represented(reset, #[trigger] tokens[i]) by {
        assert(represented(once, tokens[i]));
    }
    lemma_import_represented(reset, tokens);
}

/// Only imported tokens are recorded as new.
pub proof fn lemma_new_is_imported(s: Store, tokens: Seq<Seq<u8>>)
    ensures
        import_all(s, tokens).new.subset_of(s.new.union(tokens.to_set())),
    decreases tokens.len(),
{
    if tokens.len() > 0 {
        let front = tokens.drop_last();
        lemma_new_is_imported(s, front);
        let before = import_all(s, front);
        let after = import_all(s, tokens);
        assert forall|x: Seq<u8>| after.new.contains(x) implies s.new.union(
            tokens.to_set(),
        ).contains(x) by {
            if before.new.contains(x) {
                if front.to_set().contains(x) {
                    let i = choose|i: int| 0 <= i < front.len() && front[i] == x;
                    assert(tokens[i] == x);
                }
            } else {
                assert(x == tokens.last());
                assert(tokens[tokens.len() - 1] == x);
            }
        }
    }
}

/// Whether every entry stands in the partition of its class: the domain
/// partition holds domain names only, the third partition holds only what
/// is neither a block nor a domain name.
pub open spec fn sorted_by_class(s: Store) -> bool {
    &&& forall|x: Seq<u8>| s.domain.contains(x) ==> class_of(x) == Key::Domain
    &&& forall|x: Seq<u8>| s.other.contains(x) ==> class_of(x) == Key::Other
}

/// An import keeps every entry in the partition of its class, so no entry
/// stands in two partitions.
pub proof fn lemma_import_keeps_classes(s: Store, tokens: Seq<Seq<u8>>)
    requires
        sorted_by_class(s),
    ensures
        sorted_by_class(import_all(s, tokens)),
        import_all(s, tokens).domain.disjoint(import_all(s, tokens).other),
    decreases tokens.len(),
{
    if tokens.len() > 0 {
        lemma_import_keeps_classes(s, tokens.drop_last());
    }
    let r = import_all(s, tokens);
    assert forall|x: Seq<u8>| !(r.domain.contains(x) && r.other.contains(x)) by {
        if r.domain.contains(x) && r.other.contains(x) {
            assert(class_of(x) == Key::Domain);
            assert(class_of(x) == Key::Other);
        }
    }
}

/// The addresses of all tokens that read as blocks.
pub open spec fn ip_of(tokens: Seq<Seq<u8>>) -> Set<(bool, nat)> {
    Set::new(
        |p: (bool, nat)|
            exists|j: int|
                0 <= j < tokens.len() && parsed(#[trigger] tokens[j]) is Some && parsed(
                    tokens[j],
                )->0.contains(p.0, p.1),
    )
}

/// The tokens that are domain names.
pub open spec fn domain_of(tokens: Seq<Seq<u8>>) -> Set<Seq<u8>> {
    Set::new(|x: Seq<u8>| tokens.contains(x) && parsed(x) is None && is_hostname(x))
}

/// The tokens that are neither blocks nor domain names.
pub open spec fn other_of(tokens: Seq<Seq<u8>>) -> Set<Seq<u8>> {
    Set::new(|x: Seq<u8>| tokens.contains(x) && parsed(x) is None && !is_hostname(x))
}

/// The addresses of a token that reads as a block; none for another token.
pub open spec fn addresses_of(t: Seq<u8>) -> Set<(bool, nat)> {
    match parsed(t) {
        Some(b) => b.addresses(),
        None => Set::empty(),
    }
}

/// What one more token adds to the tokens, to their addresses and to their
/// classes.
pub proof fn lemma_push_sets(front: Seq<Seq<u8>>, t: Seq<u8>)
    ensures
        front.push(t).to_set() == front.to_set().insert(t),
        ip_of(front.push(t)) == ip_of(front).union(addresses_of(t)),
        parsed(t) is None && is_hostname(t) ==> domain_of(front.push(t)) == domain_of(front).insert(t),
        !(parsed(t) is None && is_hostname(t)) ==> domain_of(front.push(t)) == domain_of(front),
        parsed(t) is None && !is_hostname(t) ==> other_of(front.push(t)) == other_of(front).insert(t),
        !(parsed(t) is None && !is_hostname(t)) ==> other_of(front.push(t)) == other_of(front),
{
    let tokens = front.push(t);
    assert forall|x: Seq<u8>| tokens.contains(x) <==> (front.contains(x) || x == t) by {
        if tokens.contains(x) {
            let i = choose|i: int| 0 <= i < tokens.len() && tokens[i] == x;
            if i < front.len() {
                assert(front[i] == x);
            }
        }
        if front.contains(x) {
            let i = choose|i: int| 0 <= i < front.len() && front[i] == x;
            assert(tokens[i] == x);
        }
        assert(tokens[front.len() as int] == t);
    }
    assert(tokens.to_set() =~= front.to_set().insert(t));
    if parsed(t) is None && is_hostname(t) {
        assert(domain_of(tokens) =~= domain_of(front).insert(t));
    } else {
        assert(domain_of(tokens) =~= domain_of(front));
    }
    if parsed(t) is None && !is_hostname(t) {
        assert(other_of(tokens) =~= other_of(front).insert(t));
    } else {
        assert(other_of(tokens) =~= other_of(front));
    }
    let extra = addresses_of(t);
    assert forall|p: (bool, nat)| ip_of(tokens).contains(p) <==> ip_of(front).union(
        extra,
    ).contains(p) by {
        if ip_of(tokens).contains(p) {
            let j = choose|j: int|
                0 <= j < tokens.len() && parsed(#[trigger] tokens[j]) is Some && parsed(
                    tokens[j],
                )->0.contains(p.0, p.1);
            if j < front.len() {
                assert(front[j] == tokens[j]);
            }
        }
        if ip_of(front).contains(p) {
            let j = choose|j: int|
                0 <= j < front.len() && parsed(#[trigger] front[j]) is Some && parsed(
                    front[j],
                )->0.contains(p.0, p.1);
            assert(tokens[j] == front[j]);
        }
        if extra.contains(p) {
            assert(tokens[front.len() as int] == t);
        }
    }
    assert(ip_of(tokens) =~= ip_of(front).union(extra));
}

/// Importing one more token is importing the others first and then that
/// one.
pub proof fn lemma_import_push(s: Store, tokens: Seq<Seq<u8>>, t: Seq<u8>)
    ensures
        import_all(s, tokens.push(t)) == import_one(import_all(s, tokens), t),
{
    assert(tokens.push(t).drop_last() =~= tokens);
}

/// Importing two tokens is importing the first and then the second.
pub proof fn lemma_import_two(s: Store, t: Seq<u8>, u: Seq<u8>)
    ensures
        import_all(s, seq![t, u]) == import_one(import_one(s, t), u),
{
    let none = Seq::<Seq<u8>>::empty();
    lemma_import_push(s, none, t);
    lemma_import_push(s, none.push(t), u);
    assert(none.push(t).push(u) =~= seq![t, u]);
    assert(import_all(s, none) == s);
}

/// What one token does to the partitions: the addresses of a block are
/// covered afterwards, a domain name stands in the domain partition, any
/// other token in the third; nothing that was held is lost.
pub proof fn lemma_import_one_partitions(s: Store, t: Seq<u8>)
    ensures
        import_one(s, t).ip == s.ip.union(addresses_of(t)),
        import_one(s, t).domain == if parsed(t) is None && is_hostname(t) {
            s.domain.insert(t)
        } else {
            s.domain
        },
        import_one(s, t).other == if parsed(t) is None && !is_hostname(t) {
            s.other.insert(t)
        } else {
            s.other
        },
{
    let r = import_one(s, t);
    assert(r.ip =~= s.ip.union(addresses_of(t)));
    if parsed(t) is None && is_hostname(t) {
        assert(r.domain =~= s.domain.insert(t));
    }
    if parsed(t) is None && !is_hostname(t) {
        assert(r.other =~= s.other.insert(t));
    }
}

/// After an import the store covers the addresses that it covered and
/// those of every imported block, whether the block was new or not; its
/// other partitions hold what they held and every imported token of their
/// class.
pub proof fn lemma_import_partitions(s: Store, tokens: Seq<Seq<u8>>)
    ensures
        import_all(s, tokens).ip == s.ip.union(ip_of(tokens)),
        import_all(s, tokens).domain == s.domain.union(domain_of(tokens)),
        import_all(s, tokens).other == s.other.union(other_of(tokens)),
    decreases tokens.len(),
{
    let r = import_all(s, tokens);
    if tokens.len() == 0 {
        assert(ip_of(tokens) =~= Set::<(bool, nat)>::empty());
        assert(domain_of(tokens) =~= Set::<Seq<u8>>::empty());
        assert(other_of(tokens) =~= Set::<Seq<u8>>::empty());
        assert(r.ip =~= s.ip.union(ip_of(tokens)));
        assert(r.domain =~= s.domain.union(domain_of(tokens)));
        assert(r.other =~= s.other.union(other_of(tokens)));
    } else {
        let front = tokens.drop_last();
        let t = tokens.last();
        assert(tokens =~= front.push(t));
        lemma_import_partitions(s, front);
        lemma_import_one_partitions(import_all(s, front), t);
        lemma_push_sets(front, t);
        assert(r.ip =~= s.ip.union(ip_of(tokens)));
        assert(r.domain =~= s.domain.union(domain_of(tokens)));
        assert(r.other =~= s.other.union(other_of(tokens)));
    }
}

/// Whether every token that reads as a block, where it stands for the first
/// time, has an address that no earlier block holds.
pub open spec fn uncovered(tokens: Seq<Seq<u8>>) -> bool {
    forall|k: int|
        0 <= k < tokens.len() && parsed(#[trigger] tokens[k]) is Some && !tokens.take(k).contains(
            tokens[k],
        ) ==> !parsed(tokens[k])->0.addresses().subset_of(ip_of(tokens.take(k)))
}

/// The store in which every token is new and stands in the partition of
/// its class.
pub open spec fn all_new(tokens: Seq<Seq<u8>>) -> Store {
    Store {
        ip: ip_of(tokens),
        domain: domain_of(tokens),
        other: other_of(tokens),
        new: tokens.to_set(),
    }
}

/// Where no block is covered by the blocks before it, the first import
/// into an empty store records every token as new.
pub proof fn lemma_first_import(tokens: Seq<Seq<u8>>)
    requires
        uncovered(tokens),
    ensures
        import_all(empty_store(), tokens).new == tokens.to_set(),
        import_all(empty_store(), tokens) == all_new(tokens),
    decreases tokens.len(),
{
    let e = empty_store();
    lemma_import_partitions(e, tokens);
    let r = import_all(e, tokens);
    assert(r.ip =~= ip_of(tokens));
    assert(r.domain =~= domain_of(tokens));
    assert(r.other =~= other_of(tokens));
    if tokens.len() == 0 {
        assert(tokens.to_set() =~= Set::<Seq<u8>>::empty());
    } else {
        let front = tokens.drop_last();
        let t = tokens.last();
        let n = tokens.len() - 1;
        assert(tokens =~= front.push(t));
        assert(tokens.take(n) =~= front);
        assert(uncovered(front)) by {
            assert forall|k: int|
                0 <= k < front.len() && parsed(#[trigger] front[k]) is Some && !front.take(
                    k,
                ).contains(front[k]) implies !parsed(front[k])->0.addresses().subset_of(
                ip_of(front.take(k)),
            ) by {
                assert(front[k] == tokens[k]);
                assert(front.take(k) =~= tokens.take(k));
            }
        }
        lemma_first_import(front);
        lemma_import_partitions(e, front);
        lemma_push_sets(front, t);
        let s = import_all(e, front);
        assert(s.ip =~= ip_of(front));
        assert(s.domain =~= domain_of(front));
        assert(s.other =~= other_of(front));
        lemma_parsed_wf(t);
        if front.contains(t) {
            assert(front.to_set().contains(t));
            assert(front.to_set().insert(t) =~= front.to_set());
            let w = choose|w: int| 0 <= w < front.len() && front[w] == t;
            match parsed(t) {
                Some(b) => {
                    assert forall|p: (bool, nat)| b.addresses().contains(p) implies s.ip.contains(
                        p,
                    ) by {
                        assert(parsed(front[w])->0.contains(p.0, p.1));
                    }
                },
                None => {},
            }
            assert(import_one(s, t) == s);
        } else {
            assert(!front.to_set().contains(t));
            match parsed(t) {
                Some(b) => {
                    assert(parsed(tokens[n]) is Some);
                    assert(admits(s.ip, b));
                },
                None => {},
            }
            assert(import_one(s, t).new =~= front.to_set().insert(t));
        }
    }
}

/// A block that lies in another adds nothing once the other was imported:
/// the token of the inner block, imported after that of the outer one,
/// leaves the store as it is, whatever the store held before. Where the
/// outer block was new, its token is the one that is recorded.
pub proof fn lemma_inner_after_outer(s: Store, outer: Seq<u8>, inner: Seq<u8>)
    requires
        parsed(outer) is Some,
        parsed(inner) is Some,
        parsed(inner)->0.inside(parsed(outer)->0),
    ensures
        import_all(s, seq![outer, inner]) == import_one(s, outer),
        admits(s.ip, parsed(outer)->0) ==> import_all(s, seq![outer, inner]).new == s.new.insert(
            outer,
        ),
{
    let a = parsed(outer)->0;
    let b = parsed(inner)->0;
    lemma_import_two(s, outer, inner);
    lemma_import_one_partitions(s, outer);
    let mid = import_one(s, outer);
    assert forall|p: (bool, nat)| b.addresses().contains(p) implies mid.ip.contains(p) by {
        assert(a.addresses().contains(p));
    }
}

/// A block that holds another and is imported after it takes its place:
/// the store then covers the addresses of the outer block and no others,
/// and the only canonical list with that coverage is the outer block alone.
/// Both tokens are recorded as new, unless they are two texts of one and
/// the same block.
pub proof fn lemma_outer_after_inner(inner: Seq<u8>, outer: Seq<u8>)
    requires
        parsed(outer) is Some,
        parsed(inner) is Some,
        parsed(inner)->0.inside(parsed(outer)->0),
    ensures
        import_all(empty_store(), seq![inner, outer]).ip == parsed(outer)->0.addresses(),
        forall|list: Seq<Block>|
            #[trigger] canonical(list) && coverage(list) == parsed(outer)->0.addresses() ==> list
                == seq![parsed(outer)->0],
        parsed(inner)->0 != parsed(outer)->0 || inner == outer ==> import_all(
            empty_store(),
            seq![inner, outer],
        ).new == set![inner, outer],
{
    let a = parsed(outer)->0;
    let b = parsed(inner)->0;
    lemma_parsed_wf(outer);
    lemma_parsed_wf(inner);
    lemma_size(a);
    lemma_size(b);
    let e = empty_store();
    lemma_import_two(e, inner, outer);
    lemma_import_one_partitions(e, inner);
    let mid = import_one(e, inner);
    assert(b.addresses().contains((b.v6, b.first())));
    assert(admits(e.ip, b));
    assert(mid.ip =~= b.addresses());
    assert(mid.new =~= set![inner]);
    lemma_import_one_partitions(mid, outer);
    let r = import_one(mid, outer);
    assert(r.ip =~= a.addresses());
    if b != a {
        if a.addresses().subset_of(mid.ip) {
            assert(a.addresses().contains((a.v6, a.first())));
            assert(a.addresses().contains((a.v6, a.last())));
            assert(b.addresses().contains((a.v6, a.first())));
            assert(b.addresses().contains((a.v6, a.last())));
            lemma_same_range(a, b);
        }
        assert(r.new =~= set![inner, outer]);
    } else if inner == outer {
        assert(r.new =~= set![inner, outer]);
    }
    assert forall|list: Seq<Block>|
        #[trigger] canonical(list) && coverage(list) == a.addresses() implies list == seq![a] by {
        lemma_single_block(list, a);
    }
}

} // verus!
