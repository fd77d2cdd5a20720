//! Why a canonical list of blocks is the least one: it is fixed by the
//! addresses that it covers.

use crate::canon::{canonical, coverage, covered, halves, ordered};
use crate::cidr::Block;
use crate::nesting::{lemma_inside_bits, lemma_nested, lemma_same_range, lemma_size};
use vstd::arithmetic::div_mod::{lemma_fundamental_div_mod, lemma_fundamental_div_mod_converse};
use vstd::arithmetic::power2::{lemma_pow2_pos, lemma_pow2_unfold, pow2};
use vstd::prelude::*;

verus! {

/// Whether the list covers every address of the block.
pub open spec fn covers_block(s: Seq<Block>, r: Block) -> bool {
    forall|a: nat| r.contains(r.v6, a) ==> covered(s, r.v6, a)
}

/// The lower half of a block that has more than one address.
pub open spec fn lower_half(r: Block) -> Block {
    Block { v6: r.v6, prefix: r.prefix, bits: r.bits + 1 }
}

/// The upper half of a block that has more than one address.
pub open spec fn upper_half(r: Block) -> Block {
    Block { v6: r.v6, prefix: r.prefix + lower_half(r).size(), bits: r.bits + 1 }
}

/// The two halves of a block are well-formed blocks that lie in it, and
/// they are its halves.
pub proof fn lemma_halves(r: Block)
    requires
        r.wf(),
        r.bits < r.width(),
    ensures
        lower_half(r).wf(),
        upper_half(r).wf(),
        lower_half(r).inside(r),
        upper_half(r).inside(r),
        halves(lower_half(r), upper_half(r)),
        r.size() == 2 * lower_half(r).size(),
{
    let h = lower_half(r).size() as int;
    let p = r.prefix as int;
    lemma_pow2_unfold((r.width() - r.bits) as nat);
    lemma_pow2_pos((r.width() - r.bits - 1) as nat);
    assert(r.size() == 2 * h);
    lemma_fundamental_div_mod(p, 2 * h);
    let k = p / (2 * h);
    assert(p == (2 * k) * h + 0) by (nonlinear_arith)
        requires
            p == (2 * h) * k + p % (2 * h),
            p % (2 * h) == 0,
    ;
    lemma_fundamental_div_mod_converse(p, h, 2 * k, 0);
    assert(p + h == (2 * k + 1) * h + 0) by (nonlinear_arith)
        requires
            p == (2 * k) * h + 0,
    ;
    lemma_fundamental_div_mod_converse(p + h, h, 2 * k + 1, 0);
}

/// A canonical list that covers every address of a block holds a block in
/// which that block lies.
pub proof fn lemma_covering_block(s: Seq<Block>, r: Block) -> (i: int)
    requires
        canonical(s),
        r.wf(),
        covers_block(s, r),
    ensures
        0 <= i < s.len(),
        r.inside(s[i]),
    decreases r.width() - r.bits,
{
    lemma_size(r);
    if r.bits == r.width() {
        assert(pow2(0) == 1) by {
            vstd::arithmetic::power2::lemma2_to64();
        }
        assert(covered(s, r.v6, r.first()));
        let i = choose|i: int| 0 <= i < s.len() && (#[trigger] s[i]).contains(r.v6, r.first());
        i
    } else {
        let lo = lower_half(r);
        let hi = upper_half(r);
        lemma_halves(r);
        assert(covers_block(s, lo)) by {
            assert forall|a: nat| lo.contains(lo.v6, a) implies covered(s, lo.v6, a) by {
                assert(r.contains(r.v6, a));
            }
        }
        assert(covers_block(s, hi)) by {
            assert forall|a: nat| hi.contains(hi.v6, a) implies covered(s, hi.v6, a) by {
                assert(r.contains(r.v6, a));
            }
        }
        let i = lemma_covering_block(s, lo);
        let j = lemma_covering_block(s, hi);
        lemma_size(lo);
        lemma_size(hi);
        lemma_inside_bits(lo, s[i]);
        lemma_inside_bits(hi, s[j]);
        if s[i].bits <= r.bits {
            lemma_nested(s[i], r, lo.first());
            i
        } else if s[j].bits <= r.bits {
            lemma_nested(s[j], r, hi.first());
            j
        } else {
            lemma_nested(lo, s[i], lo.first());
            lemma_same_range(lo, s[i]);
            lemma_nested(hi, s[j], hi.first());
            lemma_same_range(hi, s[j]);
            assert(halves(s[i], s[j]));
            i
        }
    }
}

/// Two blocks of a canonical list that have an address in common are one
/// and the same entry.
pub proof fn lemma_entries_apart(s: Seq<Block>, i: int, j: int, v6: bool, a: nat)
    requires
        canonical(s),
        0 <= i < s.len(),
        0 <= j < s.len(),
        s[i].contains(v6, a),
        s[j].contains(v6, a),
    ensures
        i == j,
{
    if i < j {
        assert(ordered(s[i], s[j]));
    } else if j < i {
        assert(ordered(s[j], s[i]));
    }
}

/// The canonical list that covers the addresses of one block and no others
/// holds just that block.
pub proof fn lemma_single_block(s: Seq<Block>, b: Block)
    requires
        canonical(s),
        b.wf(),
        coverage(s) == b.addresses(),
    ensures
        s == seq![b],
{
    assert(covers_block(s, b)) by {
        assert forall|a: nat| b.contains(b.v6, a) implies covered(s, b.v6, a) by {
            assert(b.addresses().contains((b.v6, a)));
            assert(coverage(s).contains((b.v6, a)));
        }
    }
    let i = lemma_covering_block(s, b);
    assert forall|j: int| 0 <= j < s.len() implies (#[trigger] s[j]).inside(b) by {
        lemma_size(s[j]);
        assert(covered(s, s[j].v6, s[j].first()));
        assert(coverage(s).contains((s[j].v6, s[j].first())));
        assert(b.addresses().contains((s[j].v6, s[j].first())));
        assert(covered(s, s[j].v6, s[j].last()));
        assert(coverage(s).contains((s[j].v6, s[j].last())));
        assert(b.addresses().contains((s[j].v6, s[j].last())));
    }
    lemma_same_range(b, s[i]);
    if s.len() > 1 {
        let j = if i == 0 {
            1int
        } else {
            0int
        };
        lemma_size(s[j]);
        assert(s[j].inside(b));
        lemma_entries_apart(s, i, j, s[j].v6, s[j].first());
    }
    assert(s =~= seq![b]);
}

/// Every entry of a canonical list stands in every canonical list that
/// covers the same addresses.
pub proof fn lemma_entry_shared(s: Seq<Block>, t: Seq<Block>, i: int) -> (j: int)
    requires
        canonical(s),
        canonical(t),
        coverage(s) == coverage(t),
        0 <= i < s.len(),
    ensures
        0 <= j < t.len(),
        t[j] == s[i],
{
    let r = s[i];
    assert(covers_block(t, r)) by {
        assert forall|a: nat| r.contains(r.v6, a) implies covered(t, r.v6, a) by {
            assert(covered(s, r.v6, a));
            assert(coverage(s).contains((r.v6, a)));
            assert(coverage(t).contains((r.v6, a)));
        }
    }
    let j = lemma_covering_block(t, r);
    let q = t[j];
    assert(covers_block(s, q)) by {
        assert forall|a: nat| q.contains(q.v6, a) implies covered(s, q.v6, a) by {
            assert(covered(t, q.v6, a));
            assert(coverage(t).contains((q.v6, a)));
            assert(coverage(s).contains((q.v6, a)));
        }
    }
    let k = lemma_covering_block(s, q);
    lemma_size(r);
    lemma_entries_apart(s, i, k, r.v6, r.first());
    lemma_same_range(r, q);
    j
}

/// No block stands before itself, and of two blocks only one stands before
/// the other.
pub proof fn lemma_ordered_strict(a: Block, b: Block)
    requires
        a.wf(),
        b.wf(),
    ensures
        !ordered(a, a),
        !(ordered(a, b) && ordered(b, a)),
{
    lemma_size(a);
    lemma_size(b);
}

/// Two canonical lists with the same entries are the same list.
pub proof fn lemma_same_entries(s: Seq<Block>, t: Seq<Block>)
    requires
        canonical(s),
        canonical(t),
        forall|i: int| 0 <= i < s.len() ==> t.contains(#[trigger] s[i]),
        forall|j: int| 0 <= j < t.len() ==> s.contains(#[trigger] t[j]),
    ensures
        s == t,
    decreases s.len(),
{
    if s.len() == 0 {
        if t.len() > 0 {
            assert(s.contains(t[0]));
        }
        assert(s =~= t);
    } else {
        assert(t.contains(s[0]));
        let n = s.len() - 1;
        let m = t.len() - 1;
        assert(t.contains(s[n]));
        let j = choose|j: int| 0 <= j < t.len() && t[j] == s[n];
        assert(s.contains(t[m]));
        let i = choose|i: int| 0 <= i < s.len() && s[i] == t[m];
        lemma_ordered_strict(s[n], s[i]);
        if j < m {
            assert(ordered(t[j], t[m]));
            if i < n {
                assert(ordered(s[i], s[n]));
            }
        }
        assert(j == m);
        let s1 = s.drop_last();
        let t1 = t.drop_last();
        assert forall|x: int| 0 <= x < s1.len() implies t1.contains(#[trigger] s1[x]) by {
            assert(s1[x] == s[x]);
            assert(t.contains(s[x]));
            let y = choose|y: int| 0 <= y < t.len() && t[y] == s[x];
            lemma_ordered_strict(s[x], s[n]);
            assert(ordered(s[x], s[n]));
            assert(y != m);
            assert(t1[y] == s1[x]);
        }
        assert forall|y: int| 0 <= y < t1.len() implies s1.contains(#[trigger] t1[y]) by {
            assert(t1[y] == t[y]);
            assert(s.contains(t[y]));
            let x = choose|x: int| 0 <= x < s.len() && s[x] == t[y];
            lemma_ordered_strict(t[y], t[m]);
            assert(ordered(t[y], t[m]));
            assert(x != n);
            assert(s1[x] == t1[y]);
        }
        assert(canonical(s1)) by {
            assert forall|x: int| 0 <= x < s1.len() implies (#[trigger] s1[x]).wf() by {
                assert(s1[x] == s[x]);
            }
            assert forall|x: int, y: int| 0 <= x < y < s1.len() implies ordered(
                #[trigger] s1[x],
                #[trigger] s1[y],
            ) by {
                assert(s1[x] == s[x] && s1[y] == s[y]);
            }
            assert forall|x: int, y: int| 0 <= x < s1.len() && 0 <= y < s1.len() implies !halves(
                #[trigger] s1[x],
                #[trigger] s1[y],
            ) by {
                assert(s1[x] == s[x] && s1[y] == s[y]);
            }
        }
        assert(canonical(t1)) by {
            assert forall|x: int| 0 <= x < t1.len() implies (#[trigger] t1[x]).wf() by {
                assert(t1[x] == t[x]);
            }
            assert forall|x: int, y: int| 0 <= x < y < t1.len() implies ordered(
                #[trigger] t1[x],
                #[trigger] t1[y],
            ) by {
                assert(t1[x] == t[x] && t1[y] == t[y]);
            }
            assert forall|x: int, y: int| 0 <= x < t1.len() && 0 <= y < t1.len() implies !halves(
                #[trigger] t1[x],
                #[trigger] t1[y],
            ) by {
                assert(t1[x] == t[x] && t1[y] == t[y]);
            }
        }
        lemma_same_entries(s1, t1);
        assert(s =~= s1.push(s[n]));
        assert(t =~= t1.push(t[m]));
    }
}

/// The canonical list is fixed by what it covers: two canonical lists that
/// cover the same addresses are the same list. So no list of blocks with
/// the same coverage can be had by merging or dropping entries of a
/// canonical one.
pub proof fn lemma_canonical_unique(s: Seq<Block>, t: Seq<Block>)
    requires
        canonical(s),
        canonical(t),
        coverage(s) == coverage(t),
    ensures
        s == t,
{
    assert forall|i: int| 0 <= i < s.len() implies t.contains(#[trigger] s[i]) by {
        let j = lemma_entry_shared(s, t, i);
    }
    assert forall|j: int| 0 <= j < t.len() implies s.contains(#[trigger] t[j]) by {
        let i = lemma_entry_shared(t, s, j);
    }
    lemma_same_entries(s, t);
}

/// The canonical list of blocks that covers the given addresses and no
/// others.
pub open spec fn canonical_of(ip: Set<(bool, nat)>) -> Seq<Block> {
    choose|l: Seq<Block>| canonical(l) && coverage(l) == ip
}

/// A canonical list is the canonical list of what it covers.
pub proof fn lemma_canonical_of(l: Seq<Block>)
    requires
        canonical(l),
    ensures
        canonical_of(coverage(l)) == l,
{
    let m = canonical_of(coverage(l));
    assert(canonical(m) && coverage(m) == coverage(l));
    lemma_canonical_unique(m, l);
}

/// A map that sends the numbers below `n` to different numbers below `m`
/// shows that `n` is at most `m`.
proof fn lemma_injection(n: nat, m: nat, f: spec_fn(int) -> int)
    requires
        forall|i: int| 0 <= i < n ==> 0 <= #[trigger] f(i) < m,
        forall|i: int, j: int| 0 <= i < j < n ==> #[trigger] f(i) != #[trigger] f(j),
    ensures
        n <= m,
    decreases n,
{
    if n > 0 {
        let y = f(n - 1);
        let g = |i: int|
            if f(i) < y {
                f(i)
            } else {
                f(i) - 1
            };
        assert forall|i: int| 0 <= i < n - 1 implies 0 <= #[trigger] g(i) < m - 1 by {
            assert(f(i) != f(n - 1));
        }
        assert forall|i: int, j: int| 0 <= i < j < n - 1 implies #[trigger] g(i) != #[trigger] g(
            j,
        ) by {
            assert(f(i) != f(j));
            assert(f(i) != f(n - 1));
            assert(f(j) != f(n - 1));
        }
        lemma_injection((n - 1) as nat, (m - 1) as nat, g);
    }
}

/// No list of blocks that covers the same addresses has fewer entries than
/// the canonical one.
pub proof fn lemma_canonical_fewest(s: Seq<Block>, t: Seq<Block>)
    requires
        canonical(s),
        forall|j: int| 0 <= j < t.len() ==> (#[trigger] t[j]).wf(),
        coverage(t) == coverage(s),
    ensures
        s.len() <= t.len(),
{
    let f = |i: int| choose|j: int| 0 <= j < t.len() && (#[trigger] t[j]).contains(s[i].v6, s[i].first());
    assert forall|i: int| 0 <= i < s.len() implies 0 <= #[trigger] f(i) < t.len() && t[f(i)].contains(
        s[i].v6,
        s[i].first(),
    ) by {
        lemma_size(s[i]);
        assert(covered(s, s[i].v6, s[i].first()));
        assert(coverage(s).contains((s[i].v6, s[i].first())));
        assert(coverage(t).contains((s[i].v6, s[i].first())));
        assert(covered(t, s[i].v6, s[i].first()));
    }
    assert forall|i: int, j: int| 0 <= i < j < s.len() implies #[trigger] f(i) != #[trigger] f(
        j,
    ) by {
        if f(i) == f(j) {
            let q = t[f(i)];
            assert(t[f(i)].contains(s[i].v6, s[i].first()));
            assert(t[f(j)].contains(s[j].v6, s[j].first()));
            assert(covers_block(s, q)) by {
                assert forall|a: nat| q.contains(q.v6, a) implies covered(s, q.v6, a) by {
                    assert(covered(t, q.v6, a));
                    assert(coverage(t).contains((q.v6, a)));
                    assert(coverage(s).contains((q.v6, a)));
                }
            }
            let k = lemma_covering_block(s, q);
            lemma_entries_apart(s, i, k, s[i].v6, s[i].first());
            lemma_entries_apart(s, j, k, s[j].v6, s[j].first());
        }
    }
    lemma_injection(s.len(), t.len(), f);
}

/// In a canonical list no two entries have an address in common, and no
/// two entries can be merged into one block.
pub proof fn lemma_canonical_minimal(s: Seq<Block>, i: int, j: int)
    requires
        canonical(s),
        0 <= i < s.len(),
        0 <= j < s.len(),
        i != j,
    ensures
        forall|v6: bool, a: nat| !(s[i].contains(v6, a) && s[j].contains(v6, a)),
        !halves(s[i], s[j]),
        !halves(s[j], s[i]),
{
    assert forall|v6: bool, a: nat| !(s[i].contains(v6, a) && s[j].contains(v6, a)) by {
        if s[i].contains(v6, a) && s[j].contains(v6, a) {
            lemma_entries_apart(s, i, j, v6, a);
        }
    }
}

} // verus!
