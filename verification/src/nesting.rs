//! How well-formed address blocks lie to each other: two of them are apart,
//! or one lies in the other.

use crate::cidr::Block;
use vstd::arithmetic::div_mod::{lemma_fundamental_div_mod, lemma_fundamental_div_mod_converse};
use vstd::arithmetic::power2::{lemma_pow2_adds, lemma_pow2_pos, lemma_pow2_strictly_increases, pow2};
use vstd::prelude::*;

verus! {

/// Of two multiples of `d`, the larger is at least `d` more than the
/// smaller.
pub proof fn lemma_multiples_apart(p: int, q: int, d: int)
    requires
        d > 0,
        p % d == 0,
        q % d == 0,
        p < q,
    ensures
        p + d <= q,
{
    lemma_fundamental_div_mod(p, d);
    lemma_fundamental_div_mod(q, d);
    let i = p / d;
    let j = q / d;
    assert(i < j) by (nonlinear_arith)
        requires
            d > 0,
            d * i < d * j,
    ;
    assert(d * (i + 1) <= d * j) by (nonlinear_arith)
        requires
            d > 0,
            i + 1 <= j,
    ;
    assert(d * (i + 1) == d * i + d) by (nonlinear_arith);
}

/// A multiple of a multiple of `d` is a multiple of `d`.
pub proof fn lemma_multiple_of_multiple(x: int, m: int, d: int)
    requires
        d > 0,
        m > 0,
        x % (m * d) == 0,
    ensures
        x % d == 0,
{
    assert(m * d > 0) by (nonlinear_arith)
        requires
            d > 0,
            m > 0,
    ;
    lemma_fundamental_div_mod(x, m * d);
    let k = x / (m * d);
    assert(x == (m * k) * d + 0) by (nonlinear_arith)
        requires
            x == (m * d) * k,
    ;
    lemma_fundamental_div_mod_converse(x, d, m * k, 0);
}

/// A block has at least one address, and its size is a power of two that
/// grows as the prefix gets shorter.
pub proof fn lemma_size(a: Block)
    requires
        a.wf(),
    ensures
        a.size() >= 1,
        a.first() <= a.last(),
        a.contains(a.v6, a.first()),
        a.contains(a.v6, a.last()),
{
    lemma_pow2_pos((a.width() - a.bits) as nat);
}

/// Of two blocks of one family, the one with the shorter prefix has a size
/// that is a multiple of the size of the other.
pub proof fn lemma_size_divides(a: Block, b: Block)
    requires
        a.wf(),
        b.wf(),
        a.v6 == b.v6,
        a.bits <= b.bits,
    ensures
        a.size() == pow2((b.bits - a.bits) as nat) * b.size(),
        pow2((b.bits - a.bits) as nat) >= 1,
        a.bits < b.bits ==> a.size() > b.size(),
        a.bits == b.bits ==> a.size() == b.size(),
{
    let w = a.width();
    lemma_pow2_adds((b.bits - a.bits) as nat, (w - b.bits) as nat);
    lemma_pow2_pos((b.bits - a.bits) as nat);
    assert((b.bits - a.bits) as nat + (w - b.bits) as nat == (w - a.bits) as nat);
    if a.bits < b.bits {
        lemma_pow2_strictly_increases((w - b.bits) as nat, (w - a.bits) as nat);
    }
}

/// Where two blocks of one family have an address in common, the one with
/// the longer prefix lies in the other.
pub proof fn lemma_nested(a: Block, b: Block, x: nat)
    requires
        a.wf(),
        b.wf(),
        a.bits <= b.bits,
        a.contains(a.v6, x),
        b.contains(a.v6, x),
    ensures
        b.inside(a),
{
    lemma_size(a);
    lemma_size(b);
    lemma_size_divides(a, b);
    let d = b.size() as int;
    let m = pow2((b.bits - a.bits) as nat) as int;
    let pa = a.prefix as int;
    let pb = b.prefix as int;
    assert(a.size() as int == m * d);
    lemma_multiple_of_multiple(pa, m, d);
    // the end of `a` is a multiple of the size of `b` too
    lemma_fundamental_div_mod(pa, d);
    let ea = pa + m * d;
    assert(ea == (pa / d + m) * d + 0) by (nonlinear_arith)
        requires
            pa == d * (pa / d) + pa % d,
            pa % d == 0,
            ea == pa + m * d,
    ;
    lemma_fundamental_div_mod_converse(ea, d, pa / d + m, 0);
    if pb < pa {
        lemma_multiples_apart(pb, pa, d);
    }
    if pb < ea {
        lemma_multiples_apart(pb, ea, d);
    }
}

/// Two blocks with the same first and last address and of one family are
/// the same block.
pub proof fn lemma_same_range(a: Block, b: Block)
    requires
        a.wf(),
        b.wf(),
        a.inside(b),
        b.inside(a),
    ensures
        a == b,
{
    lemma_size(a);
    lemma_size(b);
    if a.bits < b.bits {
        lemma_size_divides(a, b);
    } else if b.bits < a.bits {
        lemma_size_divides(b, a);
    }
}

/// A block that lies in another has no shorter prefix than it.
pub proof fn lemma_inside_bits(a: Block, b: Block)
    requires
        a.wf(),
        b.wf(),
        a.inside(b),
    ensures
        b.bits <= a.bits,
{
    lemma_size(a);
    lemma_size(b);
    if a.bits < b.bits {
        lemma_size_divides(a, b);
    }
}

} // verus!
