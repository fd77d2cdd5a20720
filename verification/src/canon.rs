//! The canonical form of a set of addresses: the least list of address
//! blocks that covers it.

use crate::cidr::{Block, CidrBlock};
use cidr_utils::cidr::{IpCidr, Ipv4Cidr, Ipv6Cidr};
use cidr_utils::utils::IpCidrCombiner;
use vstd::prelude::*;

verus! {

/// Whether `a` stands before `b` in a canonical list: 32-bit blocks before
/// 128-bit ones, and within a family the lower block first, with no address
/// in common.
pub open spec fn ordered(a: Block, b: Block) -> bool {
    if a.v6 == b.v6 {
        a.last() < b.first()
    } else {
        !a.v6 && b.v6
    }
}

/// Whether `a` and `b` are the lower and the upper half of one block.
pub open spec fn halves(a: Block, b: Block) -> bool {
    &&& a.v6 == b.v6
    &&& a.bits == b.bits
    &&& a.bits > 0
    &&& b.first() == a.first() + a.size()
    &&& a.first() % (2 * a.size()) == 0
}

/// A list of blocks is canonical when its blocks are well formed, stand in
/// order without overlapping, and no two of them are the halves of one
/// block.
pub open spec fn canonical(s: Seq<Block>) -> bool {
    &&& forall|i: int| 0 <= i < s.len() ==> (#[trigger] s[i]).wf()
    &&& forall|i: int, j: int| 0 <= i < j < s.len() ==> ordered(#[trigger] s[i], #[trigger] s[j])
    &&& forall|i: int, j: int|
        0 <= i < s.len() && 0 <= j < s.len() ==> !halves(#[trigger] s[i], #[trigger] s[j])
}

/// Whether some block of the list holds the address.
pub open spec fn covered(s: Seq<Block>, v6: bool, a: nat) -> bool {
    exists|i: int| 0 <= i < s.len() && (#[trigger] s[i]).contains(v6, a)
}

/// The addresses that the blocks of the list hold.
pub open spec fn coverage(s: Seq<Block>) -> Set<(bool, nat)> {
    Set::new(|p: (bool, nat)| covered(s, p.0, p.1))
}

#[verifier::external_type_specification]
#[verifier::external_body]
pub struct ExIpCidrCombiner(cidr_utils::utils::IpCidrCombiner);

/// The 32-bit blocks that a combiner holds, in its order: the first address
/// and the prefix length of each.
pub uninterp spec fn held_v4(c: IpCidrCombiner) -> Seq<(u32, u8)>;

/// The 128-bit blocks that a combiner holds, in its order.
pub uninterp spec fn held_v6(c: IpCidrCombiner) -> Seq<(u128, u8)>;

/// The blocks that a combiner holds: the 32-bit ones, then the 128-bit ones.
pub open spec fn held(c: IpCidrCombiner) -> Seq<Block> {
    Seq::new(
        held_v4(c).len(),
        |i: int| Block { v6: false, prefix: held_v4(c)[i].0 as nat, bits: held_v4(c)[i].1 as nat },
    ) + Seq::new(
        held_v6(c).len(),
        |i: int| Block { v6: true, prefix: held_v6(c)[i].0 as nat, bits: held_v6(c)[i].1 as nat },
    )
}

/// `IpCidrCombiner::new` makes a combiner that holds no block.
pub assume_specification[ IpCidrCombiner::new ]() -> (c: IpCidrCombiner)
    ensures
        held_v4(c) == Seq::<(u32, u8)>::empty(),
        held_v6(c) == Seq::<(u128, u8)>::empty(),
;

/// `IpCidrCombiner::contains` walks the blocks of the address's family and
/// says whether one of them holds the address.
#[verifier::external_body]
fn combiner_contains(c: &IpCidrCombiner, v6: bool, addr: u128) -> (r: bool)
    requires
        !v6 ==> addr <= u32::MAX,
    ensures
        r == covered(held(*c), v6, addr as nat),
{
    let probe = if v6 {
        IpCidr::V6(Ipv6Cidr::from_prefix_and_bits(addr, 128).unwrap())
    } else {
        IpCidr::V4(Ipv4Cidr::from_prefix_and_bits(addr as u32, 32).unwrap())
    };
    c.contains(probe.first_as_ip_addr())
}

/// `IpCidrCombiner::push` puts a block into a canonical list: it drops the
/// blocks that the new one covers, or the new one where it is covered, and
/// merges halves into their whole for as long as there are any. The list
/// stays canonical and covers what it covered before and the new block.
#[verifier::external_body]
fn combiner_push(c: &mut IpCidrCombiner, v6: bool, prefix: u128, bits: u8)
    requires
        (Block { v6, prefix: prefix as nat, bits: bits as nat }).wf(),
        canonical(held(*old(c))),
    ensures
        canonical(held(*final(c))),
        coverage(held(*final(c))) == coverage(held(*old(c))).union(
            (Block { v6, prefix: prefix as nat, bits: bits as nat }).addresses(),
        ),
{
    if v6 {
        c.push(IpCidr::V6(Ipv6Cidr::from_prefix_and_bits(prefix, bits).unwrap()));
    } else {
        c.push(IpCidr::V4(Ipv4Cidr::from_prefix_and_bits(prefix as u32, bits).unwrap()));
    }
}

/// `IpCidrCombiner::get_ipv4_cidrs` hands out the 32-bit blocks in order.
#[verifier::external_body]
fn combiner_v4(c: &IpCidrCombiner) -> (r: Vec<(u32, u8)>)
    ensures
        r@ == held_v4(*c),
{
    c.get_ipv4_cidrs().iter().map(|x| (x.get_prefix(), x.get_bits())).collect()
}

/// `IpCidrCombiner::get_ipv6_cidrs` hands out the 128-bit blocks in order.
#[verifier::external_body]
fn combiner_v6(c: &IpCidrCombiner) -> (r: Vec<(u128, u8)>)
    ensures
        r@ == held_v6(*c),
{
    c.get_ipv6_cidrs().iter().map(|x| (x.get_prefix(), x.get_bits())).collect()
}

/// The blocks that cover the addresses put in so far, in canonical form.
pub struct Canonicalizer {
    combiner: IpCidrCombiner,
}

impl View for Canonicalizer {
    type V = Set<(bool, nat)>;

    /// The addresses that are covered, each with its family.
    closed spec fn view(&self) -> Set<(bool, nat)> {
        coverage(self.blocks())
    }
}

impl Canonicalizer {
    /// The blocks that are held, in order.
    pub closed spec fn blocks(&self) -> Seq<Block> {
        held(self.combiner)
    }

    #[verifier::type_invariant]
    spec fn inv(&self) -> bool {
        canonical(self.blocks())
    }

    /// A canonicalizer that covers no address.
    pub fn new() -> (r: Canonicalizer)
        ensures
            r@ == Set::<(bool, nat)>::empty(),
            r.blocks() == Seq::<Block>::empty(),
    {
        let r = Canonicalizer { combiner: IpCidrCombiner::new() };
        assert(r.blocks() =~= Seq::<Block>::empty());
        assert(r@ =~= Set::<(bool, nat)>::empty());
        r
    }

    /// Whether the address `addr` of the given family is covered. An address
    /// that the family does not have is not.
    pub fn contains(&self, v6: bool, addr: u128) -> (r: bool)
        ensures
            r == self@.contains((v6, addr as nat)),
    {
        if !v6 && addr > 0xffff_ffff {
            proof {
                use_type_invariant(self);
                crate::cidr::lemma_pow2_128();
                let s = self.blocks();
                assert forall|i: int| 0 <= i < s.len() implies !(#[trigger] s[i]).contains(
                    v6,
                    addr as nat,
                ) by {
                    assert(s[i].wf());
                }
            }
            return false;
        }
        combiner_contains(&self.combiner, v6, addr)
    }

    /// Whether every address of the block is covered.
    pub fn holds(&self, block: &CidrBlock) -> (r: bool)
        ensures
            r == block@.addresses().subset_of(self@),
    {
        let v6 = block.is_v6();
        let first = block.first();
        let last = block.last();
        proof {
            crate::nesting::lemma_size(block@);
            assert(block@.addresses().contains((v6, first as nat)));
            assert(block@.addresses().contains((v6, last as nat)));
        }
        if !self.contains(v6, first) || !self.contains(v6, last) {
            return false;
        }
        // both ends are covered: all of it is where one block holds both
        let list = self.list();
        let ghost all = self.blocks();
        let mut i: usize = 0;
        while i < list.len()
            invariant
                i <= list@.len(),
                all == block_views(list@),
                all == self.blocks(),
                v6 == block@.v6,
                first == block@.first(),
                last == block@.last(),
                forall|k: int|
                    0 <= k < i ==> !((#[trigger] all[k]).contains(v6, first as nat) && all[k].contains(
                        v6,
                        last as nat,
                    )),
            decreases list@.len() - i,
        {
            assert(all[i as int] == list@[i as int]@);
            if list[i].contains(v6, first) && list[i].contains(v6, last) {
                proof {
                    assert forall|p: (bool, nat)| block@.addresses().contains(p) implies self@.contains(
                        p,
                    ) by {
                        assert(all[i as int].contains(p.0, p.1));
                    }
                }
                return true;
            }
            i += 1;
        }
        proof {
            if block@.addresses().subset_of(self@) {
                assert(crate::minimal::covers_block(all, block@)) by {
                    assert forall|a: nat| block@.contains(block@.v6, a) implies covered(
                        all,
                        block@.v6,
                        a,
                    ) by {
                        assert(block@.addresses().contains((block@.v6, a)));
                        assert(self@.contains((block@.v6, a)));
                    }
                }
                let k = crate::minimal::lemma_covering_block(all, block@);
                assert(all[k].contains(v6, first as nat) && all[k].contains(v6, last as nat));
            }
        }
        false
    }

    /// Puts a block in, unless all its addresses are covered already.
    /// Returns whether it was put in. Either way the addresses of the block
    /// are covered afterwards, and so is what was covered before.
    pub fn insert(&mut self, block: CidrBlock) -> (r: bool)
        ensures
            r == !block@.addresses().subset_of(old(self)@),
            final(self)@ == old(self)@.union(block@.addresses()),
    {
        if self.holds(&block) {
            assert(self@ =~= self@.union(block@.addresses()));
            return false;
        }
        proof {
            use_type_invariant(&*self);
        }
        let first = block.first();
        let mut combiner = IpCidrCombiner::new();
        assert(held(combiner) =~= Seq::<Block>::empty());
        core::mem::swap(&mut self.combiner, &mut combiner);
        combiner_push(&mut combiner, block.is_v6(), first, block.bits());
        self.combiner = combiner;
        true
    }

    /// The blocks that are held: the 32-bit ones, then the 128-bit ones,
    /// each family from the lowest address up.
    pub fn list(&self) -> (r: Vec<CidrBlock>)
        ensures
            block_views(r@) == self.blocks(),
            canonical(self.blocks()),
            coverage(self.blocks()) == self@,
    {
        proof {
            use_type_invariant(self);
        }
        let v4 = combiner_v4(&self.combiner);
        let v6 = combiner_v6(&self.combiner);
        let ghost all = self.blocks();
        let mut out: Vec<CidrBlock> = Vec::new();
        let mut i: usize = 0;
        while i < v4.len()
            invariant
                i <= v4@.len(),
                all == held(self.combiner),
                canonical(all),
                v4@ == held_v4(self.combiner),
                block_views(out@) =~= all.take(i as int),
            decreases v4@.len() - i,
        {
            let (prefix, bits) = v4[i];
            assert(all[i as int].wf());
            let block = CidrBlock::new(false, prefix as u128, bits).unwrap();
            proof {
                assert(block@ == all[i as int]);
                assert(all.take(i as int + 1) =~= all.take(i as int).push(all[i as int]));
                assert(block_views(out@.push(block)) =~= block_views(out@).push(block@));
            }
            out.push(block);
            i += 1;
        }
        let mut j: usize = 0;
        while j < v6.len()
            invariant
                j <= v6@.len(),
                all == held(self.combiner),
                canonical(all),
                v4@ == held_v4(self.combiner),
                v6@ == held_v6(self.combiner),
                block_views(out@) =~= all.take(v4@.len() + j),
            decreases v6@.len() - j,
        {
            let (prefix, bits) = v6[j];
            assert(all[v4@.len() + j].wf());
            let block = CidrBlock::new(true, prefix, bits).unwrap();
            proof {
                let k = v4@.len() + j;
                assert(block@ == all[k]);
                assert(all.take(k + 1) =~= all.take(k).push(all[k]));
                assert(block_views(out@.push(block)) =~= block_views(out@).push(block@));
            }
            out.push(block);
            j += 1;
        }
        assert(all.take(all.len() as int) =~= all);
        out
    }
}

/// The mathematical content of each block of a sequence.
pub open spec fn block_views(v: Seq<CidrBlock>) -> Seq<Block> {
    Seq::new(v.len(), |i: int| v[i]@)
}

} // verus!
