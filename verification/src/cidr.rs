//! Address blocks in CIDR form: a prefix and the number of bits of it that
//! are fixed, for 32-bit (IPv4) and 128-bit (IPv6) addresses.

use vstd::arithmetic::div_mod::lemma_fundamental_div_mod_converse;
use vstd::arithmetic::power2::{
    lemma2_to64,
    lemma_pow2_adds,
    lemma_pow2_pos,
    lemma_pow2_strictly_increases,
    pow2,
};
use crate::lines::is_line;
use cidr_utils::cidr::{IpCidr, Ipv4Cidr, Ipv6Cidr};
use vstd::bits::lemma_u128_shr_is_div;
use vstd::prelude::*;

verus! {

/// The mathematical content of an address block.
pub struct Block {
    /// Whether the addresses have 128 bits; otherwise they have 32.
    pub v6: bool,
    /// The first address of the block, as a number.
    pub prefix: nat,
    /// How many leading bits all addresses of the block share.
    pub bits: nat,
}

impl Block {
    /// The number of bits of an address of this family.
    pub open spec fn width(self) -> nat {
        if self.v6 {
            128
        } else {
            32
        }
    }

    /// The number of addresses in the block.
    pub open spec fn size(self) -> nat {
        pow2((self.width() - self.bits) as nat)
    }

    /// A block is well formed when its prefix length fits the family, its
    /// first address is a multiple of its size, and it ends within the
    /// address space.
    pub open spec fn wf(self) -> bool {
        &&& self.bits <= self.width()
        &&& self.prefix % self.size() == 0
        &&& self.prefix + self.size() <= pow2(self.width())
    }

    /// The first address of the block.
    pub open spec fn first(self) -> nat {
        self.prefix
    }

    /// The last address of the block.
    pub open spec fn last(self) -> nat {
        (self.prefix + self.size() - 1) as nat
    }

    /// Whether the address `a` of the given family lies in the block.
    pub open spec fn contains(self, v6: bool, a: nat) -> bool {
        self.v6 == v6 && self.first() <= a <= self.last()
    }

    /// Whether every address of this block lies in `other`.
    pub open spec fn inside(self, other: Block) -> bool {
        self.v6 == other.v6 && other.first() <= self.first() && self.last() <= other.last()
    }

    /// The block in CIDR notation.
    pub open spec fn text(self) -> Seq<u8> {
        cidr_text(self.v6, self.prefix as u128, self.bits as u8)
    }

    /// The addresses of the block.
    pub open spec fn addresses(self) -> Set<(bool, nat)> {
        Set::new(|p: (bool, nat)| self.contains(p.0, p.1))
    }
}

/// What `cidr_utils::cidr::IpCidr::from_str` reads from a text: the family,
/// first address and prefix length of the block, or `None` where the text is
/// no address and no block in CIDR notation.
pub uninterp spec fn text_cidr(text: Seq<u8>) -> Option<(bool, u128, u8)>;

/// What `cidr_utils::cidr::IpCidr` prints for a block.
pub uninterp spec fn cidr_text(v6: bool, prefix: u128, bits: u8) -> Seq<u8>;

/// The block that a text stands for, if it stands for one.
pub open spec fn parsed(text: Seq<u8>) -> Option<Block> {
    match text_cidr(text) {
        Some((v6, prefix, bits)) => {
            let b = Block { v6, prefix: prefix as nat, bits: bits as nat };
            if b.wf() {
                Some(b)
            } else {
                None
            }
        },
        None => None,
    }
}

/// Calls `cidr_utils::cidr::IpCidr::from_str` on the text, which must be
/// UTF-8 to be read at all, and hands out what the block holds. Nothing is
/// claimed but that the same text gives the same answer.
#[verifier::external_body]
fn read_cidr(text: &[u8]) -> (r: Option<(bool, u128, u8)>)
    ensures
        r == text_cidr(text@),
{
    match std::str::from_utf8(text).ok().and_then(|s| IpCidr::from_str(s).ok()) {
        Some(IpCidr::V4(c)) => Some((false, u128::from(c.get_prefix()), c.get_bits())),
        Some(IpCidr::V6(c)) => Some((true, c.get_prefix(), c.get_bits())),
        None => None,
    }
}

/// Prints a block with the `Display` of `cidr_utils::cidr::Ipv4Cidr` or
/// `Ipv6Cidr`: the first address, a slash and the prefix length. Claimed of
/// the text: that it is not empty and holds neither whitespace nor a line
/// feed, and that `IpCidr::from_str` reads the same block from it.
#[verifier::external_body]
fn write_cidr(v6: bool, prefix: u128, bits: u8) -> (r: Vec<u8>)
    requires
        (Block { v6, prefix: prefix as nat, bits: bits as nat }).wf(),
    ensures
        r@ == cidr_text(v6, prefix, bits),
        is_line(r@),
        text_cidr(r@) == Some((v6, prefix, bits)),
{
    if v6 {
        Ipv6Cidr::from_prefix_and_bits(prefix, bits).unwrap().to_string().into_bytes()
    } else {
        Ipv4Cidr::from_prefix_and_bits(prefix as u32, bits).unwrap().to_string().into_bytes()
    }
}

/// The value of two to the power 128.
pub proof fn lemma_pow2_128()
    ensures
        pow2(32) == 0x1_0000_0000,
        pow2(128) == 0x1_0000_0000_0000_0000_0000_0000_0000_0000,
{
    lemma2_to64();
    lemma_pow2_adds(64, 64);
}

/// All bits set, shifted right by `b`, is one less than a power of two.
proof fn lemma_mask_div(a: nat, b: nat)
    requires
        b <= a,
    ensures
        (pow2(a) - 1) / (pow2(b) as int) == pow2((a - b) as nat) - 1,
{
    let q = pow2((a - b) as nat) as int;
    let d = pow2(b) as int;
    lemma_pow2_adds((a - b) as nat, b);
    lemma_pow2_pos(b);
    lemma_pow2_pos((a - b) as nat);
    assert(pow2(a) - 1 == (q - 1) * d + (d - 1)) by (nonlinear_arith)
        requires
            pow2(a) == q * d,
    ;
    lemma_fundamental_div_mod_converse(pow2(a) - 1, d, q - 1, d - 1);
}

/// The largest address of a family.
fn top(v6: bool) -> (t: u128)
    ensures
        t + 1 == pow2(if v6 { 128nat } else { 32nat }),
{
    proof {
        lemma_pow2_128();
    }
    if v6 {
        u128::MAX
    } else {
        0xffff_ffff
    }
}

/// The number of addresses of a block with `bits` fixed bits, less one.
fn host_mask(v6: bool, bits: u8) -> (m: u128)
    requires
        bits <= (if v6 { 128u8 } else { 32u8 }),
    ensures
        m + 1 == pow2(((if v6 { 128int } else { 32int }) - bits) as nat),
{
    let all = top(v6);
    let width: u8 = if v6 { 128 } else { 32 };
    if bits == 0 {
        all
    } else if bits == width {
        proof {
            lemma2_to64();
        }
        0
    } else {
        let shift: u128 = bits as u128;
        proof {
            lemma_u128_shr_is_div(all, shift);
            lemma_mask_div(width as nat, bits as nat);
        }
        all >> shift
    }
}

/// An address block.
#[derive(Clone, Copy, Debug)]
pub struct CidrBlock {
    v6: bool,
    prefix: u128,
    bits: u8,
}

impl View for CidrBlock {
    type V = Block;

    closed spec fn view(&self) -> Block {
        Block { v6: self.v6, prefix: self.prefix as nat, bits: self.bits as nat }
    }
}

impl CidrBlock {
    #[verifier::type_invariant]
    spec fn inv(&self) -> bool {
        self@.wf()
    }

    /// The block of the given family, first address and prefix length, or
    /// `None` where these do not make a well-formed block.
    pub fn new(v6: bool, prefix: u128, bits: u8) -> (r: Option<CidrBlock>)
        ensures
            r is Some <==> (Block { v6, prefix: prefix as nat, bits: bits as nat }).wf(),
            r is Some ==> r->0@ == (Block { v6, prefix: prefix as nat, bits: bits as nat }),
    {
        let width: u8 = if v6 { 128 } else { 32 };
        if bits > width {
            return None;
        }
        let all = top(v6);
        let mask = host_mask(v6, bits);
        proof {
            if bits > 0 {
                lemma_pow2_strictly_increases((width - bits) as nat, width as nat);
            }
        }
        if prefix > all - mask {
            return None;
        }
        if mask < u128::MAX {
            if prefix % (mask + 1) != 0 {
                return None;
            }
        }
        proof {
            let b = Block { v6, prefix: prefix as nat, bits: bits as nat };
            assert(b.size() == mask + 1);
            if mask == u128::MAX {
                vstd::arithmetic::div_mod::lemma_small_mod(0, b.size());
            } else {
                assert(prefix as nat % ((mask + 1) as nat) == 0);
            }
        }
        Some(CidrBlock { v6, prefix, bits })
    }

    /// Reads a block from an address or a block in CIDR notation.
    pub fn parse(text: &[u8]) -> (r: Option<CidrBlock>)
        ensures
            r is Some <==> parsed(text@) is Some,
            r is Some ==> Some(r->0@) == parsed(text@),
    {
        match read_cidr(text) {
            Some((v6, prefix, bits)) => CidrBlock::new(v6, prefix, bits),
            None => None,
        }
    }

    /// The block in CIDR notation. The text can stand as a line of a stored
    /// file, and reads back as this block.
    pub fn text(&self) -> (r: Vec<u8>)
        ensures
            r@ == self@.text(),
            is_line(r@),
            parsed(r@) == Some(self@),
    {
        proof {
            use_type_invariant(self);
        }
        write_cidr(self.v6, self.prefix, self.bits)
    }

    /// Whether the block is one of 128-bit addresses.
    pub fn is_v6(&self) -> (r: bool)
        ensures
            r == self@.v6,
    {
        self.v6
    }

    /// The number of bits that all addresses of the block share.
    pub fn bits(&self) -> (r: u8)
        ensures
            r == self@.bits,
            self@.wf(),
    {
        proof {
            use_type_invariant(self);
        }
        self.bits
    }

    /// The first address of the block.
    pub fn first(&self) -> (r: u128)
        ensures
            r == self@.first(),
            self@.wf(),
    {
        proof {
            use_type_invariant(self);
        }
        self.prefix
    }

    /// The last address of the block.
    pub fn last(&self) -> (r: u128)
        ensures
            r == self@.last(),
            self@.wf(),
    {
        proof {
            use_type_invariant(self);
            lemma_pow2_128();
        }
        let mask = host_mask(self.v6, self.bits);
        self.prefix + mask
    }

    /// Whether the address `addr` of the given family lies in the block.
    pub fn contains(&self, v6: bool, addr: u128) -> (r: bool)
        ensures
            r == self@.contains(v6, addr as nat),
    {
        proof {
            use_type_invariant(self);
            lemma_pow2_128();
        }
        let mask = host_mask(self.v6, self.bits);
        self.v6 == v6 && self.prefix <= addr && addr - self.prefix <= mask
    }
}

} // verus!
