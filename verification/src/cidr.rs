//! CIDR blocks: an address and a prefix length, with the arithmetic on their
//! bounds, halves and parents.

use vstd::prelude::*;

use crate::error::Error;
use crate::text::{
    invalid_network_message, invalid_network_text, invalid_prefix_message, invalid_prefix_text,
};

verus! {

/// The bits of an address that lie below a prefix of the given length: the
/// host part. A prefix of 32 or more leaves none.
pub open spec fn host_mask(prefix: u8) -> u32 {
    if prefix >= 32 {
        0u32
    } else {
        0xffff_ffffu32 >> (prefix as u32)
    }
}

/// The single bit that tells the two halves of a block with the given prefix
/// apart. Meant for prefixes below 32.
pub open spec fn split_bit(prefix: u8) -> u32 {
    1u32 << ((31 - prefix) as u32)
}

/// An IPv4 CIDR block: a network address and the length of its prefix.
#[derive(Clone, Copy, Debug, PartialEq, Eq, Structural, Hash, PartialOrd, Ord)]
pub struct Cidr {
    network: u32,
    prefix: u8,
}

impl View for Cidr {
    type V = Set<u32>;

    /// The addresses of the block.
    open spec fn view(&self) -> Set<u32> {
        Set::new(|a: u32| self.first() <= a && a <= self.last())
    }
}

impl Cidr {
    /// The network address, as a number with the first octet highest.
    pub closed spec fn spec_network(&self) -> u32 {
        self.network
    }

    /// The length of the prefix in bits.
    pub closed spec fn spec_prefix(&self) -> u8 {
        self.prefix
    }

    /// The prefix is at most 32 and the address is clear below it.
    pub open spec fn wf(&self) -> bool {
        self.prefix() <= 32 && self.network() & host_mask(self.prefix()) == 0
    }

    /// The lowest address of the block.
    pub open spec fn spec_first(&self) -> u32 {
        self.network()
    }

    /// The highest address of the block: the network address with every bit
    /// below the prefix set.
    pub open spec fn spec_last(&self) -> u32 {
        self.network() | host_mask(self.prefix())
    }

    /// The lowest address of the upper half of the block; the block's only
    /// address when it has no halves.
    pub open spec fn spec_mid(&self) -> u32 {
        if self.prefix() >= 32 {
            self.network()
        } else {
            self.network() | split_bit(self.prefix())
        }
    }

    /// The block made of these two parts, whatever they are.
    pub closed spec fn of(network: u32, prefix: u8) -> Cidr {
        Cidr { network, prefix }
    }

    /// The lower half: the same address under a prefix one bit longer.
    pub open spec fn spec_left_subnet(&self) -> Option<Cidr> {
        if self.prefix() >= 32 {
            None
        } else {
            Some(Cidr::of(self.network(), (self.prefix() + 1) as u8))
        }
    }

    /// The upper half: the midpoint under a prefix one bit longer.
    pub open spec fn spec_right_subnet(&self) -> Option<Cidr> {
        if self.prefix() >= 32 {
            None
        } else {
            Some(Cidr::of(self.mid(), (self.prefix() + 1) as u8))
        }
    }

    /// The parent: the address cut down to a prefix one bit shorter.
    pub open spec fn spec_parent(&self) -> Option<Cidr> {
        if self.prefix() == 0 {
            None
        } else {
            Some(
                Cidr::of(
                    self.network() & !host_mask((self.prefix() - 1) as u8),
                    (self.prefix() - 1) as u8,
                ),
            )
        }
    }

    /// Whether every address of `net` lies in this block.
    pub open spec fn spec_contains(&self, net: Cidr) -> bool {
        self.first() <= net.first() && net.last() <= self.last()
    }

    /// The parts of the block made of two parts are those parts.
    pub proof fn lemma_of(network: u32, prefix: u8)
        ensures
            Cidr::of(network, prefix).network() == network,
            Cidr::of(network, prefix).prefix() == prefix,
    {
    }

    /// Two blocks with the same address and prefix are the same block.
    pub proof fn lemma_same(self, other: Cidr)
        requires
            self.network() == other.network(),
            self.prefix() == other.prefix(),
        ensures
            self == other,
    {
    }

    /// Whether `r` is what building a block from the two parts gives: the
    /// block, or the error that says which part is wrong, with its message.
    pub open spec fn built(network: u32, prefix: u8, r: Result<Cidr, Error>) -> bool {
        if prefix > 32 {
            r matches Err(Error::InvalidPrefix(text)) && text@ == invalid_prefix_text(prefix)
        } else if network & host_mask(prefix) != 0 {
            r matches Err(Error::InvalidNetwork(text)) && text@ == invalid_network_text(
                network,
                prefix,
            )
        } else {
            r matches Ok(cidr) && cidr == Cidr::of(network, prefix) && cidr.wf()
        }
    }

    /// The block `network/prefix`, if the prefix is at most 32 and the address
    /// has no bit set below it.
    pub fn new(network: u32, prefix: u8) -> (r: Result<Cidr, Error>)
        ensures
            Cidr::built(network, prefix, r),
            r matches Ok(cidr) ==> cidr.wf() && cidr.network() == network && cidr.prefix()
                == prefix,
    {
        if prefix > 32 {
            return Err(Error::InvalidPrefix(invalid_prefix_message(prefix)));
        }
        if network & host_bits(prefix) != 0 {
            return Err(Error::InvalidNetwork(invalid_network_message(network, prefix)));
        }
        Ok(Cidr { network, prefix })
    }

    /// The network address, as a number with the first octet highest.
    #[verifier::when_used_as_spec(spec_network)]
    pub fn network(&self) -> (r: u32)
        ensures
            r == self.network(),
    {
        self.network
    }

    /// The length of the prefix in bits.
    #[verifier::when_used_as_spec(spec_prefix)]
    pub fn prefix(&self) -> (r: u8)
        ensures
            r == self.prefix(),
    {
        self.prefix
    }

    /// The lowest address of the block.
    #[verifier::when_used_as_spec(spec_first)]
    pub fn first(&self) -> (r: u32)
        ensures
            r == self.first(),
    {
        self.network
    }

    /// The lowest address of the upper half of the block; the block's only
    /// address when it has no halves.
    #[verifier::when_used_as_spec(spec_mid)]
    pub fn mid(&self) -> (r: u32)
        requires
            self.wf(),
        ensures
            r == self.mid(),
    {
        if self.prefix == 32 {
            self.network
        } else {
            self.network | (1u32 << ((31 - self.prefix) as u32))
        }
    }

    /// The highest address of the block.
    #[verifier::when_used_as_spec(spec_last)]
    pub fn last(&self) -> (r: u32)
        requires
            self.wf(),
        ensures
            r == self.last(),
    {
        self.network | host_bits(self.prefix)
    }

    /// Whether every address of `net` lies in this block.
    #[verifier::when_used_as_spec(spec_contains)]
    pub fn contains(&self, net: Cidr) -> (r: bool)
        requires
            self.wf(),
            net.wf(),
        ensures
            r == self.contains(net),
            r == net@.subset_of(self@),
    {
        proof {
            net.lemma_bounds();
            assert(net@.contains(net.first()));
            assert(net@.contains(net.last()));
        }
        net.first() >= self.first() && net.last() <= self.last()
    }

    /// The block one bit shorter that this block is a half of. The whole
    /// address space has none.
    #[verifier::when_used_as_spec(spec_parent)]
    pub fn parent(&self) -> (r: Option<Cidr>)
        requires
            self.wf(),
        ensures
            r == self.parent(),
            r matches Some(p) ==> (p.wf() && (p.left_subnet() == Some(*self) || p.right_subnet()
                == Some(*self))),
    {
        if self.prefix == 0 {
            None
        } else {
            proof {
                lemma_parent_bits(self.network, self.prefix);
            }
            let prefix: u8 = self.prefix - 1;
            Some(Cidr { network: self.network & !host_bits(prefix), prefix })
        }
    }

    /// The lower half of the block. A single address has none.
    #[verifier::when_used_as_spec(spec_left_subnet)]
    pub fn left_subnet(&self) -> (r: Option<Cidr>)
        requires
            self.wf(),
        ensures
            r == self.left_subnet(),
            r matches Some(c) ==> c.wf(),
    {
        if self.prefix == 32 {
            None
        } else {
            proof {
                lemma_halves(self.network, self.prefix);
            }
            Some(Cidr { network: self.network, prefix: self.prefix + 1 })
        }
    }

    /// The upper half of the block. A single address has none.
    #[verifier::when_used_as_spec(spec_right_subnet)]
    pub fn right_subnet(&self) -> (r: Option<Cidr>)
        requires
            self.wf(),
        ensures
            r == self.right_subnet(),
            r matches Some(c) ==> c.wf(),
    {
        if self.prefix == 32 {
            None
        } else {
            proof {
                lemma_halves(self.network, self.prefix);
            }
            Some(Cidr { network: self.mid(), prefix: self.prefix + 1 })
        }
    }

    /// Both halves of the block, the lower one first. A single address has
    /// none.
    pub fn split(&self) -> (r: Option<[Cidr; 2]>)
        requires
            self.wf(),
        ensures
            self.prefix() >= 32 ==> r.is_none(),
            self.prefix() < 32 ==> (r matches Some(halves) && Some(halves[0]) == self.left_subnet()
                && Some(halves[1]) == self.right_subnet() && halves[0].wf() && halves[1].wf()),
    {
        match (self.left_subnet(), self.right_subnet()) {
            (Some(left), Some(right)) => Some([left, right]),
            _ => None,
        }
    }

    /// A block starts no later than it ends, and holds exactly the addresses
    /// between the two.
    pub proof fn lemma_bounds(self)
        ensures
            self.first() <= self.last(),
            forall|a: u32| self@.contains(a) <==> self.first() <= a && a <= self.last(),
    {
        lemma_first_le_last(self.network, self.prefix);
    }

    /// The one block with an empty prefix is `0.0.0.0/0`, and it holds every
    /// address.
    pub proof fn lemma_whole(self)
        requires
            self.wf(),
            self.prefix() == 0,
        ensures
            self == Cidr::of(0, 0),
            self.first() == 0,
            self.last() == 0xffff_ffffu32,
            forall|a: u32| self@.contains(a),
    {
        let n = self.network;
        assert(n & (0xffff_ffffu32 >> 0u32) == 0 ==> n == 0 && (n | (0xffff_ffffu32 >> 0u32))
            == 0xffff_ffffu32) by (bit_vector);
    }

    /// The halves of a block are well formed, lie side by side, and together
    /// fill the block: the lower one starts where the block starts, the upper
    /// one starts at the midpoint, right after the lower one ends, and ends
    /// where the block ends.
    pub proof fn lemma_split(self)
        requires
            self.wf(),
            self.prefix() < 32,
        ensures
            ({
                let l = self.left_subnet().unwrap();
                let r = self.right_subnet().unwrap();
                &&& l.wf()
                &&& r.wf()
                &&& l.prefix() == self.prefix() + 1
                &&& r.prefix() == self.prefix() + 1
                &&& l.first() == self.first()
                &&& l.last() + 1 == r.first()
                &&& r.first() == self.mid()
                &&& r.last() == self.last()
                &&& l@.union(r@) == self@
                &&& l@.disjoint(r@)
            }),
    {
        lemma_halves(self.network, self.prefix);
        let l = self.left_subnet().unwrap();
        let r = self.right_subnet().unwrap();
        l.lemma_bounds();
        r.lemma_bounds();
        self.lemma_bounds();
        assert(l@.union(r@) =~= self@);
    }

    /// A well-formed block that lies inside another and is not the same block
    /// has the longer prefix and lies inside one of the other's halves.
    pub proof fn lemma_contained(self, inner: Cidr)
        requires
            self.wf(),
            inner.wf(),
            self.contains(inner),
        ensures
            self.prefix() <= inner.prefix(),
            self.prefix() == inner.prefix() ==> self == inner,
            self.prefix() < inner.prefix() ==> ((inner.last() < self.mid()
                && self.left_subnet().unwrap().contains(inner)) || (self.mid() <= inner.first()
                && self.right_subnet().unwrap().contains(inner))),
    {
        lemma_inside(self.network, self.prefix, inner.network, inner.prefix);
        if self.prefix < inner.prefix {
            self.lemma_split();
        }
    }

    /// A block is the parent of both its halves.
    pub proof fn lemma_halves_parent(self)
        requires
            self.wf(),
            self.prefix() < 32,
        ensures
            self.left_subnet().unwrap().parent() == Some(self),
            self.right_subnet().unwrap().parent() == Some(self),
    {
        lemma_halves_parent_bits(self.network, self.prefix);
    }

    /// A block with a parent is one of the halves of its parent, which is
    /// well formed and holds it.
    pub proof fn lemma_parent(self)
        requires
            self.wf(),
            self.prefix() > 0,
        ensures
            self.parent() matches Some(p) && p.wf() && p.contains(self) && (p.left_subnet()
                == Some(self) || p.right_subnet() == Some(self)),
    {
        lemma_parent_bits(self.network, self.prefix);
        let p = self.parent().unwrap();
        p.lemma_split();
        p.left_subnet().unwrap().lemma_bounds();
        p.right_subnet().unwrap().lemma_bounds();
    }

    /// A block that holds another and is not that other holds the other's
    /// parent too.
    pub proof fn lemma_parent_inside(self, inner: Cidr)
        requires
            self.wf(),
            inner.wf(),
            self.contains(inner),
            self != inner,
        ensures
            inner.parent() matches Some(p) && p.wf() && self.contains(p),
    {
        self.lemma_contained(inner);
        inner.lemma_parent();
        let p = inner.parent().unwrap();
        self.lemma_nested_or_disjoint(p);
        self.lemma_bounds();
        inner.lemma_bounds();
        p.lemma_bounds();
        assert(self@.contains(inner.first()) && p@.contains(inner.first()));
        if p.contains(self) {
            p.lemma_contained(self);
        }
    }

    /// Two well-formed blocks are nested, or have no address in common.
    pub proof fn lemma_nested_or_disjoint(self, other: Cidr)
        requires
            self.wf(),
            other.wf(),
        ensures
            self.contains(other) || other.contains(self) || self@.disjoint(other@),
    {
        lemma_nested_or_apart(self.network, self.prefix, other.network, other.prefix);
        self.lemma_bounds();
        other.lemma_bounds();
    }
}

impl Default for Cidr {
    /// The whole address space, `0.0.0.0/0`.
    fn default() -> (r: Cidr)
        ensures
            r == Cidr::of(0, 0),
            r.wf(),
            r.prefix() == 0,
    {
        assert(0u32 & host_mask(0) == 0) by (bit_vector);
        Cidr { network: 0, prefix: 0 }
    }
}

impl From<u32> for Cidr {
    /// The block that holds the one address and nothing else.
    fn from(value: u32) -> (r: Cidr)
        ensures
            r == Cidr::of(value, 32),
            r.wf(),
    {
        assert(value & host_mask(32) == 0) by (bit_vector);
        Cidr { network: value, prefix: 32 }
    }
}

impl vstd::std_specs::convert::FromSpecImpl<u32> for Cidr {
    open spec fn obeys_from_spec() -> bool {
        true
    }

    open spec fn from_spec(value: u32) -> Cidr {
        Cidr::of(value, 32)
    }
}

/// The two halves of a block: the lower one keeps the address, the upper one
/// starts right after the lower one ends, and together they fill the block.
proof fn lemma_halves(n: u32, p: u8)
    by (bit_vector)
    requires
        p < 32,
        n & host_mask(p) == 0,
    ensures
        n & host_mask((p + 1) as u8) == 0,
        (n | split_bit(p)) & host_mask((p + 1) as u8) == 0,
        (n | host_mask((p + 1) as u8)) + 1 == (n | split_bit(p)),
        (n | split_bit(p)) | host_mask((p + 1) as u8) == n | host_mask(p),
        n < (n | split_bit(p)),
{
}

/// A block ends no earlier than it starts.
proof fn lemma_first_le_last(n: u32, p: u8)
    by (bit_vector)
    ensures
        n <= n | host_mask(p),
{
}

/// Of two blocks, the one that lies inside the other has the longer prefix,
/// and if they differ it lies in one half of the other.
proof fn lemma_inside(n: u32, p: u8, m: u32, q: u8)
    by (bit_vector)
    requires
        p <= 32,
        q <= 32,
        n & host_mask(p) == 0,
        m & host_mask(q) == 0,
        n <= m,
        (m | host_mask(q)) <= (n | host_mask(p)),
    ensures
        p <= q,
        p == q ==> n == m,
        p < q ==> (m | host_mask(q)) < (n | split_bit(p)) || (n | split_bit(p)) <= m,
{
}

/// Two blocks are nested or have no address in common.
proof fn lemma_nested_or_apart(n: u32, p: u8, m: u32, q: u8)
    by (bit_vector)
    requires
        p <= 32,
        q <= 32,
        n & host_mask(p) == 0,
        m & host_mask(q) == 0,
    ensures
        (n <= m && (m | host_mask(q)) <= (n | host_mask(p)))
        || (m <= n && (n | host_mask(p)) <= (m | host_mask(q)))
        || (n | host_mask(p)) < m
        || (m | host_mask(q)) < n,
{
}

/// Cutting an address down to a prefix one bit shorter clears it below that
/// prefix, and changes at most the bit that tells the halves apart.
proof fn lemma_parent_bits(n: u32, p: u8)
    by (bit_vector)
    requires
        1 <= p <= 32,
        n & host_mask(p) == 0,
    ensures
        (n & !host_mask((p - 1) as u8)) & host_mask((p - 1) as u8) == 0,
        (n & !host_mask((p - 1) as u8)) == n || (n & !host_mask((p - 1) as u8)) | split_bit(
            (p - 1) as u8,
        ) == n,
{
}

/// Clearing the bit that tells the halves of a block apart leads from either
/// half back to the block.
proof fn lemma_halves_parent_bits(n: u32, p: u8)
    by (bit_vector)
    requires
        p < 32,
        n & host_mask(p) == 0,
    ensures
        n & !host_mask(p) == n,
        (n | split_bit(p)) & !host_mask(p) == n,
{
}

/// Computes [`host_mask`] for a prefix of at most 32 bits.
fn host_bits(prefix: u8) -> (r: u32)
    requires
        prefix <= 32,
    ensures
        r == host_mask(prefix),
{
    if prefix >= 32 {
        0
    } else {
        u32::MAX >> (prefix as u32)
    }
}

} // verus!
