//! Sets of IPv4 addresses as canonical binary tries, with the operations
//! that change them, the walk that lists them, and what holds of both.

use vstd::prelude::*;
use vstd::relations::injective_on;
use vstd::set_lib::{lemma_int_range, lemma_len_subset, lemma_map_size, set_int_range};

use crate::cidr::Cidr;

verus! {

/// How a node of the trie stands to the set: wholly outside, wholly inside,
/// or divided between its two halves.
#[derive(Debug, PartialEq, Eq, PartialOrd, Ord)]
enum Inclusion {
    Excluded,
    Included,
    Subnets(Box<CidrNode>, Box<CidrNode>),
}

/// The two operations that add or remove one block.
#[derive(Clone, Copy, Debug, PartialEq, Eq, Structural, PartialOrd, Ord)]
enum BinarySetOperator {
    Difference,
    Union,
}

/// A node of the trie: the block it covers and how that block stands to the
/// set.
#[derive(Debug, PartialEq, Eq, PartialOrd, Ord)]
struct CidrNode {
    cidr: Cidr,
    inclusion: Inclusion,
}

impl Clone for CidrNode {
    /// A copy of the node and of all below it.
    fn clone(&self) -> (r: CidrNode)
        ensures
            r == *self,
        decreases self,
    {
        let inclusion = match &self.inclusion {
            Inclusion::Excluded => Inclusion::Excluded,
            Inclusion::Included => Inclusion::Included,
            Inclusion::Subnets(left, right) => {
                let left: &CidrNode = &**left;
                let right: &CidrNode = &**right;
                Inclusion::Subnets(Box::new(left.clone()), Box::new(right.clone()))
            },
        };
        CidrNode { cidr: self.cidr, inclusion }
    }
}

impl Inclusion {
    /// Whether the label is one of the two that stand for a whole block.
    spec fn is_pure(&self) -> bool {
        self is Excluded || self is Included
    }
}

impl BinarySetOperator {
    /// The label that the operation gives to the blocks it reaches.
    spec fn target(&self) -> Inclusion {
        match self {
            BinarySetOperator::Difference => Inclusion::Excluded,
            BinarySetOperator::Union => Inclusion::Included,
        }
    }

    /// What the operation makes of a set and the addresses it is given.
    spec fn apply(&self, set: Set<u32>, operand: Set<u32>) -> Set<u32> {
        match self {
            BinarySetOperator::Difference => set.difference(operand),
            BinarySetOperator::Union => set.union(operand),
        }
    }

    fn into(self) -> (r: Inclusion)
        ensures
            r == self.target(),
    {
        match self {
            BinarySetOperator::Difference => Inclusion::Excluded,
            BinarySetOperator::Union => Inclusion::Included,
        }
    }
}

impl CidrNode {
    /// The node and all below it are sound: every block is well formed, the
    /// children of a divided node cover its two halves, and no divided node
    /// has two children that are both wholly inside or both wholly outside.
    spec fn wf(&self) -> bool
        decreases self,
    {
        &&& self.cidr.wf()
        &&& match self.inclusion {
            Inclusion::Subnets(left, right) => {
                &&& self.cidr.prefix() < 32
                &&& Some(left.cidr) == self.cidr.left_subnet()
                &&& Some(right.cidr) == self.cidr.right_subnet()
                &&& left.wf()
                &&& right.wf()
                &&& !(left.inclusion.is_pure() && left.inclusion == right.inclusion)
            },
            _ => true,
        }
    }

    /// Whether the address is in the set that the node describes.
    spec fn holds(&self, a: u32) -> bool
        decreases self,
    {
        match self.inclusion {
            Inclusion::Excluded => false,
            Inclusion::Included => self.cidr@.contains(a),
            Inclusion::Subnets(left, right) => left.holds(a) || right.holds(a),
        }
    }

    /// The set that the node describes.
    spec fn members(&self) -> Set<u32> {
        Set::new(|a: u32| self.holds(a))
    }

    /// The blocks that are wholly inside, from the lowest to the highest.
    spec fn cover(&self) -> Seq<Cidr>
        decreases self,
    {
        match self.inclusion {
            Inclusion::Excluded => Seq::empty(),
            Inclusion::Included => seq![self.cidr],
            Inclusion::Subnets(left, right) => left.cover() + right.cover(),
        }
    }

    /// The set of a sound node lies inside the node's block.
    proof fn lemma_within(&self)
        requires
            self.wf(),
        ensures
            self.members().subset_of(self.cidr@),
        decreases self,
    {
        match self.inclusion {
            Inclusion::Subnets(left, right) => {
                left.lemma_within();
                right.lemma_within();
                self.cidr.lemma_split();
            },
            _ => {},
        }
    }

    /// A node over the block that is wholly outside the set.
    fn new(cidr: Cidr) -> (r: CidrNode)
        ensures
            r.cidr == cidr,
            r.inclusion == Inclusion::Excluded,
    {
        CidrNode { cidr, inclusion: Inclusion::Excluded }
    }

    /// As `wf`, but the node itself may be divided into two children that
    /// are both wholly inside or both wholly outside.
    spec fn wf_below(&self) -> bool {
        &&& self.cidr.wf()
        &&& match self.inclusion {
            Inclusion::Subnets(left, right) => {
                &&& self.cidr.prefix() < 32
                &&& Some(left.cidr) == self.cidr.left_subnet()
                &&& Some(right.cidr) == self.cidr.right_subnet()
                &&& left.wf()
                &&& right.wf()
            },
            _ => true,
        }
    }

    fn is_included(&self) -> (r: bool)
        ensures
            r == (self.inclusion is Included),
    {
        match &self.inclusion {
            Inclusion::Included => true,
            _ => false,
        }
    }

    fn is_excluded(&self) -> (r: bool)
        ensures
            r == (self.inclusion is Excluded),
    {
        match &self.inclusion {
            Inclusion::Excluded => true,
            _ => false,
        }
    }

    /// Whether the node already carries the label that the operation gives.
    fn has_label_of(&self, operator: BinarySetOperator) -> (r: bool)
        ensures
            r == (self.inclusion == operator.target()),
    {
        match operator {
            BinarySetOperator::Difference => self.is_excluded(),
            BinarySetOperator::Union => self.is_included(),
        }
    }

    /// Turns a node that is wholly inside or wholly outside into a divided
    /// one whose two halves carry the label it had. A divided node stays as
    /// it is.
    fn materialize(&mut self)
        requires
            old(self).wf(),
            old(self).cidr.prefix() < 32,
        ensures
            final(self).wf_below(),
            final(self).inclusion is Subnets,
            final(self).cidr == old(self).cidr,
            final(self).members() == old(self).members(),
            old(self).inclusion is Subnets ==> *final(self) == *old(self),
    {
        proof {
            self.cidr.lemma_split();
            reveal_with_fuel(CidrNode::holds, 2);
        }
        if self.is_included() {
            let left = CidrNode {
                cidr: self.cidr.left_subnet().unwrap(),
                inclusion: Inclusion::Included,
            };
            let right = CidrNode {
                cidr: self.cidr.right_subnet().unwrap(),
                inclusion: Inclusion::Included,
            };
            self.inclusion = Inclusion::Subnets(Box::new(left), Box::new(right));
            assert(self.members() =~= old(self).members());
        } else if self.is_excluded() {
            let left = CidrNode::new(self.cidr.left_subnet().unwrap());
            let right = CidrNode::new(self.cidr.right_subnet().unwrap());
            self.inclusion = Inclusion::Subnets(Box::new(left), Box::new(right));
            assert(self.members() =~= old(self).members());
        }
    }

    /// Gives a divided node whose two children carry the same pure label
    /// that label.
    fn collapse(&mut self)
        requires
            old(self).wf_below(),
        ensures
            final(self).wf(),
            final(self).cidr == old(self).cidr,
            final(self).members() == old(self).members(),
            old(self).wf() ==> *final(self) == *old(self),
    {
        let both_included = match &self.inclusion {
            Inclusion::Subnets(left, right) => left.is_included() && right.is_included(),
            _ => false,
        };
        let both_excluded = match &self.inclusion {
            Inclusion::Subnets(left, right) => left.is_excluded() && right.is_excluded(),
            _ => false,
        };
        proof {
            if self.cidr.prefix() < 32 {
                self.cidr.lemma_split();
            }
            reveal_with_fuel(CidrNode::holds, 2);
        }
        if both_included {
            self.inclusion = Inclusion::Included;
            assert(self.members() =~= old(self).members());
        } else if both_excluded {
            self.inclusion = Inclusion::Excluded;
            assert(self.members() =~= old(self).members());
        }
    }

    /// Adds the block to the set below this node, or removes it, and keeps
    /// the node in canonical form.
    fn binary_set_operation(&mut self, cidr: Cidr, operator: BinarySetOperator)
        requires
            old(self).wf(),
            cidr.wf(),
        ensures
            final(self).wf(),
            final(self).cidr == old(self).cidr,
            final(self).members() == operator.apply(
                old(self).members(),
                cidr@.intersect(old(self).cidr@),
            ),
        decreases 32 - old(self).cidr.prefix(),
    {
        proof {
            self.lemma_within();
            self.cidr.lemma_bounds();
            cidr.lemma_bounds();
        }
        if cidr.contains(self.cidr) {
            self.inclusion = operator.into();
            assert(self.members() =~= operator.apply(
                old(self).members(),
                cidr@.intersect(old(self).cidr@),
            ));
        } else if self.cidr.contains(cidr) {
            proof {
                self.cidr.lemma_contained(cidr);
                self.cidr.lemma_split();
            }
            if !self.has_label_of(operator) {
                self.materialize();
                let mid = self.cidr.mid();
                let ghost before = *self;
                proof {
                    match before.inclusion {
                        Inclusion::Subnets(left, right) => {
                            left.lemma_within();
                            right.lemma_within();
                            left.cidr.lemma_bounds();
                            right.cidr.lemma_bounds();
                        },
                        _ => {},
                    }
                }
                match &mut self.inclusion {
                    Inclusion::Subnets(left, right) => {
                        if cidr.first() < mid {
                            left.binary_set_operation(cidr, operator);
                        } else {
                            right.binary_set_operation(cidr, operator);
                        }
                    },
                    _ => {},
                }
                proof {
                    let ghost after = *self;
                    match (before.inclusion, after.inclusion) {
                        (Inclusion::Subnets(l0, r0), Inclusion::Subnets(l1, r1)) => {
                            assert forall|a: u32|
                                after.holds(a) == operator.apply(
                                    before.members(),
                                    cidr@,
                                ).contains(a) by {
                                assert(l0.members().contains(a) == l0.holds(a));
                                assert(r0.members().contains(a) == r0.holds(a));
                                assert(l1.members().contains(a) == l1.holds(a));
                                assert(r1.members().contains(a) == r1.holds(a));
                                assert(r0.holds(a) ==> r0.cidr@.contains(a));
                                assert(l0.holds(a) ==> l0.cidr@.contains(a));
                            }
                        },
                        _ => {},
                    }
                    assert(self.members() =~= operator.apply(
                        old(self).members(),
                        cidr@.intersect(old(self).cidr@),
                    ));
                }
                self.collapse();
            } else {
                assert(self.members() =~= operator.apply(
                    old(self).members(),
                    cidr@.intersect(old(self).cidr@),
                ));
            }
        } else {
            proof {
                self.cidr.lemma_nested_or_disjoint(cidr);
            }
            assert(self.members() =~= operator.apply(
                old(self).members(),
                cidr@.intersect(old(self).cidr@),
            ));
        }
    }

    /// Swaps inside and outside in the whole subtree.
    fn complement(&mut self)
        requires
            old(self).wf(),
        ensures
            final(self).wf(),
            final(self).cidr == old(self).cidr,
            final(self).members() == old(self).cidr@.difference(old(self).members()),
            final(self).inclusion is Included <==> old(self).inclusion is Excluded,
            final(self).inclusion is Excluded <==> old(self).inclusion is Included,
        decreases 32 - old(self).cidr.prefix(),
    {
        if self.is_included() {
            self.inclusion = Inclusion::Excluded;
            assert(self.members() =~= old(self).cidr@.difference(old(self).members()));
        } else if self.is_excluded() {
            self.inclusion = Inclusion::Included;
            assert(self.members() =~= old(self).cidr@.difference(old(self).members()));
        } else {
            let ghost before = *self;
            proof {
                self.cidr.lemma_split();
                match before.inclusion {
                    Inclusion::Subnets(left, right) => {
                        left.lemma_within();
                        right.lemma_within();
                    },
                    _ => {},
                }
            }
            match &mut self.inclusion {
                Inclusion::Subnets(left, right) => {
                    left.complement();
                    right.complement();
                },
                _ => {},
            }
            proof {
                let ghost after = *self;
                match (before.inclusion, after.inclusion) {
                    (Inclusion::Subnets(l0, r0), Inclusion::Subnets(l1, r1)) => {
                        assert forall|a: u32|
                            after.holds(a) == (before.cidr@.contains(a) && !before.holds(a)) by {
                            assert(l0.members().contains(a) == l0.holds(a));
                            assert(r0.members().contains(a) == r0.holds(a));
                            assert(l1.members().contains(a) == l1.holds(a));
                            assert(r1.members().contains(a) == r1.holds(a));
                            assert(before.cidr@.contains(a) == (l0.cidr@.union(r0.cidr@)).contains(
                                a,
                            ));
                        }
                    },
                    _ => {},
                }
                assert(self.members() =~= old(self).cidr@.difference(old(self).members()));
            }
        }
    }

    /// Whether the block lies inside this node's block and every address of
    /// it is in the set.
    fn contains(&self, cidr: Cidr) -> (r: bool)
        requires
            self.wf(),
            cidr.wf(),
        ensures
            r == (self.cidr.contains(cidr) && cidr@.subset_of(self.members())),
        decreases self,
    {
        proof {
            self.lemma_within();
            self.lemma_pure();
            self.cidr.lemma_bounds();
            cidr.lemma_bounds();
            assert(cidr@.contains(cidr.first()));
            if self.cidr.contains(cidr) {
                self.cidr.lemma_contained(cidr);
            }
        }
        if cidr.prefix() < self.cidr.prefix() {
            return false;
        }
        match &self.inclusion {
            Inclusion::Excluded => {
                assert(!self.members().contains(cidr.first()));
                false
            },
            Inclusion::Included => {
                assert(self.members() == self.cidr@);
                self.cidr.contains(cidr)
            },
            Inclusion::Subnets(left, right) => {
                proof {
                    self.cidr.lemma_split();
                    left.lemma_within();
                    right.lemma_within();
                    left.cidr.lemma_bounds();
                    right.cidr.lemma_bounds();
                    if left.cidr.contains(cidr) {
                        left.cidr.lemma_contained(cidr);
                    }
                    if right.cidr.contains(cidr) {
                        right.cidr.lemma_contained(cidr);
                    }
                    assert forall|a: u32| self.members().contains(a) == (left.members().contains(a)
                        || right.members().contains(a)) by {}
                }
                if cidr.network() < self.cidr.mid() {
                    let r = left.contains(cidr);
                    proof {
                        if r {
                            assert(cidr@.subset_of(self.members()));
                        }
                        if self.cidr.contains(cidr) && cidr@.subset_of(self.members()) {
                            if self.cidr == cidr {
                                assert(self.members() =~= self.cidr@);
                            }
                            assert(left.cidr.contains(cidr));
                            assert forall|a: u32|
                                cidr@.contains(a) implies left.members().contains(a) by {
                                assert(self.members().contains(a));
                                assert(!right.cidr@.contains(a));
                            }
                        }
                    }
                    r
                } else {
                    let r = right.contains(cidr);
                    proof {
                        if r {
                            assert(cidr@.subset_of(self.members()));
                        }
                        if self.cidr.contains(cidr) && cidr@.subset_of(self.members()) {
                            assert(right.cidr.contains(cidr));
                            assert forall|a: u32|
                                cidr@.contains(a) implies right.members().contains(a) by {
                                assert(self.members().contains(a));
                                assert(!left.cidr@.contains(a));
                            }
                        }
                    }
                    r
                }
            },
        }
    }

    /// Whether the block cannot grow inside this node: its parent lies inside
    /// the node's block and has an address outside the set.
    spec fn hemmed(&self, cidr: Cidr) -> bool {
        cidr.parent() matches Some(p) && self.cidr.contains(p) && !p@.subset_of(self.members())
    }

    /// Every block that `cover` lists of a sound node is as large as it can
    /// be: it is the node's own block, or its parent lies inside the node's
    /// block and has an address outside the set.
    proof fn lemma_maximal(&self)
        requires
            self.wf(),
        ensures
            forall|i: int|
                0 <= i < self.cover().len() ==> (self.inclusion is Included && (
                #[trigger] self.cover()[i]) == self.cidr) || (self.inclusion is Subnets
                    && self.hemmed(self.cover()[i])),
        decreases self,
    {
        self.cidr.lemma_bounds();
        match self.inclusion {
            Inclusion::Subnets(left, right) => {
                left.lemma_maximal();
                right.lemma_maximal();
                left.lemma_within();
                right.lemma_within();
                self.lemma_within();
                self.lemma_pure();
                self.cidr.lemma_split();
                self.cidr.lemma_halves_parent();
                left.cidr.lemma_bounds();
                right.cidr.lemma_bounds();
                let lc = left.cover();
                let rc = right.cover();
                let c = self.cover();
                assert(c == lc + rc);
                assert forall|a: u32| self.members().contains(a) == (left.members().contains(a)
                    || right.members().contains(a)) by {}
                if self.cidr@.subset_of(self.members()) {
                    assert(self.members() =~= self.cidr@);
                }
                assert forall|i: int| 0 <= i < c.len() implies self.hemmed(#[trigger] c[i]) by {
                    let child = if i < lc.len() {
                        left
                    } else {
                        right
                    };
                    if i < lc.len() {
                        assert(c[i] == lc[i]);
                    } else {
                        assert(c[i] == rc[i - lc.len()]);
                    }
                    let p = c[i].parent().unwrap();
                    if child.inclusion is Subnets {
                        p.lemma_bounds();
                        if p@.subset_of(self.members()) {
                            assert forall|a: u32| p@.contains(a) implies child.members().contains(
                                a,
                            ) by {
                                assert(self.members().contains(a));
                                assert(child.cidr@.contains(a));
                            }
                            assert(p@.subset_of(child.members()));
                        }
                    }
                }
            },
            _ => {},
        }
    }

    /// A sound node is wholly inside exactly when its set is its whole block,
    /// and wholly outside exactly when its set is empty.
    proof fn lemma_pure(&self)
        requires
            self.wf(),
        ensures
            self.inclusion is Included <==> self.members() == self.cidr@,
            self.inclusion is Excluded <==> self.members() == Set::<u32>::empty(),
        decreases self,
    {
        self.cidr.lemma_bounds();
        assert(self.cidr@.contains(self.cidr.first()));
        match self.inclusion {
            Inclusion::Subnets(left, right) => {
                left.lemma_pure();
                right.lemma_pure();
                left.lemma_within();
                right.lemma_within();
                self.cidr.lemma_split();
                left.cidr.lemma_bounds();
                right.cidr.lemma_bounds();
                assert forall|a: u32| self.members().contains(a) == (left.members().contains(a)
                    || right.members().contains(a)) by {}
                if self.members() == self.cidr@ {
                    assert(left.members() =~= left.cidr@);
                    assert(right.members() =~= right.cidr@);
                }
                if self.members() == Set::<u32>::empty() {
                    assert(left.members() =~= Set::<u32>::empty());
                    assert(right.members() =~= Set::<u32>::empty());
                }
            },
            Inclusion::Included => {
                assert(self.members() =~= self.cidr@);
                assert(self.members().contains(self.cidr.first()));
            },
            Inclusion::Excluded => {
                assert(self.members() =~= Set::<u32>::empty());
            },
        }
    }

    /// Two sound nodes over the same block that describe the same set are the
    /// same tree.
    proof fn lemma_unique(&self, other: &CidrNode)
        requires
            self.wf(),
            other.wf(),
            self.cidr == other.cidr,
            self.members() == other.members(),
        ensures
            *self == *other,
        decreases self,
    {
        self.lemma_pure();
        other.lemma_pure();
        match (self.inclusion, other.inclusion) {
            (Inclusion::Subnets(l0, r0), Inclusion::Subnets(l1, r1)) => {
                self.cidr.lemma_split();
                l0.lemma_within();
                r0.lemma_within();
                l1.lemma_within();
                r1.lemma_within();
                assert forall|a: u32| self.members().contains(a) == (l0.members().contains(a)
                    || r0.members().contains(a)) by {}
                assert forall|a: u32| other.members().contains(a) == (l1.members().contains(a)
                    || r1.members().contains(a)) by {}
                assert(l0.members() =~= l1.members());
                assert(r0.members() =~= r1.members());
                l0.lemma_unique(&*l1);
                r0.lemma_unique(&*r1);
            },
            _ => {},
        }
    }

    /// What `cover` lists of a sound node: well-formed blocks inside the
    /// node's block, each ending before the next one starts, that together
    /// hold exactly the addresses of the set.
    proof fn lemma_cover(&self)
        requires
            self.wf(),
        ensures
            forall|i: int|
                0 <= i < self.cover().len() ==> (#[trigger] self.cover()[i]).wf()
                    && self.cidr.contains(self.cover()[i]),
            forall|i: int, j: int|
                0 <= i < j < self.cover().len() ==> (#[trigger] self.cover()[i]).last() < (
                #[trigger] self.cover()[j]).first(),
            forall|a: u32|
                self.holds(a) <==> exists|i: int|
                    0 <= i < self.cover().len() && (#[trigger] self.cover()[i])@.contains(a),
        decreases self,
    {
        self.cidr.lemma_bounds();
        match self.inclusion {
            Inclusion::Subnets(left, right) => {
                left.lemma_cover();
                right.lemma_cover();
                self.cidr.lemma_split();
                left.cidr.lemma_bounds();
                right.cidr.lemma_bounds();
                let lc = left.cover();
                let rc = right.cover();
                let c = self.cover();
                assert(c == lc + rc);
                assert forall|i: int| 0 <= i < c.len() implies (#[trigger] c[i]).wf()
                    && self.cidr.contains(c[i]) by {
                    if i < lc.len() {
                        assert(c[i] == lc[i]);
                    } else {
                        assert(c[i] == rc[i - lc.len()]);
                    }
                }
                assert forall|i: int, j: int| 0 <= i < j < c.len() implies (#[trigger] c[i]).last()
                    < (#[trigger] c[j]).first() by {
                    if i < lc.len() {
                        assert(c[i] == lc[i]);
                    } else {
                        assert(c[i] == rc[i - lc.len()]);
                    }
                    if j < lc.len() {
                        assert(c[j] == lc[j]);
                    } else {
                        assert(c[j] == rc[j - lc.len()]);
                    }
                }
                assert forall|a: u32|
                    self.holds(a) <==> exists|i: int|
                        0 <= i < c.len() && (#[trigger] c[i])@.contains(a) by {
                    if left.holds(a) {
                        let i = choose|i: int| 0 <= i < lc.len() && (#[trigger] lc[i])@.contains(a);
                        assert(c[i] == lc[i]);
                    }
                    if right.holds(a) {
                        let i = choose|i: int| 0 <= i < rc.len() && (#[trigger] rc[i])@.contains(a);
                        assert(c[i + lc.len()] == rc[i]);
                    }
                    if exists|i: int| 0 <= i < c.len() && (#[trigger] c[i])@.contains(a) {
                        let i = choose|i: int| 0 <= i < c.len() && (#[trigger] c[i])@.contains(a);
                        if i < lc.len() {
                            assert(c[i] == lc[i]);
                        } else {
                            assert(c[i] == rc[i - lc.len()]);
                        }
                    }
                }
            },
            Inclusion::Included => {
                assert forall|a: u32|
                    self.holds(a) <==> exists|i: int|
                        0 <= i < self.cover().len() && (#[trigger] self.cover()[i])@.contains(
                            a,
                        ) by {
                    if self.holds(a) {
                        assert(self.cover()[0]@.contains(a));
                    }
                }
            },
            Inclusion::Excluded => {},
        }
    }
}

/// The addresses that at least one block of the sequence holds.
pub open spec fn covered(cidrs: Seq<Cidr>) -> Set<u32> {
    Set::new(|a: u32| exists|i: int| 0 <= i < cidrs.len() && (#[trigger] cidrs[i])@.contains(a))
}

/// A set of IPv4 addresses, kept as a binary trie over the bits of the
/// address. Its view is the set of addresses.
#[derive(Debug, PartialEq, Eq, PartialOrd, Ord)]
pub struct Fcidr {
    cidr: CidrNode,
}

impl View for Fcidr {
    type V = Set<u32>;

    closed spec fn view(&self) -> Set<u32> {
        self.cidr.members()
    }
}

impl Fcidr {
    /// The trie is rooted at `0.0.0.0/0`, every divided node has its two
    /// halves as children, and it is canonical: no divided node has two
    /// children that are both wholly inside or both wholly outside the set.
    pub closed spec fn wf(&self) -> bool {
        &&& self.cidr.wf()
        &&& self.cidr.cidr.prefix() == 0
    }

    /// The number of leaves of the trie that are wholly inside the set.
    pub closed spec fn included_leaves(&self) -> nat {
        self.cidr.included()
    }

    /// The walk gives as many blocks as the trie has leaves that are wholly
    /// inside the set.
    pub proof fn lemma_cover_len(&self)
        ensures
            self.cover().len() == self.included_leaves(),
    {
        self.cidr.lemma_included();
    }

    /// The blocks that a walk of the trie gives, in the order it gives them.
    pub closed spec fn cover(&self) -> Seq<Cidr> {
        self.cidr.cover()
    }

    /// The set that holds the addresses of `cidr` and no others.
    pub fn new(cidr: Cidr) -> (r: Fcidr)
        requires
            cidr.wf(),
        ensures
            r.wf(),
            r@ == cidr@,
            r.cover() == seq![cidr],
    {
        let mut node = CidrNode { cidr, inclusion: Inclusion::Included };
        assert(node.members() =~= cidr@);
        loop
            invariant
                node.wf(),
                node.members() == cidr@,
                node.cover() == seq![cidr],
                !(node.inclusion is Excluded),
            ensures
                node.cidr.prefix() == 0,
            decreases node.cidr.prefix(),
        {
            match node.cidr.parent() {
                None => {
                    break ;
                },
                Some(parent) => {
                    proof {
                        parent.lemma_split();
                        reveal_with_fuel(CidrNode::holds, 2);
                        reveal_with_fuel(CidrNode::wf, 2);
                        reveal_with_fuel(CidrNode::cover, 2);
                    }
                    let ghost inner = node;
                    let left = parent.left_subnet().unwrap();
                    let right = parent.right_subnet().unwrap();
                    let inclusion = if node.cidr == left {
                        Inclusion::Subnets(Box::new(node), Box::new(CidrNode::new(right)))
                    } else {
                        Inclusion::Subnets(Box::new(CidrNode::new(left)), Box::new(node))
                    };
                    node = CidrNode { cidr: parent, inclusion };
                    assert(node.members() =~= inner.members());
                    assert(node.cover() =~= inner.cover());
                },
            }
        }
        proof {
            node.cidr.lemma_whole();
        }
        Fcidr { cidr: node }
    }

    /// Replaces the set by all the addresses that were not in it, and hands
    /// the set back for the next operation.
    pub fn complement(&mut self) -> (r: &mut Fcidr)
        requires
            old(self).wf(),
        ensures
            r.wf(),
            r@ == old(self)@.complement(),
            *final(self) == *final(r),
    {
        proof {
            self.cidr.cidr.lemma_whole();
        }
        self.cidr.complement();
        assert(self@ =~= old(self)@.complement());
        self
    }

    /// Takes every address of `cidr` out of the set, and hands the set back
    /// for the next operation.
    pub fn difference(&mut self, cidr: Cidr) -> (r: &mut Fcidr)
        requires
            old(self).wf(),
            cidr.wf(),
        ensures
            r.wf(),
            r@ == old(self)@.difference(cidr@),
            *final(self) == *final(r),
    {
        proof {
            self.cidr.cidr.lemma_whole();
        }
        self.cidr.binary_set_operation(cidr, BinarySetOperator::Difference);
        assert(cidr@.intersect(old(self).cidr.cidr@) =~= cidr@);
        self
    }

    /// Whether every address of `cidr` is in the set.
    pub fn is_superset(&self, cidr: Cidr) -> (r: bool)
        requires
            self.wf(),
            cidr.wf(),
        ensures
            r == cidr@.subset_of(self@),
    {
        proof {
            self.cidr.cidr.lemma_whole();
            cidr.lemma_bounds();
        }
        self.cidr.contains(cidr)
    }

    /// Puts every address of `cidr` into the set, and hands the set back for
    /// the next operation.
    pub fn union(&mut self, cidr: Cidr) -> (r: &mut Fcidr)
        requires
            old(self).wf(),
            cidr.wf(),
        ensures
            r.wf(),
            r@ == old(self)@.union(cidr@),
            *final(self) == *final(r),
    {
        proof {
            self.cidr.cidr.lemma_whole();
        }
        self.cidr.binary_set_operation(cidr, BinarySetOperator::Union);
        assert(cidr@.intersect(old(self).cidr.cidr@) =~= cidr@);
        self
    }
}

impl Fcidr {
    /// A walk over the blocks of the set, from the lowest to the highest. The
    /// blocks it gives are well formed, ascend strictly by their first
    /// address, have no address in common, and together hold exactly the
    /// addresses of the set.
    pub fn iter(&self) -> (r: FcidrIntoIterator<'_>)
        requires
            self.wf(),
        ensures
            r.remaining() == self.cover(),
            forall|i: int| 0 <= i < r.remaining().len() ==> (#[trigger] r.remaining()[i]).wf(),
            forall|i: int, j: int|
                0 <= i < j < r.remaining().len() ==> (#[trigger] r.remaining()[i]).first() < (
                #[trigger] r.remaining()[j]).first(),
            forall|i: int, j: int|
                0 <= i < r.remaining().len() && 0 <= j < r.remaining().len() && i != j ==> (
                #[trigger] r.remaining()[i])@.disjoint((#[trigger] r.remaining()[j])@),
            forall|a: u32|
                self@.contains(a) <==> exists|i: int|
                    0 <= i < r.remaining().len() && (#[trigger] r.remaining()[i])@.contains(a),
    {
        let mut next: Vec<&CidrNode> = Vec::new();
        next.push(&self.cidr);
        proof {
            self.lemma_cover();
            reveal_with_fuel(pending, 2);
            assert(next@.drop_last() =~= Seq::<&CidrNode>::empty());
            assert(pending(next@) =~= self.cidr.cover());
        }
        FcidrIntoIterator { next }
    }

    /// The blocks of the set, from the lowest to the highest: what `iter`
    /// gives, gathered.
    pub fn to_cidrs(&self) -> (r: Vec<Cidr>)
        requires
            self.wf(),
        ensures
            r@ == self.cover(),
            forall|i: int| 0 <= i < r@.len() ==> (#[trigger] r@[i]).wf(),
            forall|i: int, j: int|
                0 <= i < j < r@.len() ==> (#[trigger] r@[i]).first() < (#[trigger] r@[j]).first(),
            forall|i: int, j: int|
                0 <= i < r@.len() && 0 <= j < r@.len() && i != j ==> (#[trigger] r@[i])@.disjoint(
                    (#[trigger] r@[j])@,
                ),
            forall|a: u32|
                self@.contains(a) <==> exists|i: int|
                    0 <= i < r@.len() && (#[trigger] r@[i])@.contains(a),
    {
        proof {
            self.lemma_cover();
        }
        let mut walk = self.iter();
        let mut out: Vec<Cidr> = Vec::new();
        loop
            invariant
                out@ + walk.remaining() == self.cover(),
            ensures
                out@ == self.cover(),
            decreases walk.remaining().len(),
        {
            let ghost before = walk.remaining();
            let ghost gathered = out@;
            match walk.next() {
                None => {
                    assert(out@ + before =~= out@);
                    break ;
                },
                Some(cidr) => {
                    out.push(cidr);
                    assert(out@ + walk.remaining() =~= gathered + before);
                },
            }
        }
        out
    }

    /// The set of all addresses that some block of the sequence holds: the
    /// blocks are put into an empty set one after the other.
    pub fn from_cidrs(cidrs: &Vec<Cidr>) -> (r: Fcidr)
        requires
            forall|i: int| 0 <= i < cidrs.len() ==> (#[trigger] cidrs[i]).wf(),
        ensures
            r.wf(),
            r@ == covered(cidrs@),
    {
        let mut value = Fcidr::default();
        let mut k: usize = 0;
        assert(value@ =~= covered(cidrs@.take(0)));
        while k < cidrs.len()
            invariant
                k <= cidrs.len(),
                value.wf(),
                value@ == covered(cidrs@.take(k as int)),
                forall|i: int| 0 <= i < cidrs.len() ==> (#[trigger] cidrs[i]).wf(),
            decreases cidrs.len() - k,
        {
            value.union(cidrs[k]);
            proof {
                let shorter = cidrs@.take(k as int);
                let longer = cidrs@.take(k + 1);
                assert forall|a: u32| covered(longer).contains(a) == (covered(shorter).contains(a)
                    || cidrs[k as int]@.contains(a)) by {
                    if covered(shorter).contains(a) {
                        let i = choose|i: int|
                            0 <= i < shorter.len() && (#[trigger] shorter[i])@.contains(a);
                        assert(longer[i] == shorter[i]);
                    }
                    if cidrs[k as int]@.contains(a) {
                        assert(longer[k as int] == cidrs[k as int]);
                    }
                    if covered(longer).contains(a) {
                        let i = choose|i: int|
                            0 <= i < longer.len() && (#[trigger] longer[i])@.contains(a);
                        if i < k {
                            assert(shorter[i] == longer[i]);
                        }
                    }
                }
                assert(value@ =~= covered(longer));
            }
            k += 1;
        }
        assert(cidrs@.take(k as int) =~= cidrs@);
        value
    }

    /// A set has one trie only: two sound tries with the same addresses are
    /// the same trie, and so give the same blocks.
    pub proof fn lemma_canonical(&self, other: &Fcidr)
        requires
            self.wf(),
            other.wf(),
            self@ == other@,
        ensures
            *self == *other,
            self.cover() == other.cover(),
    {
        self.cidr.cidr.lemma_whole();
        other.cidr.cidr.lemma_whole();
        self.cidr.lemma_unique(&other.cidr);
    }

    /// What the walk gives: well-formed blocks that ascend strictly by their
    /// first address, have no address in common, and together hold exactly
    /// the addresses of the set.
    pub proof fn lemma_cover(&self)
        requires
            self.wf(),
        ensures
            forall|i: int| 0 <= i < self.cover().len() ==> (#[trigger] self.cover()[i]).wf(),
            forall|i: int, j: int|
                0 <= i < j < self.cover().len() ==> (#[trigger] self.cover()[i]).first() < (
                #[trigger] self.cover()[j]).first(),
            forall|i: int, j: int|
                0 <= i < self.cover().len() && 0 <= j < self.cover().len() && i != j ==> (
                #[trigger] self.cover()[i])@.disjoint((#[trigger] self.cover()[j])@),
            forall|a: u32|
                self@.contains(a) <==> exists|i: int|
                    0 <= i < self.cover().len() && (#[trigger] self.cover()[i])@.contains(a),
    {
        assert forall|i: int| 0 <= i < self.cover().len() implies (#[trigger] self.cover()[i]).wf() by {
            self.lemma_cover_wf(i);
        }
        assert forall|i: int, j: int| 0 <= i < j < self.cover().len() implies (
        #[trigger] self.cover()[i]).first() < (#[trigger] self.cover()[j]).first() by {
            self.lemma_cover_ascending(i, j);
        }
        assert forall|i: int, j: int|
            0 <= i < self.cover().len() && 0 <= j < self.cover().len() && i != j implies (
            #[trigger] self.cover()[i])@.disjoint((#[trigger] self.cover()[j])@) by {
            self.lemma_cover_disjoint(i, j);
        }
        self.cidr.lemma_cover();
    }

    /// Every block that the walk gives is well formed.
    pub proof fn lemma_cover_wf(&self, i: int)
        requires
            self.wf(),
            0 <= i < self.cover().len(),
        ensures
            self.cover()[i].wf(),
    {
        self.cidr.lemma_cover();
    }

    /// The walk gives its blocks in strictly ascending order of their first
    /// address; more than that, each block ends before the next one starts.
    pub proof fn lemma_cover_ascending(&self, i: int, j: int)
        requires
            self.wf(),
            0 <= i < j < self.cover().len(),
        ensures
            self.cover()[i].first() < self.cover()[j].first(),
            self.cover()[i].last() < self.cover()[j].first(),
    {
        self.cidr.lemma_cover();
        self.cover()[i].lemma_bounds();
    }

    /// No two blocks that the walk gives have an address in common.
    pub proof fn lemma_cover_disjoint(&self, i: int, j: int)
        requires
            self.wf(),
            0 <= i < self.cover().len(),
            0 <= j < self.cover().len(),
            i != j,
        ensures
            self.cover()[i]@.disjoint(self.cover()[j]@),
    {
        self.cidr.lemma_cover();
        self.cover()[i].lemma_bounds();
        self.cover()[j].lemma_bounds();
        if i < j {
            self.lemma_cover_ascending(i, j);
        } else {
            self.lemma_cover_ascending(j, i);
        }
    }

    /// Every block that the walk gives lies inside the set and is as large as
    /// it can be: its parent, if it has one, has an address outside the set.
    pub proof fn lemma_cover_maximal(&self, i: int)
        requires
            self.wf(),
            0 <= i < self.cover().len(),
        ensures
            self.cover()[i]@.subset_of(self@),
            self.cover()[i].parent() matches Some(p) ==> !p@.subset_of(self@),
    {
        self.cidr.lemma_cover();
        self.cidr.lemma_maximal();
        self.cidr.cidr.lemma_whole();
        let c = self.cover()[i];
        assert forall|a: u32| c@.contains(a) implies self@.contains(a) by {
            assert(self.cidr.holds(a));
        }
    }

    /// No list of blocks that holds exactly the addresses of the set is
    /// shorter than the one that the walk gives.
    pub proof fn lemma_cover_minimal(&self, other: Seq<Cidr>)
        requires
            self.wf(),
            forall|j: int| 0 <= j < other.len() ==> (#[trigger] other[j]).wf(),
            covered(other) == self@,
        ensures
            self.cover().len() <= other.len(),
    {
        let c = self.cover();
        let n = c.len() as int;
        let m = other.len() as int;
        let f = |i: int|
            choose|j: int| 0 <= j < m && (#[trigger] other[j])@.contains(c[i].first());
        assert forall|i: int| 0 <= i < n implies 0 <= #[trigger] f(i) < m && c[i].contains(
            other[f(i)],
        ) by {
            self.lemma_cover_wf(i);
            self.lemma_cover_maximal(i);
            c[i].lemma_bounds();
            assert(c[i]@.contains(c[i].first()));
            assert(covered(other).contains(c[i].first()));
            let j = f(i);
            let o = other[j];
            o.lemma_bounds();
            c[i].lemma_nested_or_disjoint(o);
            if o.contains(c[i]) && o != c[i] {
                o.lemma_parent_inside(c[i]);
                let p = c[i].parent().unwrap();
                p.lemma_bounds();
                assert forall|a: u32| p@.contains(a) implies self@.contains(a) by {
                    assert(o@.contains(a));
                    assert(covered(other).contains(a));
                }
                assert(p@.subset_of(self@));
            }
        }
        let x = set_int_range(0, n);
        assert(injective_on(f, x)) by {
            assert forall|i1: int, i2: int|
                x.contains(i1) && x.contains(i2) && #[trigger] f(i1) == #[trigger] f(
                    i2,
                ) implies i1 == i2 by {
                if i1 != i2 {
                    let o = other[f(i1)];
                    o.lemma_bounds();
                    c[i1].lemma_bounds();
                    c[i2].lemma_bounds();
                    self.lemma_cover_disjoint(i1, i2);
                    assert(c[i1]@.contains(o.first()));
                    assert(c[i2]@.contains(o.first()));
                }
            }
        }
        let y = x.map(f);
        lemma_int_range(0, n);
        lemma_int_range(0, m);
        lemma_map_size(x, y, f);
        assert(y.subset_of(set_int_range(0, m))) by {
            assert forall|j: int| y.contains(j) implies set_int_range(0, m).contains(j) by {
                let i = choose|i: int| x.contains(i) && j == f(i);
                assert(0 <= f(i) < m);
            }
        }
        lemma_len_subset(y, set_int_range(0, m));
    }

    /// An address is in the set exactly when one of the blocks that the walk
    /// gives holds it.
    pub proof fn lemma_cover_complete(&self)
        requires
            self.wf(),
        ensures
            self@ == covered(self.cover()),
    {
        self.cidr.lemma_cover();
        assert(self@ =~= covered(self.cover()));
    }

    /// A set built from the blocks that the walk of another set gives is that
    /// other set, trie for trie.
    pub proof fn lemma_rebuilt(&self, rebuilt: &Fcidr)
        requires
            self.wf(),
            rebuilt.wf(),
            rebuilt@ == covered(self.cover()),
        ensures
            *rebuilt == *self,
            rebuilt.cover() == self.cover(),
    {
        self.lemma_cover_complete();
        rebuilt.lemma_canonical(self);
    }

    /// Complementing twice changes nothing: `once` stands for the set after
    /// one complement, `twice` for the set after the second.
    pub proof fn lemma_complement_involution(&self, once: &Fcidr, twice: &Fcidr)
        requires
            self.wf(),
            once.wf(),
            twice.wf(),
            once@ == self@.complement(),
            twice@ == once@.complement(),
        ensures
            *twice == *self,
            twice.cover() == self.cover(),
    {
        assert(twice@ =~= self@);
        twice.lemma_canonical(self);
    }

    /// Adding a block a second time changes nothing.
    pub proof fn lemma_union_idempotent(&self, cidr: Cidr, once: &Fcidr, twice: &Fcidr)
        requires
            self.wf(),
            once.wf(),
            twice.wf(),
            once@ == self@.union(cidr@),
            twice@ == once@.union(cidr@),
        ensures
            *twice == *once,
            twice.cover() == once.cover(),
    {
        assert(twice@ =~= once@);
        twice.lemma_canonical(once);
    }

    /// Removing a block a second time changes nothing.
    pub proof fn lemma_difference_idempotent(&self, cidr: Cidr, once: &Fcidr, twice: &Fcidr)
        requires
            self.wf(),
            once.wf(),
            twice.wf(),
            once@ == self@.difference(cidr@),
            twice@ == once@.difference(cidr@),
        ensures
            *twice == *once,
            twice.cover() == once.cover(),
    {
        assert(twice@ =~= once@);
        twice.lemma_canonical(once);
    }

    /// De Morgan: the complement of a union is the intersection of the
    /// complements. Here `direct` stands for the complement of this set with
    /// `cidr` added. `detour` stands for the same intersection written with
    /// complement and union alone: the complement of what one gets when both
    /// this set and the set of `cidr` are complemented twice and then
    /// united.
    pub proof fn lemma_de_morgan(&self, cidr: Cidr, direct: &Fcidr, detour: &Fcidr)
        requires
            self.wf(),
            direct.wf(),
            detour.wf(),
            direct@ == self@.union(cidr@).complement(),
            detour@ == self@.complement().complement().union(
                cidr@.complement().complement(),
            ).complement(),
        ensures
            direct@ == self@.complement().intersect(cidr@.complement()),
            *direct == *detour,
            direct.cover() == detour.cover(),
    {
        assert(direct@ =~= self@.complement().intersect(cidr@.complement()));
        assert(direct@ =~= detour@);
        direct.lemma_canonical(detour);
    }
}

/// A walk over the blocks of a set, from the lowest to the highest. It holds
/// the nodes of the trie that are still to be visited, the next one last.
#[derive(Debug)]
pub struct FcidrIntoIterator<'a> {
    next: Vec<&'a CidrNode>,
}

impl<'a> Default for FcidrIntoIterator<'a> {
    /// A walk that is over.
    fn default() -> (r: FcidrIntoIterator<'a>)
        ensures
            r.remaining() == Seq::<Cidr>::empty(),
    {
        FcidrIntoIterator { next: Vec::new() }
    }
}

/// The blocks that a stack of nodes still has to give, the top of the stack
/// first.
spec fn pending(stack: Seq<&CidrNode>) -> Seq<Cidr>
    decreases stack.len(),
{
    if stack.len() == 0 {
        Seq::empty()
    } else {
        stack.last().cover() + pending(stack.drop_last())
    }
}

impl CidrNode {
    /// The number of nodes at and below this one that are wholly inside.
    spec fn included(&self) -> nat
        decreases self,
    {
        match self.inclusion {
            Inclusion::Excluded => 0,
            Inclusion::Included => 1,
            Inclusion::Subnets(left, right) => left.included() + right.included(),
        }
    }

    proof fn lemma_included(&self)
        ensures
            self.cover().len() == self.included(),
        decreases self,
    {
        match self.inclusion {
            Inclusion::Subnets(left, right) => {
                left.lemma_included();
                right.lemma_included();
            },
            _ => {},
        }
    }

    /// The number of nodes at and below this one.
    spec fn weight(&self) -> nat
        decreases self,
    {
        match self.inclusion {
            Inclusion::Subnets(left, right) => 1 + left.weight() + right.weight(),
            _ => 1,
        }
    }
}

/// The number of nodes at and below those of a stack.
spec fn stack_weight(stack: Seq<&CidrNode>) -> nat
    decreases stack.len(),
{
    if stack.len() == 0 {
        0
    } else {
        stack.last().weight() + stack_weight(stack.drop_last())
    }
}

impl<'a> FcidrIntoIterator<'a> {
    /// The blocks that the walk has still to give, in order.
    pub closed spec fn remaining(&self) -> Seq<Cidr> {
        pending(self.next@)
    }

    /// The next block of the walk, or nothing when the walk is over.
    pub fn next(&mut self) -> (r: Option<Cidr>)
        ensures
            old(self).remaining().len() == 0 ==> r.is_none() && final(self).remaining().len() == 0,
            old(self).remaining().len() > 0 ==> r == Some(old(self).remaining()[0])
                && final(self).remaining() == old(self).remaining().skip(1),
    {
        loop
            invariant
                pending(self.next@) == pending(old(self).next@),
            decreases stack_weight(self.next@),
        {
            let ghost stack = self.next@;
            match self.next.pop() {
                None => {
                    return None;
                },
                Some(node) => {
                    let ghost rest = self.next@;
                    assert(rest == stack.drop_last());
                    match &node.inclusion {
                        Inclusion::Excluded => {
                            assert(pending(rest) =~= pending(stack));
                            assert(stack_weight(stack) == node.weight() + stack_weight(rest));
                        },
                        Inclusion::Included => {
                            assert(pending(rest) =~= pending(stack).skip(1));
                            return Some(node.cidr);
                        },
                        Inclusion::Subnets(left, right) => {
                            self.next.push(&**right);
                            let ghost half = self.next@;
                            self.next.push(&**left);
                            proof {
                                assert(half.drop_last() =~= rest);
                                assert(self.next@.drop_last() =~= half);
                                assert(half.last() == &**right);
                                assert(self.next@.last() == &**left);
                                assert(pending(half) == right.cover() + pending(rest));
                                assert(pending(self.next@) == left.cover() + pending(half));
                                assert(pending(stack) == node.cover() + pending(rest));
                                assert(pending(self.next@) =~= pending(stack));
                                assert(stack_weight(half) == right.weight() + stack_weight(rest));
                                assert(stack_weight(self.next@) == left.weight() + stack_weight(
                                    half,
                                ));
                                assert(stack_weight(stack) == node.weight() + stack_weight(rest));
                            }
                        },
                    }
                },
            }
        }
    }
}

impl Clone for Fcidr {
    /// A set with the same trie.
    fn clone(&self) -> (r: Fcidr)
        ensures
            r == *self,
    {
        Fcidr { cidr: self.cidr.clone() }
    }
}

impl Default for Fcidr {
    /// The empty set.
    fn default() -> (r: Fcidr)
        ensures
            r.wf(),
            r@ == Set::<u32>::empty(),
            r.cover() == Seq::<Cidr>::empty(),
    {
        let r = Fcidr { cidr: CidrNode::new(Cidr::default()) };
        proof {
            r.cidr.cidr.lemma_whole();
        }
        assert(r@ =~= Set::<u32>::empty());
        r
    }
}

} // verus!
