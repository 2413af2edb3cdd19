//! The model group: the additive group of integers modulo a 64-bit prime.
//!
//! The MSM engine only needs an abelian group with an identity, addition,
//! negation and small-scalar multiplication; every element is kept as a
//! canonical residue below `GROUP_ORDER`.

use vstd::prelude::*;
use vstd::arithmetic::div_mod::{
    lemma_small_mod, lemma_mod_sub_multiples_vanish, lemma_mod_bound,
    lemma_mul_mod_noop_left, lemma_add_mod_noop, lemma_mod_twice,
};
use vstd::arithmetic::mul::{
    lemma_mul_is_distributive_add_other_way, lemma_mul_is_associative,
    lemma_mul_is_commutative,
};
use vstd::arithmetic::power2::{pow2, lemma2_to64};
use crate::scalar::{Scalar256, limbs_from, scalar_value};

verus! {

/// Order of the model group (a prime that fits in 64 bits).
pub const GROUP_ORDER: u64 = 0xFFFF_FFFF_0000_0001;

/// Value of the canonical generator of the first group.
pub const G1_GENERATOR_VALUE: u64 = 7;

/// Value of the canonical generator of the second group.
pub const G2_GENERATOR_VALUE: u64 = 11;

/// A group element, stored as its canonical residue.
#[derive(Clone, Copy, PartialEq, Eq, Structural, Debug)]
pub struct GroupElement {
    pub value: u64,
}

impl View for GroupElement {
    type V = int;

    open spec fn view(&self) -> int {
        self.value as int
    }
}

/// The order as a spec-level integer.
pub open spec fn order() -> int {
    GROUP_ORDER as int
}

impl GroupElement {
    /// A group element is well formed when its residue is canonical.
    pub open spec fn wf(&self) -> bool {
        self.value < GROUP_ORDER
    }

    /// The group identity.
    pub fn identity() -> (r: GroupElement)
        ensures
            r.wf(),
            r@ == 0,
    {
        GroupElement { value: 0 }
    }

    /// Whether this element is the identity.
    pub fn is_identity(&self) -> (r: bool)
        ensures
            r <==> self@ == 0,
    {
        self.value == 0
    }

    /// Group addition.
    pub fn add(&self, other: &GroupElement) -> (r: GroupElement)
        requires
            self.wf(),
            other.wf(),
        ensures
            r.wf(),
            r@ == (self@ + other@) % order(),
    {
        let diff = GROUP_ORDER - other.value;
        if self.value >= diff {
            proof {
                lemma_mod_sub_multiples_vanish(self@ + other@, order());
                lemma_small_mod((self@ + other@ - order()) as nat, GROUP_ORDER as nat);
            }
            GroupElement { value: self.value - diff }
        } else {
            proof {
                lemma_small_mod((self@ + other@) as nat, GROUP_ORDER as nat);
            }
            GroupElement { value: self.value + other.value }
        }
    }

    /// Group doubling.
    pub fn double(&self) -> (r: GroupElement)
        requires
            self.wf(),
        ensures
            r.wf(),
            r@ == (2 * self@) % order(),
    {
        self.add(self)
    }

    /// Group negation.
    pub fn negate(&self) -> (r: GroupElement)
        requires
            self.wf(),
        ensures
            r.wf(),
            r@ == (0 - self@) % order(),
    {
        if self.value == 0 {
            proof {
                lemma_small_mod(0, GROUP_ORDER as nat);
            }
            GroupElement { value: 0 }
        } else {
            proof {
                lemma_mod_sub_multiples_vanish(0 - self@, order());
                lemma_small_mod((order() - self@) as nat, GROUP_ORDER as nat);
            }
            GroupElement { value: GROUP_ORDER - self.value }
        }
    }

    /// Group subtraction.
    pub fn sub(&self, other: &GroupElement) -> (r: GroupElement)
        requires
            self.wf(),
            other.wf(),
        ensures
            r.wf(),
            r@ == (self@ - other@) % order(),
    {
        let n = other.negate();
        let r = self.add(&n);
        proof {
            if other@ == 0 {
                lemma_small_mod(0, GROUP_ORDER as nat);
            } else {
                lemma_mod_sub_multiples_vanish(0 - other@, order());
                lemma_small_mod((order() - other@) as nat, GROUP_ORDER as nat);
                lemma_mod_sub_multiples_vanish(self@ - other@ + order(), order());
            }
        }
        r
    }

    /// Multiplication by a small (64-bit) scalar.
    pub fn mul_u64(&self, k: u64) -> (r: GroupElement)
        requires
            self.wf(),
        ensures
            r.wf(),
            r@ == (k * self@) % order(),
    {
        proof {
            vstd::arithmetic::mul::lemma_mul_upper_bound(
                self.value as int, u64::MAX as int, k as int, u64::MAX as int);
        }
        let prod: u128 = (self.value as u128) * (k as u128);
        let rem: u128 = prod % (GROUP_ORDER as u128);
        proof {
            lemma_mod_bound(prod as int, GROUP_ORDER as int);
            assert(prod as int == k * self@) by {
                vstd::arithmetic::mul::lemma_mul_is_commutative(k as int, self@);
            }
        }
        GroupElement { value: rem as u64 }
    }
}

impl GroupElement {
    /// Multiplication by a full 256-bit scalar: the naive reference,
    /// folding the limbs from the most significant down.
    pub fn mul_scalar(&self, s: &Scalar256) -> (r: GroupElement)
        requires
            self.wf(),
        ensures
            r.wf(),
            r@ == (scalar_value(*s) * self@) % order(),
    {
        let modulus: u128 = GROUP_ORDER as u128;
        let mut acc: u64 = 0;
        let mut k: usize = 4;
        proof {
            lemma_small_mod(0, GROUP_ORDER as nat);
            assert(limbs_from(*s, 4) == 0);
            assert(0 * self@ == 0);
        }
        while k > 0
            invariant
                self.wf(),
                k <= 4,
                modulus == GROUP_ORDER as u128,
                acc < GROUP_ORDER,
                acc as int == (limbs_from(*s, k as int) * self@) % order(),
            decreases k,
        {
            k = k - 1;
            let limb = s.data[k];
            let ghost rest = limbs_from(*s, k as int + 1) as int;
            let ghost cur = limbs_from(*s, k as int) as int;
            proof {
                lemma2_to64();
                vstd::arithmetic::mul::lemma_mul_upper_bound(
                    acc as int, 0xFFFF_FFFF_FFFF_FFFF, pow2(64) as int,
                    0x1_0000_0000_0000_0000);
            }
            let t: u128 = ((acc as u128) * 0x1_0000_0000_0000_0000u128) % modulus;
            proof {
                vstd::arithmetic::mul::lemma_mul_upper_bound(
                    limb as int, 0xFFFF_FFFF_FFFF_FFFF, self.value as int,
                    0xFFFF_FFFF_FFFF_FFFF);
            }
            let u: u128 = ((limb as u128) * (self.value as u128)) % modulus;
            proof {
                lemma_mod_bound((acc as int) * pow2(64) as int, order());
                lemma_mod_bound((limb as int) * self@, order());
            }
            let nv: u128 = (t + u) % modulus;
            proof {
                lemma_mod_bound(t as int + u as int, order());
                // t + u is congruent to limbs_from(k) * p.
                assert(t as int == (rest * self@ * pow2(64)) % order()) by {
                    lemma_mul_mod_noop_left(rest * self@, pow2(64) as int, order());
                }
                lemma_add_mod_noop(
                    rest * self@ * pow2(64), limb as int * self@, order());
                lemma_mod_twice(rest * self@ * pow2(64), order());
                lemma_mod_twice(limb as int * self@, order());
                lemma_mod_twice(
                    rest * self@ * pow2(64) + limb as int * self@, order());
                assert(cur * self@
                    == rest * self@ * pow2(64) + limb as int * self@) by {
                    assert(cur == limb + pow2(64) * rest);
                    lemma_mul_is_distributive_add_other_way(
                        self@, limb as int, pow2(64) as int * rest);
                    lemma_mul_is_associative(pow2(64) as int, rest, self@);
                    lemma_mul_is_commutative(pow2(64) as int, rest * self@);
                    lemma_mul_is_commutative(limb as int, self@);
                }
            }
            acc = nv as u64;
        }
        GroupElement { value: acc }
    }
}

/// The canonical generator of the first group.
pub fn g1_generator() -> (r: GroupElement)
    ensures
        r.wf(),
        r@ == G1_GENERATOR_VALUE as int,
{
    GroupElement { value: G1_GENERATOR_VALUE }
}

/// The canonical generator of the second group.
pub fn g2_generator() -> (r: GroupElement)
    ensures
        r.wf(),
        r@ == G2_GENERATOR_VALUE as int,
{
    GroupElement { value: G2_GENERATOR_VALUE }
}

} // verus!
