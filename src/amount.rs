//! Unsigned 256-bit amounts, held as two 128-bit limbs.
use vstd::prelude::*;

verus! {

/// 2^128, the weight of the high limb.
pub open spec fn limb_base() -> nat {
    u128::MAX as nat + 1
}

/// 2^256 - 1, the largest amount that can be represented.
pub open spec fn u256_max() -> nat {
    (limb_base() * limb_base() - 1) as nat
}

/// An unsigned 256-bit integer: `hi * 2^128 + lo`.
#[derive(Clone, Copy, Debug, PartialEq, Eq, Structural)]
pub struct U256 {
    pub hi: u128,
    pub lo: u128,
}

impl View for U256 {
    type V = nat;

    open spec fn view(&self) -> nat {
        self.hi as nat * limb_base() + self.lo as nat
    }
}

impl U256 {
    /// The amount zero.
    pub fn zero() -> (r: U256)
        ensures
            r@ == 0,
    {
        U256 { hi: 0, lo: 0 }
    }

    /// The largest representable amount, 2^256 - 1.
    pub fn max_value() -> (r: U256)
        ensures
            r@ == u256_max(),
    {
        let r = U256 { hi: u128::MAX, lo: u128::MAX };
        proof {
            let b = limb_base() as int;
            assert((b - 1) * b + (b - 1) == b * b - 1) by (nonlinear_arith);
        }
        r
    }

    /// The amount `v`.
    pub fn from_u64(v: u64) -> (r: U256)
        ensures
            r@ == v as nat,
    {
        U256 { hi: 0, lo: v as u128 }
    }

    /// The amount `hi * 2^128 + lo`.
    pub fn from_limbs(hi: u128, lo: u128) -> (r: U256)
        ensures
            r@ == hi as nat * limb_base() + lo as nat,
    {
        U256 { hi, lo }
    }

    /// Every amount lies between zero and 2^256 - 1.
    pub proof fn lemma_bounded(&self)
        ensures
            self@ <= u256_max(),
    {
        let b = limb_base() as int;
        let h = self.hi as int;
        assert(h * b + self.lo <= b * b - 1) by (nonlinear_arith)
            requires
                0 <= h <= b - 1,
                self.lo <= b - 1,
        ;
    }

    /// Two amounts with the same value are the same amount.
    pub proof fn lemma_view_injective(&self, other: &U256)
        requires
            self@ == other@,
        ensures
            *self == *other,
    {
        let b = limb_base() as int;
        let (h1, l1, h2, l2) = (self.hi as int, self.lo as int, other.hi as int, other.lo as int);
        assert(h1 == h2) by (nonlinear_arith)
            requires
                h1 * b + l1 == h2 * b + l2,
                0 <= l1 < b,
                0 <= l2 < b,
                0 <= h1,
                0 <= h2,
        ;
    }

    /// Equality of amounts.
    pub fn is_equal(&self, other: &U256) -> (r: bool)
        ensures
            r == (self@ == other@),
    {
        proof {
            if self@ == other@ {
                self.lemma_view_injective(other);
            }
        }
        self.hi == other.hi && self.lo == other.lo
    }

    /// Addition that refuses to wrap: `None` exactly when the sum exceeds 2^256 - 1.
    pub fn checked_add(&self, other: &U256) -> (r: Option<U256>)
        ensures
            r is Some <==> self@ + other@ <= u256_max(),
            r matches Some(s) ==> s@ == self@ + other@,
    {
        let carry: u128;
        let lo: u128;
        if self.lo <= u128::MAX - other.lo {
            lo = self.lo + other.lo;
            carry = 0;
        } else {
            lo = self.lo - (u128::MAX - other.lo) - 1;
            carry = 1;
        }
        proof {
            lemma_limb_sum(self.hi as int, self.lo as int, other.hi as int, other.lo as int, lo as int, carry as int);
        }
        if self.hi > u128::MAX - other.hi {
            return None;
        }
        let hi_sum: u128 = self.hi + other.hi;
        if hi_sum > u128::MAX - carry {
            return None;
        }
        proof {
            U256 { hi: (hi_sum + carry) as u128, lo }.lemma_bounded();
        }
        Some(U256 { hi: hi_sum + carry, lo })
    }
}

/// Regrouping a limb-wise sum: the total is `(h1 + h2 + c) * 2^128 + lo`, and it exceeds
/// 2^256 - 1 as soon as the high part reaches 2^128.
proof fn lemma_limb_sum(h1: int, l1: int, h2: int, l2: int, lo: int, c: int)
    requires
        0 <= h1,
        0 <= h2,
        0 <= lo,
        l1 + l2 == lo + c * limb_base(),
    ensures
        (h1 * limb_base() + l1) + (h2 * limb_base() + l2) == (h1 + h2 + c) * limb_base() + lo,
        h1 + h2 + c >= limb_base() ==> (h1 * limb_base() + l1) + (h2 * limb_base() + l2)
            > u256_max(),
{
    let b = limb_base() as int;
    assert((h1 * b + l1) + (h2 * b + l2) == (h1 + h2 + c) * b + lo) by (nonlinear_arith)
        requires
            l1 + l2 == lo + c * b,
    ;
    if h1 + h2 + c >= b {
        assert((h1 + h2 + c) * b >= b * b) by (nonlinear_arith)
            requires
                h1 + h2 + c >= b,
                b > 0,
        ;
    }
}

} // verus!
