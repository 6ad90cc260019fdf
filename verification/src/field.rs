//! Coefficient field of the prover: integers modulo the Mersenne prime
//! 2^31 - 1, carried in a `u64`.
//!
//! Every buffer the communication engine moves is a sequence of these
//! elements, and the polynomial layer does all of its arithmetic in them.
//! Contracts speak of an element through its mathematical value `val()`
//! and the spec-level operations `fadd`, `fsub`, `fmul`.

use vstd::prelude::*;

verus! {

/// The field modulus: the Mersenne prime 2^31 - 1.
pub const FIELD_MODULUS: u64 = 0x7fff_ffff;

/// Sum in the field, on mathematical values.
pub open spec fn fadd(a: int, b: int) -> int {
    (a + b) % (FIELD_MODULUS as int)
}

/// Difference in the field, on mathematical values.
pub open spec fn fsub(a: int, b: int) -> int {
    (a - b) % (FIELD_MODULUS as int)
}

/// Product in the field, on mathematical values.
pub open spec fn fmul(a: int, b: int) -> int {
    (a * b) % (FIELD_MODULUS as int)
}

/// A field element: a residue modulo `FIELD_MODULUS`.
#[derive(Clone, Copy, Debug, PartialEq, Eq, Structural)]
pub struct FieldElem {
    v: u64,
}

impl FieldElem {
    /// The mathematical value of the element.
    pub closed spec fn val(self) -> int {
        self.v as int
    }

    #[verifier::type_invariant]
    spec fn in_range(self) -> bool {
        0 <= self.val() < FIELD_MODULUS as int
    }

    /// The additive identity.
    pub fn zero() -> (r: Self)
        ensures
            r.val() == 0,
    {
        FieldElem { v: 0 }
    }

    /// The multiplicative identity.
    pub fn one() -> (r: Self)
        ensures
            r.val() == 1,
    {
        FieldElem { v: 1 }
    }

    /// The element representing `x`, reduced modulo the field order.
    pub fn from_u64(x: u64) -> (r: Self)
        ensures
            r.val() == x as int % (FIELD_MODULUS as int),
    {
        FieldElem { v: x % FIELD_MODULUS }
    }

    /// The reduced residue as a machine word.
    pub fn as_u64(&self) -> (r: u64)
        ensures
            r as int == self.val(),
            r < FIELD_MODULUS,
    {
        proof {
            use_type_invariant(self);
        }
        self.v
    }

    /// Field addition.
    pub fn add(self, other: Self) -> (r: Self)
        ensures
            r.val() == fadd(self.val(), other.val()),
    {
        proof {
            use_type_invariant(&self);
            use_type_invariant(&other);
        }
        FieldElem { v: (self.v + other.v) % FIELD_MODULUS }
    }

    /// Field subtraction.
    pub fn sub(self, other: Self) -> (r: Self)
        ensures
            r.val() == fsub(self.val(), other.val()),
    {
        proof {
            use_type_invariant(&self);
            use_type_invariant(&other);
            vstd::arithmetic::div_mod::lemma_mod_add_multiples_vanish(
                self.val() - other.val(),
                FIELD_MODULUS as int,
            );
        }
        FieldElem { v: (self.v + FIELD_MODULUS - other.v) % FIELD_MODULUS }
    }

    /// Field multiplication.
    pub fn mul(self, other: Self) -> (r: Self)
        ensures
            r.val() == fmul(self.val(), other.val()),
    {
        proof {
            use_type_invariant(&self);
            use_type_invariant(&other);
            assert(self.v * other.v <= (FIELD_MODULUS - 1) * (FIELD_MODULUS - 1)) by (nonlinear_arith)
                requires
                    self.v < FIELD_MODULUS && other.v < FIELD_MODULUS,
            ;
        }
        FieldElem { v: (self.v * other.v) % FIELD_MODULUS }
    }

    /// The square of the element.
    pub fn square(self) -> (r: Self)
        ensures
            r.val() == fmul(self.val(), self.val()),
    {
        self.mul(self)
    }
}

/// The mathematical values of a sequence of elements.
pub open spec fn vals(s: Seq<FieldElem>) -> Seq<int> {
    Seq::new(s.len(), |i: int| s[i].val())
}

/// Elements with equal values are equal.
pub proof fn lemma_val_injective(a: FieldElem, b: FieldElem)
    requires
        a.val() == b.val(),
    ensures
        a == b,
{
}

/// Every value of a sequence is a reduced residue.
pub open spec fn all_in_range(v: Seq<int>) -> bool {
    forall|i: int| 0 <= i < v.len() ==> 0 <= #[trigger] v[i] < FIELD_MODULUS as int
}

} // verus!
