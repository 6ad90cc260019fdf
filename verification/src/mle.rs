//! Multilinear polynomials over the coefficient field.
//!
//! A polynomial of `k` variables is an ordered vector of `2^k`
//! coefficients.  `eval_reverse_order` evaluates it at a big-endian point:
//! the first point coordinate binds the most significant bit of the
//! coefficient index.  `ith_eq_vec_elem` gives one coefficient of the
//! multilinear equality indicator of a challenge vector; the evaluation
//! layer uses it at index zero to pin unused high-order variables to the
//! all-zero assignment.

use vstd::arithmetic::power2::{lemma_pow2_pos, lemma_pow2_unfold, pow2};
use vstd::prelude::*;
use vstd::seq_lib::*;

use crate::field::{fadd, fmul, fsub, vals, FieldElem};

verus! {

/// The value at a big-endian point of the multilinear function with
/// coefficient values `c` (of length `2^p.len()`): the first coordinate
/// interpolates between the low and the high half of the coefficients.
pub open spec fn mle_eval_rev(c: Seq<int>, p: Seq<int>) -> int
    decreases p.len(),
{
    if p.len() == 0 {
        if c.len() > 0 {
            c[0]
        } else {
            0
        }
    } else {
        let half = c.len() as int / 2;
        fadd(
            fmul(fsub(1, p[0]), mle_eval_rev(c.subrange(0, half), p.skip(1))),
            fmul(p[0], mle_eval_rev(c.subrange(half, c.len() as int), p.skip(1))),
        )
    }
}

/// The weight a challenge coordinate contributes for one index bit:
/// the coordinate where the bit is set, its complement where it is clear.
pub open spec fn eq_weight(x: int, bit: int) -> int {
    if bit == 1 {
        x
    } else {
        fsub(1, x)
    }
}

/// Coefficient `index` of the multilinear equality indicator of the
/// challenge vector `p`: the product of one weight per coordinate, the
/// last coordinate paired with the lowest index bit.  Index bits beyond
/// the coordinates are ignored.
pub open spec fn eq_coeff(p: Seq<int>, index: nat) -> int
    decreases p.len(),
{
    if p.len() == 0 {
        1
    } else {
        fmul(eq_coeff(p.drop_last(), index / 2), eq_weight(p.last(), (index % 2) as int))
    }
}

/// A multilinear polynomial: `2^num_vars` field coefficients in index
/// order.
pub struct MultiLinearPoly {
    coeffs: Vec<FieldElem>,
    num_vars: usize,
}

impl MultiLinearPoly {
    /// The coefficient values, in index order.
    pub closed spec fn coeff_vals(self) -> Seq<int> {
        vals(self.coeffs@)
    }

    /// The number of variables.
    pub closed spec fn spec_num_vars(self) -> nat {
        self.num_vars as nat
    }

    #[verifier::type_invariant]
    spec fn wf(self) -> bool {
        self.coeffs@.len() == pow2(self.num_vars as nat)
    }

    /// A `num_vars`-variable polynomial from its `2^num_vars` coefficients.
    pub fn new(coeffs: Vec<FieldElem>, num_vars: usize) -> (r: Self)
        requires
            coeffs@.len() == pow2(num_vars as nat),
        ensures
            r.coeff_vals() == vals(coeffs@),
            r.spec_num_vars() == num_vars,
    {
        MultiLinearPoly { coeffs, num_vars }
    }

    /// The number of variables.
    pub fn num_vars(&self) -> (r: usize)
        ensures
            r == self.spec_num_vars(),
    {
        self.num_vars
    }

    /// How many coefficients the polynomial has.
    pub fn len(&self) -> (r: usize)
        ensures
            r == self.coeff_vals().len(),
            r == pow2(self.spec_num_vars()),
    {
        proof {
            use_type_invariant(self);
        }
        self.coeffs.len()
    }

    /// The coefficient at `i`.
    pub fn coeff(&self, i: usize) -> (r: FieldElem)
        requires
            i < self.coeff_vals().len(),
        ensures
            r.val() == self.coeff_vals()[i as int],
    {
        proof {
            use_type_invariant(self);
        }
        self.coeffs[i]
    }

    /// Evaluates the polynomial at a big-endian point with one coordinate
    /// per variable.
    pub fn eval_reverse_order(&self, point: &Vec<FieldElem>) -> (r: FieldElem)
        requires
            point@.len() == self.spec_num_vars(),
        ensures
            r.val() == mle_eval_rev(self.coeff_vals(), vals(point@)),
    {
        proof {
            use_type_invariant(self);
            assert_seqs_equal!(self.coeff_vals().subrange(0, self.coeff_vals().len() as int)
                == self.coeff_vals());
            assert_seqs_equal!(vals(point@).skip(0) == vals(point@));
        }
        let n = self.coeffs.len();
        eval_rev_rec(&self.coeffs, 0, n, point, 0)
    }
}

/// Evaluates the coefficient window `[offset, offset + len)` at the point
/// coordinates from `pi` on; the window holds one coefficient per
/// assignment of the remaining variables.
fn eval_rev_rec(
    coeffs: &Vec<FieldElem>,
    offset: usize,
    len: usize,
    point: &Vec<FieldElem>,
    pi: usize,
) -> (r: FieldElem)
    requires
        offset + len <= coeffs@.len(),
        pi <= point@.len(),
        len == pow2((point@.len() - pi) as nat),
    ensures
        r.val() == mle_eval_rev(
            vals(coeffs@).subrange(offset as int, offset + len),
            vals(point@).skip(pi as int),
        ),
    decreases point@.len() - pi,
{
    let ghost c = vals(coeffs@).subrange(offset as int, offset + len);
    let ghost p = vals(point@).skip(pi as int);
    let clen = coeffs.len();
    if pi == point.len() {
        proof {
            vstd::arithmetic::power2::lemma2_to64();
            assert(len == pow2(0));
            assert(c[0] == vals(coeffs@)[offset as int]);
        }
        coeffs[offset]
    } else {
        proof {
            lemma_pow2_unfold((point@.len() - pi) as nat);
            lemma_pow2_pos((point@.len() - pi - 1) as nat);
        }
        let half = len / 2;
        proof {
            assert(half == pow2((point@.len() - (pi + 1)) as nat));
            assert_seqs_equal!(vals(coeffs@).subrange(offset as int, offset + half)
                == c.subrange(0, c.len() as int / 2));
            assert_seqs_equal!(vals(coeffs@).subrange(offset + half, offset + len)
                == c.subrange(c.len() as int / 2, c.len() as int));
            assert_seqs_equal!(vals(point@).skip(pi + 1) == p.skip(1));
        }
        let lo = eval_rev_rec(coeffs, offset, half, point, pi + 1);
        let hi = eval_rev_rec(coeffs, offset + half, half, point, pi + 1);
        let x = point[pi];
        let one = FieldElem::one();
        proof {
            assert(x.val() == p[0]);
        }
        one.sub(x).mul(lo).add(x.mul(hi))
    }
}

/// Coefficient `index` of the equality indicator of the challenge vector
/// `point`: the product, over the coordinates, of the coordinate or its
/// complement as the matching index bit is set or clear.
pub fn ith_eq_vec_elem(point: &Vec<FieldElem>, index: usize) -> (r: FieldElem)
    ensures
        r.val() == eq_coeff(vals(point@), index as nat),
{
    proof {
        assert_seqs_equal!(vals(point@).take(point@.len() as int) == vals(point@));
    }
    let n = point.len();
    eq_coeff_rec(point, index, n)
}

/// The product of the weights of the first `k` coordinates against the
/// low `k` bits of `index`.
fn eq_coeff_rec(point: &Vec<FieldElem>, index: usize, k: usize) -> (r: FieldElem)
    requires
        k <= point@.len(),
    ensures
        r.val() == eq_coeff(vals(point@).take(k as int), index as nat),
    decreases k,
{
    if k == 0 {
        FieldElem::one()
    } else {
        proof {
            assert_seqs_equal!(vals(point@).take(k as int).drop_last()
                == vals(point@).take(k - 1));
            assert(vals(point@).take(k as int).last() == vals(point@)[k - 1]);
            assert(index as nat / 2 == (index / 2) as nat);
        }
        let sub = eq_coeff_rec(point, index / 2, k - 1);
        let x = point[k - 1];
        let w = if index % 2 == 1 {
            x
        } else {
            FieldElem::one().sub(x)
        };
        proof {
            assert(w.val() == eq_weight(vals(point@)[k - 1], (index % 2) as int));
        }
        sub.mul(w)
    }
}

} // verus!
