//! The degree-2 sumcheck target: a sum of products of multilinear
//! polynomials, `f0·g0 + f1·g1 + ...`, each pair over the same variables.
//!
//! `sum` gives the claimed total before any variable is bound: the dot
//! product of each pair's coefficient vectors, summed over pairs.
//! `evaluate` gives the value at a big-endian challenge point: a pair of
//! fewer variables than the point is broadcast into the full variable
//! space by pinning the extra high-order variables to the all-zero
//! assignment, through the equality indicator's coefficient at index zero.

use vstd::arithmetic::power2::pow2;
use vstd::prelude::*;
use vstd::seq_lib::*;

use crate::field::{fadd, fmul, vals, FieldElem, FIELD_MODULUS};
use crate::mle::{eq_coeff, ith_eq_vec_elem, mle_eval_rev, MultiLinearPoly};

verus! {

/// The largest variable count among the pairs, 0 with no pairs.
pub open spec fn max_nv(s: Seq<(MultiLinearPoly, MultiLinearPoly)>) -> nat
    decreases s.len(),
{
    if s.len() == 0 {
        0
    } else {
        let rest = max_nv(s.drop_last());
        let nv = s.last().0.spec_num_vars();
        if nv > rest {
            nv
        } else {
            rest
        }
    }
}

/// The field dot product of two equal-length value sequences.
pub open spec fn dot(f: Seq<int>, g: Seq<int>) -> int
    decreases f.len(),
{
    if f.len() == 0 {
        0
    } else {
        fadd(dot(f.drop_last(), g.drop_last()), fmul(f.last(), g.last()))
    }
}

/// The claimed total of the pairs: the sum over pairs of the dot product
/// of the pair's coefficient vectors.
pub open spec fn sop_sum(s: Seq<(MultiLinearPoly, MultiLinearPoly)>) -> int
    decreases s.len(),
{
    if s.len() == 0 {
        0
    } else {
        fadd(
            sop_sum(s.drop_last()),
            dot(s.last().0.coeff_vals(), s.last().1.coeff_vals()),
        )
    }
}

/// One pair's contribution at a big-endian point: the pair's polynomials
/// evaluated at the low-order coordinates matching their own variables,
/// times the squared index-zero equality coefficient of the remaining
/// high-order coordinates.
pub open spec fn pair_eval(pr: (MultiLinearPoly, MultiLinearPoly), point: Seq<int>) -> int {
    let nv = pr.0.spec_num_vars();
    let seg = point.skip(point.len() - nv);
    let rem = point.take(point.len() - nv);
    fmul(
        fmul(mle_eval_rev(pr.0.coeff_vals(), seg), mle_eval_rev(pr.1.coeff_vals(), seg)),
        fmul(eq_coeff(rem, 0), eq_coeff(rem, 0)),
    )
}

/// The value of the whole sum of products at a big-endian point.
pub open spec fn sop_evaluate(s: Seq<(MultiLinearPoly, MultiLinearPoly)>, point: Seq<int>) -> int
    decreases s.len(),
{
    if s.len() == 0 {
        0
    } else {
        fadd(sop_evaluate(s.drop_last(), point), pair_eval(s.last(), point))
    }
}

/// Every pair's variable count is at most the maximum.
pub proof fn lemma_max_nv_bound(s: Seq<(MultiLinearPoly, MultiLinearPoly)>, i: int)
    requires
        0 <= i < s.len(),
    ensures
        s[i].0.spec_num_vars() <= max_nv(s),
    decreases s.len(),
{
    if i < s.len() - 1 {
        lemma_max_nv_bound(s.drop_last(), i);
    }
}

/// A sum of products of multilinear polynomials: `f0·g0 + f1·g1 + ...`,
/// with matching variable counts inside every pair.
pub struct SumOfProductsPoly {
    f_and_g_pairs: Vec<(MultiLinearPoly, MultiLinearPoly)>,
}

impl SumOfProductsPoly {
    /// The pairs, in insertion order.
    pub closed spec fn spec_pairs(self) -> Seq<(MultiLinearPoly, MultiLinearPoly)> {
        self.f_and_g_pairs@
    }

    #[verifier::type_invariant]
    spec fn wf(self) -> bool {
        forall|i: int|
            0 <= i < self.f_and_g_pairs@.len() ==> (#[trigger] self.f_and_g_pairs@[i]).0.spec_num_vars()
                == self.f_and_g_pairs@[i].1.spec_num_vars()
    }

    /// An empty sum of products.
    pub fn new() -> (r: Self)
        ensures
            r.spec_pairs() == Seq::<(MultiLinearPoly, MultiLinearPoly)>::empty(),
    {
        let r = SumOfProductsPoly { f_and_g_pairs: Vec::new() };
        proof {
            assert_seqs_equal!(r.spec_pairs()
                == Seq::<(MultiLinearPoly, MultiLinearPoly)>::empty());
        }
        r
    }

    /// How many pairs the sum holds.
    pub fn num_pairs(&self) -> (r: usize)
        ensures
            r == self.spec_pairs().len(),
    {
        self.f_and_g_pairs.len()
    }

    /// Appends a pair; its two polynomials must have the same number of
    /// variables.
    pub fn add_pair(&mut self, poly0: MultiLinearPoly, poly1: MultiLinearPoly)
        requires
            poly0.spec_num_vars() == poly1.spec_num_vars(),
        ensures
            final(self).spec_pairs() == old(self).spec_pairs().push((poly0, poly1)),
    {
        proof {
            use_type_invariant(&*self);
        }
        let mut tmp = SumOfProductsPoly { f_and_g_pairs: Vec::new() };
        core::mem::swap(self, &mut tmp);
        let SumOfProductsPoly { mut f_and_g_pairs } = tmp;
        f_and_g_pairs.push((poly0, poly1));
        let mut replacement = SumOfProductsPoly { f_and_g_pairs };
        core::mem::swap(self, &mut replacement);
    }

    /// The number of variables: the maximum over all pairs, 0 when empty.
    pub fn num_vars(&self) -> (r: usize)
        ensures
            r == max_nv(self.spec_pairs()),
    {
        let n = self.f_and_g_pairs.len();
        let mut best: usize = 0;
        let mut i: usize = 0;
        while i < n
            invariant
                i <= n,
                n == self.spec_pairs().len(),
                best == max_nv(self.spec_pairs().take(i as int)),
            decreases n - i,
        {
            let pair = &self.f_and_g_pairs[i];
            let nv = pair.0.num_vars();
            proof {
                let t = self.spec_pairs().take(i + 1);
                assert_seqs_equal!(t.drop_last() == self.spec_pairs().take(i as int));
                assert(t.last() == self.spec_pairs()[i as int]);
            }
            if nv > best {
                best = nv;
            }
            i = i + 1;
        }
        proof {
            assert_seqs_equal!(self.spec_pairs().take(n as int) == self.spec_pairs());
        }
        best
    }

    /// The claimed total: the dot product of each pair's coefficient
    /// vectors, summed over the pairs.
    pub fn sum(&self) -> (r: FieldElem)
        ensures
            r.val() == sop_sum(self.spec_pairs()),
    {
        proof {
            use_type_invariant(self);
        }
        let n = self.f_and_g_pairs.len();
        let mut total = FieldElem::zero();
        let mut i: usize = 0;
        while i < n
            invariant
                i <= n,
                n == self.spec_pairs().len(),
                forall|k: int|
                    0 <= k < n ==> (#[trigger] self.spec_pairs()[k]).0.spec_num_vars()
                        == self.spec_pairs()[k].1.spec_num_vars(),
                total.val() == sop_sum(self.spec_pairs().take(i as int)),
            decreases n - i,
        {
            let pair = &self.f_and_g_pairs[i];
            let flen = pair.0.len();
            let glen = pair.1.len();
            let ghost fv = pair.0.coeff_vals();
            let ghost gv = pair.1.coeff_vals();
            let mut acc = FieldElem::zero();
            proof {
                assert(flen == glen);
                assert(dot(fv.take(0), gv.take(0)) == 0);
            }
            let mut j: usize = 0;
            while j < flen
                invariant
                    j <= flen,
                    flen == fv.len(),
                    flen == gv.len(),
                    fv == self.spec_pairs()[i as int].0.coeff_vals(),
                    gv == self.spec_pairs()[i as int].1.coeff_vals(),
                    i < n,
                    n == self.spec_pairs().len(),
                    acc.val() == dot(fv.take(j as int), gv.take(j as int)),
                decreases flen - j,
            {
                let x = self.f_and_g_pairs[i].0.coeff(j);
                let y = self.f_and_g_pairs[i].1.coeff(j);
                proof {
                    let ft = fv.take(j + 1);
                    let gt = gv.take(j + 1);
                    assert_seqs_equal!(ft.drop_last() == fv.take(j as int));
                    assert_seqs_equal!(gt.drop_last() == gv.take(j as int));
                    assert(ft.last() == fv[j as int] && gt.last() == gv[j as int]);
                }
                acc = acc.add(x.mul(y));
                j = j + 1;
            }
            proof {
                assert_seqs_equal!(fv.take(flen as int) == fv);
                assert_seqs_equal!(gv.take(glen as int) == gv);
                let t = self.spec_pairs().take(i + 1);
                assert_seqs_equal!(t.drop_last() == self.spec_pairs().take(i as int));
                assert(t.last() == self.spec_pairs()[i as int]);
            }
            total = total.add(acc);
            i = i + 1;
        }
        proof {
            assert_seqs_equal!(self.spec_pairs().take(n as int) == self.spec_pairs());
        }
        total
    }

    /// Evaluates the whole sum at a big-endian challenge point with at
    /// least as many coordinates as any pair has variables.
    pub fn evaluate(&self, point: &Vec<FieldElem>) -> (r: FieldElem)
        requires
            max_nv(self.spec_pairs()) <= point@.len(),
        ensures
            r.val() == sop_evaluate(self.spec_pairs(), vals(point@)),
    {
        proof {
            use_type_invariant(self);
        }
        let n = self.f_and_g_pairs.len();
        let plen = point.len();
        let mut total = FieldElem::zero();
        let mut i: usize = 0;
        while i < n
            invariant
                i <= n,
                n == self.spec_pairs().len(),
                plen == point@.len(),
                max_nv(self.spec_pairs()) <= plen,
                forall|k: int|
                    0 <= k < n ==> (#[trigger] self.spec_pairs()[k]).0.spec_num_vars()
                        == self.spec_pairs()[k].1.spec_num_vars(),
                total.val() == sop_evaluate(self.spec_pairs().take(i as int), vals(point@)),
            decreases n - i,
        {
            let pair = &self.f_and_g_pairs[i];
            let nv = pair.0.num_vars();
            proof {
                lemma_max_nv_bound(self.spec_pairs(), i as int);
            }
            let seg = copy_range(point, plen - nv, plen);
            let rem = copy_range(point, 0, plen - nv);
            proof {
                assert_seqs_equal!(vals(seg@) == vals(point@).skip(plen - nv));
                assert_seqs_equal!(vals(rem@) == vals(point@).take(plen - nv));
            }
            let fe = pair.0.eval_reverse_order(&seg);
            let ge = pair.1.eval_reverse_order(&seg);
            let eqz = ith_eq_vec_elem(&rem, 0);
            let term = fe.mul(ge).mul(eqz.square());
            proof {
                assert(term.val() == pair_eval(self.spec_pairs()[i as int], vals(point@)));
                let t = self.spec_pairs().take(i + 1);
                assert_seqs_equal!(t.drop_last() == self.spec_pairs().take(i as int));
                assert(t.last() == self.spec_pairs()[i as int]);
            }
            total = total.add(term);
            i = i + 1;
        }
        proof {
            assert_seqs_equal!(self.spec_pairs().take(n as int) == self.spec_pairs());
        }
        total
    }
}

/// A copy of the element range `[start, end)` of a vector.
fn copy_range(src: &Vec<FieldElem>, start: usize, end: usize) -> (r: Vec<FieldElem>)
    requires
        start <= end <= src@.len(),
    ensures
        r@ == src@.subrange(start as int, end as int),
{
    let mut r: Vec<FieldElem> = Vec::new();
    let mut i: usize = start;
    while i < end
        invariant
            start <= i <= end,
            end <= src@.len(),
            r@ == src@.subrange(start as int, i as int),
        decreases end - i,
    {
        let x = src[i];
        r.push(x);
        proof {
            assert_seqs_equal!(r@ == src@.subrange(start as int, i + 1));
        }
        i = i + 1;
    }
    r
}

/// The all-ones value sequence of length `n`.
pub open spec fn ones(n: nat) -> Seq<int> {
    Seq::new(n, |i: int| 1int)
}

/// The dot product of the all-ones sequence with itself is its length,
/// reduced in the field.
pub proof fn lemma_dot_ones(n: nat)
    ensures
        dot(ones(n), ones(n)) == n as int % (FIELD_MODULUS as int),
    decreases n,
{
    let p = FIELD_MODULUS as int;
    if n == 0 {
        assert(0int % p == 0) by {
            vstd::arithmetic::div_mod::lemma_small_mod(0nat, FIELD_MODULUS as nat);
        }
    } else {
        lemma_dot_ones((n - 1) as nat);
        assert_seqs_equal!(ones(n).drop_last() == ones((n - 1) as nat));
        assert(ones(n).last() == 1);
        vstd::arithmetic::div_mod::lemma_small_mod(1nat, FIELD_MODULUS as nat);
        assert(fmul(1, 1) == 1);
        vstd::arithmetic::div_mod::lemma_add_mod_noop(n - 1, 1, p);
        assert(fadd((n - 1) as int % p, 1) == n as int % p);
    }
}

/// Law: the claimed total of a single pair whose two polynomials are the
/// all-ones polynomial of `k` variables is `2^k`, reduced in the field.
pub proof fn lemma_sum_single_all_ones(pairs: Seq<(MultiLinearPoly, MultiLinearPoly)>, k: nat)
    requires
        pairs.len() == 1,
        pairs[0].0.coeff_vals() == ones(pow2(k)),
        pairs[0].1.coeff_vals() == ones(pow2(k)),
    ensures
        sop_sum(pairs) == pow2(k) as int % (FIELD_MODULUS as int),
{
    let p = FIELD_MODULUS as int;
    lemma_dot_ones(pow2(k));
    assert(pairs.drop_last().len() == 0);
    assert(sop_sum(pairs.drop_last()) == 0);
    assert(sop_sum(pairs) == fadd(0, pow2(k) as int % p));
    vstd::arithmetic::div_mod::lemma_mod_twice(pow2(k) as int, p);
}

/// Law: the empty sum of products evaluates to the additive identity at
/// every point.
pub proof fn lemma_evaluate_empty_poly(point: Seq<int>)
    ensures
        sop_evaluate(Seq::<(MultiLinearPoly, MultiLinearPoly)>::empty(), point) == 0,
{
}

} // verus!
