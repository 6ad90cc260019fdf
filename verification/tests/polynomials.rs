use gkr_engine::field::{FieldElem, FIELD_MODULUS};
use gkr_engine::mle::{ith_eq_vec_elem, MultiLinearPoly};
use gkr_engine::sum_of_products::SumOfProductsPoly;

fn fe(x: u64) -> FieldElem {
    FieldElem::from_u64(x)
}

fn fes(xs: &[u64]) -> Vec<FieldElem> {
    xs.iter().map(|&x| fe(x)).collect()
}

#[test]
fn field_ops_reduce() {
    assert_eq!(FieldElem::zero().as_u64(), 0);
    assert_eq!(FieldElem::one().as_u64(), 1);
    assert_eq!(fe(FIELD_MODULUS).as_u64(), 0);
    assert_eq!(fe(FIELD_MODULUS - 1).add(fe(2)).as_u64(), 1);
    assert_eq!(fe(3).sub(fe(5)).as_u64(), FIELD_MODULUS - 2);
    assert_eq!(fe(FIELD_MODULUS - 1).mul(fe(FIELD_MODULUS - 1)).as_u64(), 1);
    assert_eq!(fe(6).square().as_u64(), 36);
}

#[test]
fn mle_eval_one_variable() {
    // coefficients [3, 5] at x = 7: (1 - 7) * 3 + 7 * 5 = 17 in the field
    let p = MultiLinearPoly::new(fes(&[3, 5]), 1);
    assert_eq!(p.num_vars(), 1);
    assert_eq!(p.eval_reverse_order(&fes(&[7])), fe(17));
}

#[test]
fn mle_eval_two_variables_picks_coefficient() {
    // at a 0/1 point the evaluation is one coefficient; the first point
    // coordinate selects the high half
    let p = MultiLinearPoly::new(fes(&[10, 11, 12, 13]), 2);
    assert_eq!(p.eval_reverse_order(&fes(&[0, 0])), fe(10));
    assert_eq!(p.eval_reverse_order(&fes(&[0, 1])), fe(11));
    assert_eq!(p.eval_reverse_order(&fes(&[1, 0])), fe(12));
    assert_eq!(p.eval_reverse_order(&fes(&[1, 1])), fe(13));
}

#[test]
fn eq_coefficient_values() {
    // one coordinate x = 2: index 0 weight is 1 - x, index 1 weight is x
    let point = fes(&[2]);
    assert_eq!(ith_eq_vec_elem(&point, 0), fe(FIELD_MODULUS - 1));
    assert_eq!(ith_eq_vec_elem(&point, 1), fe(2));
    // empty challenge vector: the only coefficient is 1
    let empty: Vec<FieldElem> = Vec::new();
    assert_eq!(ith_eq_vec_elem(&empty, 0), fe(1));
}

#[test]
fn sum_all_ones_is_power_of_two() {
    // a single pair, f = g = the all-ones polynomial of 3 variables: 2^3
    let mut sop = SumOfProductsPoly::new();
    let ones = fes(&[1, 1, 1, 1, 1, 1, 1, 1]);
    sop.add_pair(MultiLinearPoly::new(ones.clone(), 3), MultiLinearPoly::new(ones, 3));
    assert_eq!(sop.sum(), fe(8));
}

#[test]
fn sum_two_pairs_example() {
    // (1*1 + 2*2) + (3*3 + 4*4) = 5 + 25 = 30
    let mut sop = SumOfProductsPoly::new();
    sop.add_pair(
        MultiLinearPoly::new(fes(&[1, 2]), 1),
        MultiLinearPoly::new(fes(&[1, 2]), 1),
    );
    sop.add_pair(
        MultiLinearPoly::new(fes(&[3, 4]), 1),
        MultiLinearPoly::new(fes(&[3, 4]), 1),
    );
    assert_eq!(sop.sum(), fe(30));
}

#[test]
fn evaluate_empty_poly_is_zero() {
    let sop = SumOfProductsPoly::new();
    assert_eq!(sop.num_vars(), 0);
    assert_eq!(sop.sum(), FieldElem::zero());
    let empty: Vec<FieldElem> = Vec::new();
    assert_eq!(sop.evaluate(&empty), FieldElem::zero());
    assert_eq!(sop.evaluate(&fes(&[5, 6])), FieldElem::zero());
}

#[test]
fn evaluate_single_pair_full_point() {
    // f = g with coefficients [1, 2] at x = 4: f(4) = (1-4)*1 + 4*2 = 5,
    // no remaining variables, so the total is 5 * 5 = 25
    let mut sop = SumOfProductsPoly::new();
    sop.add_pair(
        MultiLinearPoly::new(fes(&[1, 2]), 1),
        MultiLinearPoly::new(fes(&[1, 2]), 1),
    );
    assert_eq!(sop.evaluate(&fes(&[4])), fe(25));
}

#[test]
fn evaluate_broadcasts_smaller_pair() {
    // a 0-variable pair f = g = [2] under a 1-coordinate point r = 3:
    // contribution 2 * 2 * eq([3], 0)^2 = 4 * (1 - 3)^2 = 16
    let mut sop = SumOfProductsPoly::new();
    sop.add_pair(MultiLinearPoly::new(fes(&[2]), 0), MultiLinearPoly::new(fes(&[2]), 0));
    assert_eq!(sop.evaluate(&fes(&[3])), fe(16));
}

#[test]
fn num_vars_is_max_over_pairs() {
    let mut sop = SumOfProductsPoly::new();
    sop.add_pair(MultiLinearPoly::new(fes(&[1, 2]), 1), MultiLinearPoly::new(fes(&[3, 4]), 1));
    assert_eq!(sop.num_vars(), 1);
    sop.add_pair(
        MultiLinearPoly::new(fes(&[1, 2, 3, 4]), 2),
        MultiLinearPoly::new(fes(&[5, 6, 7, 8]), 2),
    );
    assert_eq!(sop.num_vars(), 2);
    assert_eq!(sop.num_pairs(), 2);
}
