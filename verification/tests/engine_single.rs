use gkr_engine::engine::{MPIConfig, ROOT_RANK};
use gkr_engine::field::FieldElem;

fn fe(x: u64) -> FieldElem {
    FieldElem::from_u64(x)
}

fn fes(xs: &[u64]) -> Vec<FieldElem> {
    xs.iter().map(|&x| fe(x)).collect()
}

#[test]
fn communicator_queries() {
    let single = MPIConfig::default();
    assert_eq!(single.world_size(), 1);
    assert_eq!(single.world_rank(), ROOT_RANK);
    assert!(single.is_root());
    assert!(single.is_single_process());

    let prover = MPIConfig::prover_new(4, 2);
    assert_eq!(prover.world_size(), 4);
    assert_eq!(prover.world_rank(), 2);
    assert!(!prover.is_root());
    assert!(!prover.is_single_process());

    let verifier = MPIConfig::verifier_new(4);
    assert_eq!(verifier.world_size(), 4);
    assert_eq!(verifier.world_rank(), 0);
    assert!(verifier.is_root());

    assert_eq!(MPIConfig::prover_new(4, 0), verifier);
    assert_eq!(verifier.clone(), verifier);
}

#[test]
fn single_process_gather_is_a_copy() {
    let c = MPIConfig::default();
    let local = fes(&[1, 2, 3]);
    let mut global = fes(&[9, 9]);
    c.gather_vec(&local, &mut global);
    assert_eq!(global, local);
}

#[test]
fn single_process_scatter_is_a_copy() {
    let c = MPIConfig::default();
    let send = fes(&[4, 5, 6]);
    let mut recv = fes(&[0, 0, 0]);
    c.scatter_vec(&send, &mut recv);
    assert_eq!(recv, send);
}

#[test]
fn single_process_broadcasts_are_no_ops() {
    let c = MPIConfig::default();
    let mut x = fe(42);
    c.root_broadcast_f(&mut x);
    assert_eq!(x, fe(42));
    let mut bytes = vec![1u8, 2, 3];
    c.root_broadcast_bytes(&mut bytes);
    assert_eq!(bytes, vec![1u8, 2, 3]);
    c.barrier();
}

#[test]
fn single_process_reductions_return_local() {
    let c = MPIConfig::default();
    let local = fes(&[7, 8]);
    assert_eq!(c.sum_vec(&local), local);
    // with one process the weights are not applied; the caller keeps the
    // first coefficient at one in this mode
    assert_eq!(c.coef_combine_vec(&local, &fes(&[1])), local);
}

#[test]
fn single_process_transpose_is_identity() {
    let c = MPIConfig::default();
    let mut row = fes(&[1, 2, 3, 4]);
    c.all_to_all_transpose(&mut row);
    assert_eq!(row, fes(&[1, 2, 3, 4]));
}

#[test]
fn single_process_varlen_gather_returns_own_list() {
    let c = MPIConfig::default();
    let elems = fes(&[3, 1, 4, 1, 5]);
    let mut out: Vec<Vec<FieldElem>> = Vec::new();
    c.gather_varlen_vec(&elems, &mut out);
    assert_eq!(out, vec![elems]);
}
