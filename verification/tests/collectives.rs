use gkr_engine::codec::{decode_elems, decode_framed, encode_elems, encode_framed};
use gkr_engine::collective::{
    broadcast_world, coef_combine_vec_world, gather_varlen_world, gather_world, scatter_world,
    sum_vec_world, transpose_world, CHUNK_SIZE, SEND_BUFFER_MAX,
};
use gkr_engine::field::{FieldElem, FIELD_MODULUS};

fn fe(x: u64) -> FieldElem {
    FieldElem::from_u64(x)
}

fn fes(xs: &[u64]) -> Vec<FieldElem> {
    xs.iter().map(|&x| fe(x)).collect()
}

fn rank_bytes(world_size: usize, n: usize) -> Vec<Vec<u8>> {
    (0..world_size)
        .map(|j| (0..n).map(|t| (j * 131 + t * 7 + 3) as u8).collect())
        .collect()
}

#[test]
fn gather_concatenates_rank_major() {
    let locals = vec![vec![1u8, 2, 3], vec![4u8, 5, 6]];
    assert_eq!(gather_world(&locals), vec![1u8, 2, 3, 4, 5, 6]);
}

#[test]
fn scatter_slices_rank_major() {
    let send = vec![1u8, 2, 3, 4, 5, 6];
    assert_eq!(scatter_world(&send, 3, 2), vec![vec![1u8, 2], vec![3u8, 4], vec![5u8, 6]]);
}

#[test]
fn gather_then_scatter_is_identity_small() {
    for &ws in &[1usize, 2, 4, 8] {
        let locals = rank_bytes(ws, 24);
        let global = gather_world(&locals);
        assert_eq!(global.len(), ws * 24);
        let back = scatter_world(&global, ws, 24);
        assert_eq!(back, locals);
    }
}

#[test]
fn gather_then_scatter_is_identity_across_chunk_ceiling() {
    for &ws in &[1usize, 2, 4, 8] {
        let n = CHUNK_SIZE + 9;
        let locals = rank_bytes(ws, n);
        let global = gather_world(&locals);
        assert_eq!(global.len(), ws * n);
        // spot-check the rank-major layout around the chunk boundary
        assert_eq!(global[(ws - 1) * n], locals[ws - 1][0]);
        assert_eq!(global[(ws - 1) * n + CHUNK_SIZE], locals[ws - 1][CHUNK_SIZE]);
        let back = scatter_world(&global, ws, n);
        assert_eq!(back, locals);
    }
}

#[test]
fn gather_then_scatter_at_exact_chunk_boundary() {
    // payloads of exactly one and exactly two chunks: the last chunk is full
    for &n in &[CHUNK_SIZE, 2 * CHUNK_SIZE] {
        let locals = rank_bytes(2, n);
        let global = gather_world(&locals);
        let back = scatter_world(&global, 2, n);
        assert_eq!(back, locals);
    }
}

#[test]
fn gather_empty_buffers() {
    let locals: Vec<Vec<u8>> = vec![Vec::new(), Vec::new()];
    assert_eq!(gather_world(&locals), Vec::<u8>::new());
}

#[test]
fn transpose_exchanges_blocks() {
    // two ranks, two blocks of two bytes each: rank j's block k becomes
    // rank k's block j
    let rows = vec![vec![1u8, 2, 3, 4], vec![5u8, 6, 7, 8]];
    let out = transpose_world(&rows);
    assert_eq!(out, vec![vec![1u8, 2, 5, 6], vec![3u8, 4, 7, 8]]);
}

#[test]
fn transpose_twice_is_identity() {
    for &ws in &[1usize, 2, 4, 8] {
        let rows = rank_bytes(ws, ws * 5);
        let once = transpose_world(&rows);
        let twice = transpose_world(&once);
        assert_eq!(twice, rows);
    }
}

#[test]
fn transpose_twice_is_identity_across_send_ceiling() {
    let ws = 2usize;
    let rows = rank_bytes(ws, SEND_BUFFER_MAX + ws);
    let once = transpose_world(&rows);
    let twice = transpose_world(&once);
    assert_eq!(twice, rows);
}

#[test]
fn broadcast_overwrites_with_root_value() {
    let bufs = vec![vec![1u8, 2], vec![9u8, 9], vec![7u8, 7]];
    let out = broadcast_world(&bufs);
    assert_eq!(out, vec![vec![1u8, 2], vec![1u8, 2], vec![1u8, 2]]);
}

#[test]
fn sum_vec_root_gets_columnwise_sum() {
    let locals = vec![fes(&[1, 2]), fes(&[3, 4]), fes(&[5, 6])];
    let out = sum_vec_world(&locals);
    assert_eq!(out.len(), 3);
    assert_eq!(out[0], fes(&[9, 12]));
    assert!(out[1].is_empty());
    assert!(out[2].is_empty());
}

#[test]
fn sum_vec_wraps_in_field() {
    let locals = vec![fes(&[FIELD_MODULUS - 1]), fes(&[2])];
    let out = sum_vec_world(&locals);
    assert_eq!(out[0], fes(&[1]));
}

#[test]
fn coef_combine_weights_each_rank() {
    // 10*1 + 20*2 + 30*3 = 140 and 1*1 + 2*2 + 3*3 = 14
    let locals = vec![fes(&[10, 1]), fes(&[20, 2]), fes(&[30, 3])];
    let coefs = fes(&[1, 2, 3]);
    let out = coef_combine_vec_world(&locals, &coefs);
    assert_eq!(out.len(), 3);
    assert_eq!(out[0], fes(&[140, 14]));
    assert_eq!(out[1], fes(&[0, 0]));
    assert_eq!(out[2], fes(&[0, 0]));
}

#[test]
fn coef_combine_with_unit_weights_equals_sum_vec() {
    for &ws in &[1usize, 2, 4, 8] {
        let locals: Vec<Vec<FieldElem>> =
            (0..ws).map(|j| fes(&[j as u64 + 1, 10 * j as u64, 77])).collect();
        let coefs = fes(&vec![1u64; ws]);
        let combined = coef_combine_vec_world(&locals, &coefs);
        let summed = sum_vec_world(&locals);
        assert_eq!(combined[0], summed[0]);
    }
}

#[test]
fn varlen_gather_round_trips_heterogeneous_lists() {
    let lists = vec![fes(&[1, 2, 3]), fes(&[]), fes(&[7]), fes(&[4, 5])];
    let out = gather_varlen_world(&lists);
    assert_eq!(out, lists);
}

#[test]
fn codec_round_trip_and_layout() {
    let v = fes(&[5, 258]);
    let b = encode_elems(&v);
    assert_eq!(b, vec![5u8, 0, 0, 0, 0, 0, 0, 0, 2, 1, 0, 0, 0, 0, 0, 0]);
    assert_eq!(decode_elems(&b), v);
}

#[test]
fn framed_codec_ignores_trailing_bytes() {
    let v = fes(&[9, 10]);
    let mut b = encode_framed(&v);
    // the count prefix announces two elements
    assert_eq!(b[0], 2);
    assert_eq!(b.len(), 8 + 16);
    b.extend_from_slice(&[0xAAu8, 0xBB, 0xCC]);
    assert_eq!(decode_framed(&b), v);
}
