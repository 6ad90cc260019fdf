//! The group collectives, verified as whole-group functions.
//!
//! A collective is a rendezvous: what one rank receives is a function of
//! what every rank contributed.  Each function here takes every rank's
//! buffer and computes every rank's outcome, running the same chunked
//! data-movement algorithm that a per-rank shell drives against a live
//! transport: payloads larger than a transport ceiling are moved in
//! successive same-offset chunks, and the last chunk may be narrower.
//!
//! The contracts are stated over `gathered`, `scattered` and `transposed`,
//! the mathematical descriptions of the three data movements; the laws at
//! the end of the module relate them.

use vstd::prelude::*;
use vstd::seq_lib::*;

use crate::codec::{
    decode_elems, decoded_elems, encode_elems, encode_framed, encoded_elems, framed_elems,
    lemma_flat_index,
};
use crate::field::{all_in_range, fadd, fmul, vals, FieldElem, FIELD_MODULUS};

verus! {

/// Transport ceiling, in bytes, for one gather or scatter message (2^20).
pub const CHUNK_SIZE: usize = 1048576;

/// Transport ceiling, in bytes, for one all-to-all pass over all ranks (2^22).
pub const SEND_BUFFER_MAX: usize = 4194304;

/// The byte sequences held by a vector of buffers, rank by rank.
pub open spec fn byte_views(s: Seq<Vec<u8>>) -> Seq<Seq<u8>> {
    Seq::new(s.len(), |j: int| s[j]@)
}

/// Every rank's buffer holds exactly `n` bytes.
pub open spec fn uniform_len(s: Seq<Seq<u8>>, n: int) -> bool {
    forall|j: int| 0 <= j < s.len() ==> (#[trigger] s[j]).len() == n
}

/// What the root holds after a gather: the ranks' buffers, each of `n`
/// bytes, concatenated in rank order.
pub open spec fn gathered(locals: Seq<Seq<u8>>, n: int) -> Seq<u8> {
    Seq::new((locals.len() * n) as nat, |i: int| locals[i / n][i % n])
}

/// What each rank holds after a scatter: its own `n`-byte slice of the
/// root's rank-major send buffer.
pub open spec fn scattered(send: Seq<u8>, world_size: int, n: int) -> Seq<Seq<u8>> {
    Seq::new(world_size as nat, |j: int| send.subrange(j * n, j * n + n))
}

/// What each rank holds after an all-to-all transpose of rows made of
/// `world_size` sub-blocks of `bpw` bytes: rank `j`'s new block `k` is rank
/// `k`'s old block `j`.
pub open spec fn transposed(rows: Seq<Seq<u8>>, bpw: int) -> Seq<Seq<u8>> {
    Seq::new(
        rows.len(),
        |j: int|
            Seq::new(
                (rows.len() * bpw) as nat,
                |i: int| rows[i / bpw][j * bpw + i % bpw],
            ),
    )
}

/// Distinct ranks' blocks in a rank-major flat buffer do not overlap: a
/// position inside rank `j2`'s block lies outside `[j * n + lo, j * n + hi)`
/// whenever `j2 != j`.
pub proof fn lemma_block_disjoint(j: int, lo: int, hi: int, j2: int, t2: int, n: int)
    requires
        0 <= lo,
        hi <= n,
        0 <= t2 < n,
        j2 != j,
    ensures
        j2 * n + t2 < j * n + lo || j2 * n + t2 >= j * n + hi,
{
    if j2 < j {
        vstd::arithmetic::mul::lemma_mul_inequality(j2 + 1, j, n);
        assert((j2 + 1) * n == j2 * n + n) by (nonlinear_arith);
    } else {
        vstd::arithmetic::mul::lemma_mul_inequality(j + 1, j2, n);
        assert((j + 1) * n == j * n + n) by (nonlinear_arith);
    }
}

/// A buffer of `len` zero bytes.
pub fn zero_vec(len: usize) -> (v: Vec<u8>)
    ensures
        v@.len() == len,
        forall|i: int| 0 <= i < len ==> v@[i] == 0u8,
{
    let mut v: Vec<u8> = Vec::new();
    let mut i: usize = 0;
    while i < len
        invariant
            i <= len,
            v@.len() == i,
            forall|k: int| 0 <= k < i ==> v@[k] == 0u8,
        decreases len - i,
    {
        v.push(0u8);
        i = i + 1;
    }
    v
}

/// A position `i` of a rank-major flat buffer of `m` blocks of `n` bytes
/// lies in block `i / n` at offset `i % n`.
pub proof fn lemma_flat_decompose(i: int, n: int, m: int)
    requires
        n > 0,
        0 <= i < m * n,
    ensures
        0 <= i / n < m,
        0 <= i % n < n,
        i == (i / n) * n + i % n,
{
    vstd::arithmetic::div_mod::lemma_fundamental_div_mod(i, n);
    vstd::arithmetic::div_mod::lemma_mod_bound(i, n);
    if i / n >= m {
        vstd::arithmetic::mul::lemma_mul_inequality(m, i / n, n);
        assert((i / n) * n == n * (i / n)) by (nonlinear_arith);
    }
    if i / n < 0 {
        assert((i / n) * n <= -n) by (nonlinear_arith)
            requires
                i / n <= -1 && n > 0,
        ;
        assert((i / n) * n == n * (i / n)) by (nonlinear_arith);
    }
    assert((i / n) * n == n * (i / n)) by (nonlinear_arith);
}

/// Steps a block index: block `j + 1` begins where block `j` ends.
pub proof fn lemma_block_step(j: int, n: int, m: int)
    requires
        0 <= j < m,
    ensures
        j * n + n == (j + 1) * n,
        n >= 0 ==> (j + 1) * n <= m * n && 0 <= j * n,
{
    assert(j * n + n == (j + 1) * n) by (nonlinear_arith);
    if n >= 0 {
        vstd::arithmetic::mul::lemma_mul_inequality(j + 1, m, n);
        assert(0 <= j * n) by (nonlinear_arith)
            requires
                j >= 0 && n >= 0,
        ;
    }
}

/// Copies `len` bytes from `src` at `s_start` into `dst` at `d_start`,
/// leaving every other byte of `dst` as it was.
pub fn copy_bytes(dst: &mut Vec<u8>, d_start: usize, src: &Vec<u8>, s_start: usize, len: usize)
    requires
        d_start + len <= old(dst)@.len(),
        s_start + len <= src@.len(),
    ensures
        final(dst)@.len() == old(dst)@.len(),
        forall|p: int|
            d_start <= p < d_start + len ==> #[trigger] final(dst)@[p] == src@[p - d_start
                + s_start],
        forall|p: int|
            0 <= p < final(dst)@.len() && !(d_start <= p < d_start + len)
                ==> #[trigger] final(dst)@[p] == old(dst)@[p],
{
    let dlen = dst.len();
    let slen = src.len();
    let mut t: usize = 0;
    while t < len
        invariant
            t <= len,
            d_start + len <= dlen,
            s_start + len <= slen,
            slen == src@.len(),
            dst@.len() == dlen,
            dlen == old(dst)@.len(),
            forall|p: int|
                d_start <= p < d_start + t ==> #[trigger] dst@[p] == src@[p - d_start + s_start],
            forall|p: int|
                0 <= p < dst@.len() && !(d_start <= p < d_start + len) ==> #[trigger] dst@[p]
                    == old(dst)@[p],
        decreases len - t,
    {
        let b = src[s_start + t];
        dst[d_start + t] = b;
        t = t + 1;
    }
}

/// Joins equal-length rows into one rank-major flat buffer.  This is local
/// marshalling, not a collective: it feeds the windowed transpose.
pub fn join_rows(rows: &Vec<Vec<u8>>, n: usize) -> (flat: Vec<u8>)
    requires
        uniform_len(byte_views(rows@), n as int),
        rows@.len() * n <= usize::MAX,
    ensures
        flat@ == gathered(byte_views(rows@), n as int),
{
    let ws = rows.len();
    let mut flat = zero_vec(ws * n);
    let mut j: usize = 0;
    while j < ws
        invariant
            j <= ws,
            ws == rows@.len(),
            uniform_len(byte_views(rows@), n as int),
            ws * n <= usize::MAX,
            flat@.len() == ws * n,
            forall|j2: int, t2: int|
                0 <= j2 < j && 0 <= t2 < n ==> #[trigger] flat@[j2 * (n as int) + t2]
                    == rows@[j2]@[t2],
        decreases ws - j,
    {
        proof {
            lemma_block_step(j as int, n as int, ws as int);
            assert(byte_views(rows@)[j as int] == rows@[j as int]@);
        }
        let row = &rows[j];
        copy_bytes(&mut flat, j * n, row, 0, n);
        proof {
            assert forall|j2: int, t2: int|
                0 <= j2 < j + 1 && 0 <= t2 < n implies #[trigger] flat@[j2 * (n as int) + t2]
                == rows@[j2]@[t2] by {
                lemma_block_step(j2, n as int, ws as int);
                if j2 < j {
                    lemma_block_disjoint(j as int, 0, n as int, j2, t2, n as int);
                } else {
                    assert(flat@[j2 * (n as int) + t2] == row@[t2]);
                }
            }
        }
        j = j + 1;
    }
    proof {
        let g = gathered(byte_views(rows@), n as int);
        assert(g.len() == flat@.len());
        assert forall|i: int| 0 <= i < flat@.len() implies flat@[i] == g[i] by {
            if n == 0 {
                assert((ws as int) * 0 == 0) by (nonlinear_arith);
            }
            lemma_flat_decompose(i, n as int, ws as int);
            assert(byte_views(rows@)[i / (n as int)] == rows@[i / (n as int)]@);
        }
        assert_seqs_equal!(flat@ == g);
    }
    flat
}

/// Splits a rank-major flat buffer into one row per rank.  Local
/// marshalling, the inverse of `join_rows`.
pub fn split_rows(flat: &Vec<u8>, world_size: usize, n: usize) -> (rows: Vec<Vec<u8>>)
    requires
        flat@.len() == world_size * n,
    ensures
        byte_views(rows@) == scattered(flat@, world_size as int, n as int),
        rows@.len() == world_size,
{
    let mut rows: Vec<Vec<u8>> = Vec::new();
    let flen = flat.len();
    let mut j: usize = 0;
    while j < world_size
        invariant
            j <= world_size,
            flat@.len() == world_size * n,
            flat@.len() <= flen,
            rows@.len() == j,
            forall|j2: int|
                0 <= j2 < j ==> #[trigger] rows@[j2]@ == flat@.subrange(
                    j2 * (n as int),
                    j2 * (n as int) + n as int,
                ),
        decreases world_size - j,
    {
        proof {
            lemma_block_step(j as int, n as int, world_size as int);
        }
        let mut row = zero_vec(n);
        copy_bytes(&mut row, 0, flat, j * n, n);
        proof {
            assert_seqs_equal!(row@ == flat@.subrange(j as int * (n as int), j as int * (n as int) + n as int));
        }
        rows.push(row);
        j = j + 1;
    }
    proof {
        let sc = scattered(flat@, world_size as int, n as int);
        assert(byte_views(rows@).len() == sc.len());
        assert forall|j2: int| 0 <= j2 < world_size implies byte_views(rows@)[j2] == sc[j2] by {
            assert(byte_views(rows@)[j2] == rows@[j2]@);
        }
        assert_seqs_equal!(byte_views(rows@) == sc);
    }
    rows
}

/// How many transport messages a `total`-byte payload needs under a
/// per-message `ceiling`.
pub open spec fn spec_n_chunks(total: int, ceiling: int) -> int {
    total / ceiling + if total % ceiling != 0 {
        1int
    } else {
        0int
    }
}

/// The bytes settled once the first `i` chunks are done: chunk `i` starts
/// at `i * ceiling`, and the last chunk may be narrower.
pub open spec fn chunk_progress(i: int, ceiling: int, total: int) -> int {
    if i * ceiling <= total {
        i * ceiling
    } else {
        total
    }
}

/// The chunk starts lie inside the payload and the chunks cover it.
pub proof fn lemma_chunk_cover(total: int, ceiling: int)
    requires
        ceiling > 0,
        total >= 0,
    ensures
        spec_n_chunks(total, ceiling) >= 0,
        spec_n_chunks(total, ceiling) * ceiling >= total,
        forall|i: int|
            0 <= i < spec_n_chunks(total, ceiling) ==> #[trigger] (i * ceiling) < total,
{
    let q = total / ceiling;
    let r = total % ceiling;
    vstd::arithmetic::div_mod::lemma_fundamental_div_mod(total, ceiling);
    vstd::arithmetic::div_mod::lemma_mod_bound(total, ceiling);
    assert(q >= 0) by {
        if q < 0 {
            assert(ceiling * q <= -ceiling) by (nonlinear_arith)
                requires
                    q <= -1 && ceiling > 0,
            ;
        }
    }
    let nc = spec_n_chunks(total, ceiling);
    assert(nc * ceiling >= total) by {
        if r == 0 {
            assert(q * ceiling == ceiling * q) by (nonlinear_arith);
        } else {
            assert((q + 1) * ceiling == ceiling * q + ceiling) by (nonlinear_arith);
        }
    }
    assert forall|i: int| 0 <= i < nc implies #[trigger] (i * ceiling) < total by {
        vstd::arithmetic::mul::lemma_mul_inequality(i, nc - 1, ceiling);
        assert((nc - 1) * ceiling == nc * ceiling - ceiling) by (nonlinear_arith);
        if r == 0 {
            assert(q * ceiling == ceiling * q) by (nonlinear_arith);
        } else {
            assert(q * ceiling == ceiling * q) by (nonlinear_arith);
        }
    }
}

/// The chunked gather: what the root holds after every rank contributed
/// its `n`-byte buffer.  Payloads above `CHUNK_SIZE` bytes move in
/// same-offset chunks: each chunk is gathered rank-major into a scratch
/// buffer, then redistributed to each rank's slice of the result at the
/// chunk's offset; the last chunk may be narrower.
pub fn gather_world(locals: &Vec<Vec<u8>>) -> (global: Vec<u8>)
    requires
        locals@.len() >= 1,
        uniform_len(byte_views(locals@), locals@[0]@.len() as int),
        locals@.len() * locals@[0]@.len() <= usize::MAX,
    ensures
        global@ == gathered(byte_views(locals@), locals@[0]@.len() as int),
{
    let ws = locals.len();
    let n = locals[0].len();
    let mut global = zero_vec(ws * n);
    let n_chunks = n / CHUNK_SIZE + if n % CHUNK_SIZE != 0 {
        1
    } else {
        0
    };
    proof {
        lemma_chunk_cover(n as int, CHUNK_SIZE as int);
    }
    let mut i: usize = 0;
    while i < n_chunks
        invariant
            i <= n_chunks,
            ws == locals@.len(),
            ws >= 1,
            n == locals@[0]@.len(),
            uniform_len(byte_views(locals@), n as int),
            ws * n <= usize::MAX,
            global@.len() == ws * n,
            n_chunks == spec_n_chunks(n as int, CHUNK_SIZE as int),
            forall|j2: int, t2: int|
                0 <= j2 < ws && 0 <= t2 < chunk_progress(i as int, CHUNK_SIZE as int, n as int)
                    ==> #[trigger] global@[j2 * (n as int) + t2] == locals@[j2]@[t2],
        decreases n_chunks - i,
    {
        proof {
            lemma_chunk_cover(n as int, CHUNK_SIZE as int);
        }
        let start = i * CHUNK_SIZE;
        let end = if n - start <= CHUNK_SIZE {
            n
        } else {
            start + CHUNK_SIZE
        };
        let acs = end - start;
        proof {
            assert(acs * ws <= n * ws) by (nonlinear_arith)
                requires
                    0 <= acs <= n && ws >= 0,
            ;
            assert(n * ws == ws * n) by (nonlinear_arith);
        }
        let mut chunk_buffer = zero_vec(acs * ws);
        let mut j: usize = 0;
        while j < ws
            invariant
                j <= ws,
                ws == locals@.len(),
                n == locals@[0]@.len(),
                uniform_len(byte_views(locals@), n as int),
                start + acs == end,
                end <= n,
                start == i * CHUNK_SIZE,
                acs * ws <= usize::MAX,
                chunk_buffer@.len() == acs * ws,
                forall|j2: int, t2: int|
                    0 <= j2 < j && 0 <= t2 < acs ==> #[trigger] chunk_buffer@[j2 * (acs as int)
                        + t2] == locals@[j2]@[start + t2],
            decreases ws - j,
        {
            proof {
                lemma_block_step(j as int, acs as int, ws as int);
                assert(byte_views(locals@)[j as int] == locals@[j as int]@);
                assert(acs * ws == ws * acs) by (nonlinear_arith);
            }
            let local = &locals[j];
            copy_bytes(&mut chunk_buffer, j * acs, local, start, acs);
            proof {
                assert forall|j2: int, t2: int|
                    0 <= j2 < j + 1 && 0 <= t2 < acs implies #[trigger] chunk_buffer@[j2 * (
                acs as int) + t2] == locals@[j2]@[start + t2] by {
                    lemma_block_step(j2, acs as int, ws as int);
                    if j2 < j {
                        lemma_block_disjoint(j as int, 0, acs as int, j2, t2, acs as int);
                    }
                }
            }
            j = j + 1;
        }
        let mut j: usize = 0;
        while j < ws
            invariant
                j <= ws,
                ws == locals@.len(),
                n == locals@[0]@.len(),
                uniform_len(byte_views(locals@), n as int),
                ws * n <= usize::MAX,
                global@.len() == ws * n,
                start + acs == end,
                end <= n,
                start == i * CHUNK_SIZE,
                acs * ws <= usize::MAX,
                chunk_buffer@.len() == acs * ws,
                forall|j2: int, t2: int|
                    0 <= j2 < ws && 0 <= t2 < acs ==> #[trigger] chunk_buffer@[j2 * (acs as int)
                        + t2] == locals@[j2]@[start + t2],
                forall|j2: int, t2: int|
                    0 <= j2 < ws && 0 <= t2 < chunk_progress(i as int, CHUNK_SIZE as int, n as int)
                        ==> #[trigger] global@[j2 * (n as int) + t2] == locals@[j2]@[t2],
                forall|j2: int, t2: int|
                    0 <= j2 < j && start <= t2 < end ==> #[trigger] global@[j2 * (n as int) + t2]
                        == locals@[j2]@[t2],
        decreases ws - j,
        {
            proof {
                lemma_block_step(j as int, acs as int, ws as int);
                lemma_block_step(j as int, n as int, ws as int);
                assert(acs * ws == ws * acs) by (nonlinear_arith);
            }
            copy_bytes(&mut global, j * n + start, &chunk_buffer, j * acs, acs);
            proof {
                assert forall|j2: int, t2: int|
                    0 <= j2 < ws && 0 <= t2 < chunk_progress(
                    i as int,
                    CHUNK_SIZE as int,
                    n as int,
                ) implies #[trigger] global@[j2 * (n as int) + t2] == locals@[j2]@[t2] by {
                    lemma_block_step(j2, n as int, ws as int);
                    if j2 != j {
                        lemma_block_disjoint(j as int, start as int, end as int, j2, t2, n as int);
                    } else {
                        assert(chunk_progress(i as int, CHUNK_SIZE as int, n as int) <= start);
                    }
                }
                assert forall|j2: int, t2: int|
                    0 <= j2 < j + 1 && start <= t2 < end implies #[trigger] global@[j2 * (n as int)
                    + t2] == locals@[j2]@[t2] by {
                    lemma_block_step(j2, n as int, ws as int);
                    if j2 < j {
                        lemma_block_disjoint(j as int, start as int, end as int, j2, t2, n as int);
                    } else {
                        assert(global@[j2 * (n as int) + t2] == chunk_buffer@[j2 * (acs as int) + (
                        t2 - start)]);
                    }
                }
            }
            j = j + 1;
        }
        proof {
            assert forall|j2: int, t2: int|
                0 <= j2 < ws && 0 <= t2 < chunk_progress(
                i as int + 1,
                CHUNK_SIZE as int,
                n as int,
            ) implies #[trigger] global@[j2 * (n as int) + t2] == locals@[j2]@[t2] by {
                assert((i as int + 1) * (CHUNK_SIZE as int) == i as int * (CHUNK_SIZE as int)
                    + CHUNK_SIZE as int) by (nonlinear_arith);
            }
        }
        i = i + 1;
    }
    proof {
        assert(chunk_progress(n_chunks as int, CHUNK_SIZE as int, n as int) == n);
        let g = gathered(byte_views(locals@), n as int);
        assert(g.len() == global@.len());
        assert forall|p: int| 0 <= p < global@.len() implies global@[p] == g[p] by {
            if n == 0 {
                assert((ws as int) * 0 == 0) by (nonlinear_arith);
            }
            lemma_flat_decompose(p, n as int, ws as int);
            let jj = p / (n as int);
            let tt = p % (n as int);
            assert(global@[jj * (n as int) + tt] == locals@[jj]@[tt]);
            assert(byte_views(locals@)[jj] == locals@[jj]@);
        }
        assert_seqs_equal!(global@ == g);
    }
    global
}

/// The chunked scatter: each rank's `n`-byte share of the root's
/// rank-major send buffer.  The receive side is chunked under the same
/// ceiling as the gather: per chunk the root packs one sub-slice per rank
/// into a send buffer, and each rank receives its sub-slice into its
/// window at the chunk's offset.
pub fn scatter_world(send: &Vec<u8>, world_size: usize, n: usize) -> (recv: Vec<Vec<u8>>)
    requires
        world_size >= 1,
        send@.len() == world_size * n,
    ensures
        recv@.len() == world_size,
        byte_views(recv@) == scattered(send@, world_size as int, n as int),
{
    let ws = world_size;
    let total = send.len();
    let mut recv_flat = zero_vec(total);
    let n_chunks = n / CHUNK_SIZE + if n % CHUNK_SIZE != 0 {
        1
    } else {
        0
    };
    proof {
        lemma_chunk_cover(n as int, CHUNK_SIZE as int);
    }
    let mut i: usize = 0;
    while i < n_chunks
        invariant
            i <= n_chunks,
            ws >= 1,
            total == send@.len(),
            send@.len() == ws * n,
            recv_flat@.len() == total,
            n_chunks == spec_n_chunks(n as int, CHUNK_SIZE as int),
            forall|j2: int, t2: int|
                0 <= j2 < ws && 0 <= t2 < chunk_progress(i as int, CHUNK_SIZE as int, n as int)
                    ==> #[trigger] recv_flat@[j2 * (n as int) + t2] == send@[j2 * (n as int) + t2],
        decreases n_chunks - i,
    {
        proof {
            lemma_chunk_cover(n as int, CHUNK_SIZE as int);
        }
        let start = i * CHUNK_SIZE;
        let end = if n - start <= CHUNK_SIZE {
            n
        } else {
            start + CHUNK_SIZE
        };
        let acs = end - start;
        proof {
            assert(acs * ws <= n * ws) by (nonlinear_arith)
                requires
                    0 <= acs <= n && ws >= 0,
            ;
            assert(n * ws == ws * n) by (nonlinear_arith);
        }
        let mut send_buf = zero_vec(acs * ws);
        let mut j: usize = 0;
        while j < ws
            invariant
                j <= ws,
                ws >= 1,
                total == send@.len(),
                send@.len() == ws * n,
                start + acs == end,
                end <= n,
                acs * ws <= usize::MAX,
                send_buf@.len() == acs * ws,
                forall|j2: int, t2: int|
                    0 <= j2 < j && 0 <= t2 < acs ==> #[trigger] send_buf@[j2 * (acs as int) + t2]
                        == send@[j2 * (n as int) + start + t2],
            decreases ws - j,
        {
            proof {
                lemma_block_step(j as int, acs as int, ws as int);
                lemma_block_step(j as int, n as int, ws as int);
                assert(acs * ws == ws * acs) by (nonlinear_arith);
            }
            copy_bytes(&mut send_buf, j * acs, send, j * n + start, acs);
            proof {
                assert forall|j2: int, t2: int|
                    0 <= j2 < j + 1 && 0 <= t2 < acs implies #[trigger] send_buf@[j2 * (acs as int)
                    + t2] == send@[j2 * (n as int) + start + t2] by {
                    lemma_block_step(j2, acs as int, ws as int);
                    if j2 < j {
                        lemma_block_disjoint(j as int, 0, acs as int, j2, t2, acs as int);
                    }
                }
            }
            j = j + 1;
        }
        let mut j: usize = 0;
        while j < ws
            invariant
                j <= ws,
                ws >= 1,
                total == send@.len(),
                send@.len() == ws * n,
                recv_flat@.len() == total,
                start + acs == end,
                end <= n,
                start == i * CHUNK_SIZE,
                acs * ws <= usize::MAX,
                send_buf@.len() == acs * ws,
                forall|j2: int, t2: int|
                    0 <= j2 < ws && 0 <= t2 < acs ==> #[trigger] send_buf@[j2 * (acs as int) + t2]
                        == send@[j2 * (n as int) + start + t2],
                forall|j2: int, t2: int|
                    0 <= j2 < ws && 0 <= t2 < chunk_progress(i as int, CHUNK_SIZE as int, n as int)
                        ==> #[trigger] recv_flat@[j2 * (n as int) + t2] == send@[j2 * (n as int)
                        + t2],
                forall|j2: int, t2: int|
                    0 <= j2 < j && start <= t2 < end ==> #[trigger] recv_flat@[j2 * (n as int)
                        + t2] == send@[j2 * (n as int) + t2],
            decreases ws - j,
        {
            proof {
                lemma_block_step(j as int, acs as int, ws as int);
                lemma_block_step(j as int, n as int, ws as int);
                assert(acs * ws == ws * acs) by (nonlinear_arith);
            }
            copy_bytes(&mut recv_flat, j * n + start, &send_buf, j * acs, acs);
            proof {
                assert forall|j2: int, t2: int|
                    0 <= j2 < ws && 0 <= t2 < chunk_progress(
                    i as int,
                    CHUNK_SIZE as int,
                    n as int,
                ) implies #[trigger] recv_flat@[j2 * (n as int) + t2] == send@[j2 * (n as int)
                    + t2] by {
                    lemma_block_step(j2, n as int, ws as int);
                    if j2 != j {
                        lemma_block_disjoint(j as int, start as int, end as int, j2, t2, n as int);
                    } else {
                        assert(chunk_progress(i as int, CHUNK_SIZE as int, n as int) <= start);
                    }
                }
                assert forall|j2: int, t2: int|
                    0 <= j2 < j + 1 && start <= t2 < end implies #[trigger] recv_flat@[j2 * (
                n as int) + t2] == send@[j2 * (n as int) + t2] by {
                    lemma_block_step(j2, n as int, ws as int);
                    if j2 < j {
                        lemma_block_disjoint(j as int, start as int, end as int, j2, t2, n as int);
                    } else {
                        assert(recv_flat@[j2 * (n as int) + t2] == send_buf@[j2 * (acs as int) + (
                        t2 - start)]);
                    }
                }
            }
            j = j + 1;
        }
        proof {
            assert forall|j2: int, t2: int|
                0 <= j2 < ws && 0 <= t2 < chunk_progress(
                i as int + 1,
                CHUNK_SIZE as int,
                n as int,
            ) implies #[trigger] recv_flat@[j2 * (n as int) + t2] == send@[j2 * (n as int)
                + t2] by {
                assert((i as int + 1) * (CHUNK_SIZE as int) == i as int * (CHUNK_SIZE as int)
                    + CHUNK_SIZE as int) by (nonlinear_arith);
            }
        }
        i = i + 1;
    }
    proof {
        assert(chunk_progress(n_chunks as int, CHUNK_SIZE as int, n as int) == n);
        assert forall|p: int| 0 <= p < recv_flat@.len() implies recv_flat@[p] == send@[p] by {
            if n == 0 {
                assert((ws as int) * 0 == 0) by (nonlinear_arith);
            }
            lemma_flat_decompose(p, n as int, ws as int);
            let jj = p / (n as int);
            let tt = p % (n as int);
            assert(recv_flat@[jj * (n as int) + tt] == send@[jj * (n as int) + tt]);
        }
        assert_seqs_equal!(recv_flat@ == send@);
    }
    split_rows(&recv_flat, world_size, n)
}


/// The partner of flat block `b = j * ws + k` under the transpose: block
/// `k * ws + j`.
pub open spec fn block_swap(b: int, ws: int) -> int {
    (b % ws) * ws + b / ws
}

/// `block_swap` maps the block range onto itself and is an involution.
pub proof fn lemma_block_swap(b: int, ws: int)
    requires
        ws >= 1,
        0 <= b < ws * ws,
    ensures
        0 <= block_swap(b, ws) < ws * ws,
        block_swap(block_swap(b, ws), ws) == b,
{
    lemma_flat_decompose(b, ws, ws);
    let d = b / ws;
    let m = b % ws;
    lemma_flat_index(m, d, ws);
    assert(m * ws + ws <= ws * ws) by (nonlinear_arith)
        requires
            0 <= m < ws,
    ;
    assert(0 <= m * ws) by (nonlinear_arith)
        requires
            0 <= m && 0 <= ws,
    ;
}

/// The windowed all-to-all transpose: every rank's row is `ws` sub-blocks
/// of `bpw` bytes, and after the call rank `j`'s block `k` holds what rank
/// `k`'s block `j` held.  Rows larger than `SEND_BUFFER_MAX` bytes move in
/// several passes: each pass packs one window of every block into a send
/// buffer, one sub-block per destination rank, exchanges the buffers, and
/// writes each received sub-block back into the row at the window's
/// offset; the last window may be narrower.
pub fn transpose_world(rows: &Vec<Vec<u8>>) -> (out: Vec<Vec<u8>>)
    requires
        rows@.len() >= 1,
        uniform_len(byte_views(rows@), rows@[0]@.len() as int),
        rows@[0]@.len() as int % rows@.len() as int == 0,
        rows@.len() * rows@[0]@.len() <= usize::MAX,
    ensures
        out@.len() == rows@.len(),
        byte_views(out@) == transposed(
            byte_views(rows@),
            rows@[0]@.len() as int / rows@.len() as int,
        ),
{
    let ws = rows.len();
    let l = rows[0].len();
    let bpw = l / ws;
    proof {
        vstd::arithmetic::div_mod::lemma_fundamental_div_mod(l as int, ws as int);
        assert(l == ws * bpw);
    }
    if l == 0 {
        let empty = zero_vec(0);
        let out = split_rows(&empty, ws, 0);
        proof {
            assert((ws as int) * 0 == 0) by (nonlinear_arith);
            let tr = transposed(byte_views(rows@), 0);
            assert forall|j: int| 0 <= j < ws implies byte_views(out@)[j] == tr[j] by {
                assert(byte_views(rows@)[j].len() == 0);
                assert_seqs_equal!(byte_views(out@)[j] == tr[j]);
            }
            assert_seqs_equal!(byte_views(out@) == tr);
            assert(bpw == 0);
        }
        return out;
    }
    proof {
        assert(bpw >= 1) by {
            if bpw == 0 {
                assert((ws as int) * 0 == 0) by (nonlinear_arith);
            }
        }
        assert(ws <= l) by {
            assert((ws as int) * 1 <= (ws as int) * (bpw as int)) by (nonlinear_arith)
                requires
                    1 <= bpw as int && 0 <= ws as int,
            ;
            assert((ws as int) * 1 == ws as int) by (nonlinear_arith);
        }
    }
    let mut flat = join_rows(rows, l);
    let ghost orig = flat@;
    let n_passes = l / SEND_BUFFER_MAX + if l % SEND_BUFFER_MAX != 0 {
        1
    } else {
        0
    };
    let sb0 = SEND_BUFFER_MAX / ws;
    proof {
        lemma_chunk_cover(l as int, SEND_BUFFER_MAX as int);
        vstd::arithmetic::div_mod::lemma_fundamental_div_mod(
            SEND_BUFFER_MAX as int,
            ws as int,
        );
        assert(n_passes >= 1);
    }
    let mut cs: usize = 0;
    let mut w: usize = 0;
    while w < n_passes
        invariant
            w <= n_passes,
            ws >= 1,
            1 <= bpw,
            ws <= l,
            l == ws * bpw,
            ws == rows@.len(),
            l == rows@[0]@.len(),
            uniform_len(byte_views(rows@), l as int),
            ws * l <= usize::MAX,
            n_passes == spec_n_chunks(l as int, SEND_BUFFER_MAX as int),
            sb0 == SEND_BUFFER_MAX as int / ws as int,
            sb0 * ws <= SEND_BUFFER_MAX,
            flat@.len() == ws * l,
            orig == gathered(byte_views(rows@), l as int),
            orig.len() == ws * l,
            if w < n_passes {
                cs == w * sb0 && cs < bpw
            } else {
                cs == bpw
            },
            forall|b: int, u: int|
                0 <= b < ws * ws && 0 <= u < bpw ==> #[trigger] flat@[b * (bpw as int) + u] == (
                if u < cs {
                    orig[block_swap(b, ws as int) * (bpw as int) + u]
                } else {
                    orig[b * (bpw as int) + u]
                }),
        decreases n_passes - w,
    {
        proof {
            lemma_chunk_cover(l as int, SEND_BUFFER_MAX as int);
            if w < n_passes - 1 {
                assert((n_passes - 1) * (SEND_BUFFER_MAX as int) < l as int);
                assert((n_passes - 1) * (sb0 as int) < bpw as int) by {
                    if (n_passes - 1) * (sb0 as int) >= bpw as int {
                        vstd::arithmetic::mul::lemma_mul_inequality(
                            bpw as int,
                            (n_passes - 1) * (sb0 as int),
                            ws as int,
                        );
                        assert(((n_passes - 1) * (sb0 as int)) * (ws as int) == (n_passes - 1) * ((
                        sb0 as int) * (ws as int))) by (nonlinear_arith);
                        vstd::arithmetic::mul::lemma_mul_inequality(
                            (sb0 as int) * (ws as int),
                            SEND_BUFFER_MAX as int,
                            n_passes - 1,
                        );
                        assert((n_passes - 1) * ((sb0 as int) * (ws as int)) == ((sb0 as int) * (
                        ws as int)) * (n_passes - 1)) by (nonlinear_arith);
                        assert((n_passes - 1) * (SEND_BUFFER_MAX as int) == (
                        SEND_BUFFER_MAX as int) * (n_passes - 1)) by (nonlinear_arith);
                        assert((bpw as int) * (ws as int) == (ws as int) * (bpw as int))
                            by (nonlinear_arith);
                    }
                }
                assert((w as int + 1) * (sb0 as int) <= (n_passes - 1) * (sb0 as int)) by {
                    vstd::arithmetic::mul::lemma_mul_inequality(
                        w as int + 1,
                        n_passes - 1,
                        sb0 as int,
                    );
                }
                assert((w as int + 1) * (sb0 as int) == w as int * (sb0 as int) + sb0 as int)
                    by (nonlinear_arith);
            }
        }
        let sbpw: usize = if w == n_passes - 1 {
            bpw - cs
        } else {
            sb0
        };
        let ce = cs + sbpw;
        proof {
            assert(ce <= bpw);
            assert(sbpw <= bpw);
        }
        proof {
            vstd::arithmetic::mul::lemma_mul_inequality(sbpw as int, bpw as int, ws as int);
            assert((sbpw as int) * (ws as int) == (ws as int) * (sbpw as int))
                by (nonlinear_arith);
            assert((bpw as int) * (ws as int) == (ws as int) * (bpw as int))
                by (nonlinear_arith);
        }
        let per_rank = ws * sbpw;
        proof {
            vstd::arithmetic::mul::lemma_mul_inequality(per_rank as int, l as int, ws as int);
            assert((per_rank as int) * (ws as int) == (ws as int) * (per_rank as int))
                by (nonlinear_arith);
            assert((l as int) * (ws as int) == (ws as int) * (l as int)) by (nonlinear_arith);
        }
        let nb = ws * per_rank;
        let ghost nblocks = (ws as int) * (ws as int);
        proof {
            assert(nb == nblocks * (sbpw as int)) by (nonlinear_arith)
                requires
                    nb == ws as int * (ws as int * sbpw as int) && nblocks == ws as int * (
                    ws as int),
            ;
            assert(flat@.len() == nblocks * (bpw as int)) by (nonlinear_arith)
                requires
                    flat@.len() == ws as int * (ws as int * bpw as int) && nblocks == ws as int * (
                    ws as int),
            ;
            assert(nblocks <= flat@.len()) by (nonlinear_arith)
                requires
                    flat@.len() == nblocks * (bpw as int) && 1 <= bpw as int && 0 <= nblocks,
            ;
        }
        let mut send_flat = zero_vec(nb);
        let nb_blocks = ws * ws;
        proof {
            assert(nb_blocks == nblocks);
        }
        let mut b: usize = 0;
        while b < nb_blocks
            invariant
                b <= nb_blocks,
                nb_blocks == nblocks,
                nblocks == (ws as int) * (ws as int),
                ws >= 1,
                cs + sbpw == ce,
                ce <= bpw,
                flat@.len() == nblocks * (bpw as int),
                flat@.len() <= usize::MAX,
                send_flat@.len() == nblocks * (sbpw as int),
                send_flat@.len() <= usize::MAX,
                forall|b2: int, t2: int|
                    0 <= b2 < b && 0 <= t2 < sbpw ==> #[trigger] send_flat@[b2 * (sbpw as int)
                        + t2] == flat@[b2 * (bpw as int) + cs + t2],
            decreases nb_blocks - b,
        {
            proof {
                lemma_block_step(b as int, sbpw as int, nblocks);
                lemma_block_step(b as int, bpw as int, nblocks);
            }
            copy_bytes(&mut send_flat, b * sbpw, &flat, b * bpw + cs, sbpw);
            proof {
                assert forall|b2: int, t2: int|
                    0 <= b2 < b + 1 && 0 <= t2 < sbpw implies #[trigger] send_flat@[b2 * (
                sbpw as int) + t2] == flat@[b2 * (bpw as int) + cs + t2] by {
                    lemma_block_step(b2, sbpw as int, nblocks);
                    if b2 < b {
                        lemma_block_disjoint(b as int, 0, sbpw as int, b2, t2, sbpw as int);
                    }
                }
            }
            b = b + 1;
        }
        proof {
            assert forall|b2: int, t2: int|
                0 <= b2 < nblocks && 0 <= t2 < sbpw implies #[trigger] send_flat@[b2 * (
            sbpw as int) + t2] == orig[b2 * (bpw as int) + cs + t2] by {
                assert(send_flat@[b2 * (sbpw as int) + t2] == flat@[b2 * (bpw as int) + cs + t2]);
                assert(flat@[b2 * (bpw as int) + (cs + t2)] == orig[b2 * (bpw as int) + (cs
                    + t2)]);
            }
        }
        let mut b: usize = 0;
        while b < nb_blocks
            invariant
                b <= nb_blocks,
                nb_blocks == nblocks,
                nblocks == (ws as int) * (ws as int),
                ws >= 1,
                1 <= bpw,
                cs + sbpw == ce,
                ce <= bpw,
                if w < n_passes {
                    cs == w * sb0 && cs < bpw
                } else {
                    cs == bpw
                },
                flat@.len() == nblocks * (bpw as int),
                flat@.len() <= usize::MAX,
                send_flat@.len() == nblocks * (sbpw as int),
                send_flat@.len() <= usize::MAX,
                forall|b2: int, t2: int|
                    0 <= b2 < nblocks && 0 <= t2 < sbpw ==> #[trigger] send_flat@[b2 * (
                    sbpw as int) + t2] == orig[b2 * (bpw as int) + cs + t2],
                orig.len() == flat@.len(),
                forall|b2: int, u: int|
                    0 <= b2 < nblocks && 0 <= u < bpw && !(b2 < b && cs <= u < ce)
                        ==> #[trigger] flat@[b2 * (bpw as int) + u] == (if u < cs {
                        orig[block_swap(b2, ws as int) * (bpw as int) + u]
                    } else {
                        orig[b2 * (bpw as int) + u]
                    }),
                forall|b2: int, u: int|
                    0 <= b2 < b && cs <= u < ce ==> #[trigger] flat@[b2 * (bpw as int) + u]
                        == orig[block_swap(b2, ws as int) * (bpw as int) + u],
            decreases nb_blocks - b,
        {
            proof {
                lemma_block_step(b as int, sbpw as int, nblocks);
                lemma_block_step(b as int, bpw as int, nblocks);
                lemma_block_swap(b as int, ws as int);
                lemma_block_step(block_swap(b as int, ws as int), sbpw as int, nblocks);
                assert(nblocks <= flat@.len()) by (nonlinear_arith)
                    requires
                        flat@.len() == nblocks * (bpw as int) && 1 <= bpw as int && 0 <= nblocks,
                ;
            }
            let partner = (b % ws) * ws + b / ws;
            proof {
                assert(partner as int == block_swap(b as int, ws as int));
            }
            copy_bytes(&mut flat, b * bpw + cs, &send_flat, partner * sbpw, sbpw);
            proof {
                assert forall|b2: int, u: int|
                    0 <= b2 < nblocks && 0 <= u < bpw && !(b2 < b + 1 && cs <= u < ce)
                        implies #[trigger] flat@[b2 * (bpw as int) + u] == (if u < cs {
                        orig[block_swap(b2, ws as int) * (bpw as int) + u]
                    } else {
                        orig[b2 * (bpw as int) + u]
                    }) by {
                    lemma_block_step(b2, bpw as int, nblocks);
                    if b2 != b {
                        lemma_block_disjoint(b as int, cs as int, ce as int, b2, u, bpw as int);
                    }
                }
                assert forall|b2: int, u: int|
                    0 <= b2 < b + 1 && cs <= u < ce implies #[trigger] flat@[b2 * (bpw as int)
                    + u] == orig[block_swap(b2, ws as int) * (bpw as int) + u] by {
                    lemma_block_step(b2, bpw as int, nblocks);
                    if b2 < b {
                        lemma_block_disjoint(b as int, cs as int, ce as int, b2, u, bpw as int);
                    } else {
                        assert(flat@[b2 * (bpw as int) + u] == send_flat@[partner as int * (
                        sbpw as int) + (u - cs)]);
                        assert(send_flat@[partner as int * (sbpw as int) + (u - cs)] == orig[
                        partner as int * (bpw as int) + cs + (u - cs)]);
                    }
                }
            }
            b = b + 1;
        }
        proof {
            assert forall|b2: int, u: int|
                0 <= b2 < ws * ws && 0 <= u < bpw implies #[trigger] flat@[b2 * (bpw as int) + u]
                == (if u < ce {
                    orig[block_swap(b2, ws as int) * (bpw as int) + u]
                } else {
                    orig[b2 * (bpw as int) + u]
                }) by {}
        }
        cs = ce;
        w = w + 1;
        proof {
            if w < n_passes {
                assert(cs == w * sb0 && cs < bpw);
            }
        }
    }
    let out = split_rows(&flat, ws, l);
    proof {
        let views = byte_views(rows@);
        let tr = transposed(views, bpw as int);
        assert(byte_views(out@).len() == tr.len());
        assert forall|j: int| 0 <= j < ws implies byte_views(out@)[j] == tr[j] by {
            let oj = byte_views(out@)[j];
            lemma_block_step(j, l as int, ws as int);
            assert(oj == flat@.subrange(j * (l as int), j * (l as int) + l as int));
            assert(oj.len() == l);
            assert(tr[j].len() == ws * bpw);
            assert forall|i: int| 0 <= i < l implies oj[i] == tr[j][i] by {
                lemma_flat_decompose(i, bpw as int, ws as int);
                let k = i / (bpw as int);
                let u = i % (bpw as int);
                let b2 = j * (ws as int) + k;
                assert(0 <= b2 < (ws as int) * (ws as int)) by {
                    lemma_block_step(j, ws as int, ws as int);
                }
                assert(b2 * (bpw as int) + u == j * (l as int) + i) by (nonlinear_arith)
                    requires
                        b2 == j * (ws as int) + k && i == k * (bpw as int) + u && l as int == (
                        ws as int) * (bpw as int),
                ;
                assert(oj[i] == flat@[b2 * (bpw as int) + u]);
                assert(flat@[b2 * (bpw as int) + u] == orig[block_swap(b2, ws as int) * (
                bpw as int) + u]);
                lemma_flat_index(j, k, ws as int);
                assert(block_swap(b2, ws as int) == k * (ws as int) + j);
                let q = (k * (ws as int) + j) * (bpw as int) + u;
                assert((k * (ws as int) + j) * (bpw as int) + u == k * ((ws as int) * (
                bpw as int)) + (j * (bpw as int) + u)) by (nonlinear_arith);
                assert(q == k * (l as int) + (j * (bpw as int) + u));
                assert(0 <= j * (bpw as int) + u < l as int) by {
                    lemma_block_step(j, bpw as int, ws as int);
                    assert((ws as int) * (bpw as int) == (bpw as int) * (ws as int))
                        by (nonlinear_arith);
                }
                assert(0 <= q < (ws as int) * (l as int)) by {
                    lemma_block_step(k, l as int, ws as int);
                }
                assert(orig[q] == views[q / (l as int)][q % (l as int)]) by {
                    lemma_flat_decompose(q, l as int, ws as int);
                }
                lemma_flat_index(k, j * (bpw as int) + u, l as int);
                assert(orig[q] == views[k][j * (bpw as int) + u]);
                assert(tr[j][i] == views[i / (bpw as int)][j * (bpw as int) + i % (bpw as int)]);
            }
            assert_seqs_equal!(oj == tr[j]);
        }
        assert_seqs_equal!(byte_views(out@) == tr);
    }
    out
}


/// Appends every byte of `src` to `dst`.
pub fn append_bytes(dst: &mut Vec<u8>, src: &Vec<u8>)
    ensures
        final(dst)@ == old(dst)@ + src@,
{
    let ghost base = dst@;
    let n = src.len();
    let mut t: usize = 0;
    while t < n
        invariant
            t <= n,
            n == src@.len(),
            dst@ == base + src@.take(t as int),
        decreases n - t,
    {
        let b = src[t];
        dst.push(b);
        proof {
            assert_seqs_equal!(dst@ == base + src@.take(t as int + 1));
        }
        t = t + 1;
    }
    proof {
        assert_seqs_equal!(dst@ == base + src@);
    }
}

/// The broadcast: the root's buffer overwrites every rank's same-sized
/// buffer.
pub fn broadcast_world(bufs: &Vec<Vec<u8>>) -> (out: Vec<Vec<u8>>)
    requires
        bufs@.len() >= 1,
        uniform_len(byte_views(bufs@), bufs@[0]@.len() as int),
    ensures
        out@.len() == bufs@.len(),
        forall|j: int| 0 <= j < out@.len() ==> #[trigger] out@[j]@ == bufs@[0]@,
{
    let ws = bufs.len();
    let root = &bufs[0];
    let n = root.len();
    let mut out: Vec<Vec<u8>> = Vec::new();
    let mut j: usize = 0;
    while j < ws
        invariant
            j <= ws,
            n == bufs@[0]@.len(),
            root@ == bufs@[0]@,
            out@.len() == j,
            forall|k: int| 0 <= k < j ==> #[trigger] out@[k]@ == bufs@[0]@,
        decreases ws - j,
    {
        let mut c = zero_vec(n);
        copy_bytes(&mut c, 0, root, 0, n);
        proof {
            assert_seqs_equal!(c@ == bufs@[0]@);
        }
        out.push(c);
        j = j + 1;
    }
    out
}

/// The value sequences held by a vector of element buffers, rank by rank.
pub open spec fn elem_views(s: Seq<Vec<FieldElem>>) -> Seq<Seq<int>> {
    Seq::new(s.len(), |j: int| vals(s[j]@))
}

/// Every rank's value sequence has length `m`.
pub open spec fn uniform_elems(s: Seq<Seq<int>>, m: int) -> bool {
    forall|j: int| 0 <= j < s.len() ==> (#[trigger] s[j]).len() == m
}

/// Every rank's values are reduced residues.
pub open spec fn all_rows_in_range(s: Seq<Seq<int>>) -> bool {
    forall|j: int| 0 <= j < s.len() ==> all_in_range(#[trigger] s[j])
}

/// The ranks' value sequences concatenated in rank order.
pub open spec fn elem_gathered(valss: Seq<Seq<int>>, m: int) -> Seq<int> {
    Seq::new((valss.len() * m) as nat, |i: int| valss[i / m][i % m])
}

/// The field sum of entry `i` over the first `j` ranks.
pub open spec fn col_sum(valss: Seq<Seq<int>>, i: int, j: nat) -> int
    decreases j,
{
    if j == 0 {
        0
    } else {
        fadd(col_sum(valss, i, (j - 1) as nat), valss[j - 1int][i])
    }
}

/// The weighted field sum of entry `i` over the first `j` ranks, rank `k`
/// weighted by `coefs[k]`.
pub open spec fn col_weighted(valss: Seq<Seq<int>>, coefs: Seq<int>, i: int, j: nat) -> int
    decreases j,
{
    if j == 0 {
        0
    } else {
        fadd(col_weighted(valss, coefs, i, (j - 1) as nat), fmul(valss[j - 1int][i], coefs[j - 1int]))
    }
}

/// Gathering each rank's encoded stream and decoding the concatenation
/// yields the ranks' values concatenated in rank order.
pub proof fn lemma_gathered_stream(bufs: Seq<Seq<u8>>, valss: Seq<Seq<int>>, m: int)
    requires
        m >= 0,
        bufs.len() == valss.len(),
        uniform_elems(valss, m),
        all_rows_in_range(valss),
        forall|j: int| 0 <= j < bufs.len() ==> #[trigger] bufs[j] == encoded_elems(valss[j]),
    ensures
        gathered(bufs, 8 * m).len() % 8 == 0,
        decoded_elems(gathered(bufs, 8 * m)) == elem_gathered(valss, m),
        all_in_range(elem_gathered(valss, m)),
{
    vstd::bytes::lemma_auto_spec_u64_to_from_le_bytes();
    let ws = valss.len() as int;
    let b = gathered(bufs, 8 * m);
    let g = elem_gathered(valss, m);
    assert(b.len() == ws * (8 * m));
    assert(b.len() == 8 * (ws * m)) by (nonlinear_arith)
        requires
            b.len() == ws * (8 * m),
    ;
    assert(b.len() % 8 == 0) by {
        lemma_flat_index(ws * m, 0, 8);
    }
    assert(uniform_len(bufs, 8 * m)) by {
        assert forall|j: int| 0 <= j < bufs.len() implies (#[trigger] bufs[j]).len() == 8 * m by {
            assert(bufs[j] == encoded_elems(valss[j]));
            assert(valss[j].len() == m);
        }
    }
    let d = decoded_elems(b);
    assert(d.len() == ws * m) by {
        lemma_flat_index(ws * m, 0, 8);
    }
    assert forall|i: int| 0 <= i < ws * m implies d[i] == g[i] && 0 <= g[i]
        < FIELD_MODULUS as int by {
        lemma_flat_decompose(i, m, ws);
        let j = i / m;
        let q = i % m;
        assert(valss[j].len() == m);
        assert(all_in_range(valss[j]));
        assert(0 <= valss[j][q] < FIELD_MODULUS as int);
        let sub = b.subrange(8 * i, 8 * i + 8);
        assert forall|t: int| 0 <= t < 8 implies sub[t] == encoded_elems(valss[j])[8 * q + t] by {
            assert(8 * i + t == j * (8 * m) + (8 * q + t)) by (nonlinear_arith)
                requires
                    i == j * m + q,
            ;
            lemma_flat_index(j, 8 * q + t, 8 * m);
            assert(b[8 * i + t] == bufs[j][8 * q + t]);
        }
        assert forall|t: int| 0 <= t < 8 implies sub[t] == vstd::bytes::spec_u64_to_le_bytes(
            valss[j][q] as u64,
        )[t] by {
            lemma_flat_index(q, t, 8);
        }
        assert_seqs_equal!(sub == vstd::bytes::spec_u64_to_le_bytes(valss[j][q] as u64));
        assert(d[i] == valss[j][q]);
        assert(g[i] == valss[j][q]);
    }
    assert_seqs_equal!(d == g);
}

/// A vector of `m` zero elements.
pub fn zero_elems(m: usize) -> (v: Vec<FieldElem>)
    ensures
        v@.len() == m,
        forall|i: int| 0 <= i < m ==> vals(v@)[i] == 0,
{
    let mut v: Vec<FieldElem> = Vec::new();
    let mut i: usize = 0;
    while i < m
        invariant
            i <= m,
            v@.len() == i,
            forall|k: int| 0 <= k < i ==> (#[trigger] v@[k]).val() == 0,
        decreases m - i,
    {
        let z = FieldElem::zero();
        v.push(z);
        i = i + 1;
    }
    proof {
        assert forall|k: int| 0 <= k < m implies vals(v@)[k] == 0 by {
            assert(vals(v@)[k] == v@[k].val());
        }
    }
    v
}

/// The sum-reduction: every rank contributes an `m`-element vector; the
/// root (rank 0) ends with the element-wise field sum over all ranks, and
/// every other rank ends with an empty vector after taking part in the
/// underlying gather.  The gather moves the encoded streams under the
/// chunk ceiling, and the root folds the rank blocks entry by entry.
pub fn sum_vec_world(locals: &Vec<Vec<FieldElem>>) -> (out: Vec<Vec<FieldElem>>)
    requires
        locals@.len() >= 1,
        uniform_elems(elem_views(locals@), locals@[0]@.len() as int),
        locals@.len() * (8 * locals@[0]@.len()) <= usize::MAX,
    ensures
        out@.len() == locals@.len(),
        out@[0]@.len() == locals@[0]@.len(),
        forall|i: int|
            0 <= i < out@[0]@.len() ==> vals(out@[0]@)[i] == col_sum(
                elem_views(locals@),
                i,
                locals@.len(),
            ),
        forall|j: int| 1 <= j < out@.len() ==> (#[trigger] out@[j]@).len() == 0,
{
    let ws = locals.len();
    let m = locals[0].len();
    let ghost valss = elem_views(locals@);
    let mut bufs: Vec<Vec<u8>> = Vec::new();
    let mut j: usize = 0;
    while j < ws
        invariant
            j <= ws,
            ws == locals@.len(),
            m == locals@[0]@.len(),
            valss == elem_views(locals@),
            uniform_elems(valss, m as int),
            bufs@.len() == j,
            forall|k: int|
                0 <= k < j ==> #[trigger] byte_views(bufs@)[k] == encoded_elems(valss[k]),
            forall|k: int| 0 <= k < j ==> all_in_range(#[trigger] valss[k]),
        decreases ws - j,
    {
        proof {
            assert(elem_views(locals@)[j as int] == vals(locals@[j as int]@));
        }
        let ghost prev = bufs@;
        let b = encode_elems(&locals[j]);
        proof {
            assert(b@ == encoded_elems(valss[j as int]));
        }
        bufs.push(b);
        proof {
            assert forall|k: int|
                0 <= k < j + 1 implies #[trigger] byte_views(bufs@)[k] == encoded_elems(
            valss[k]) by {
                assert(byte_views(bufs@)[k] == bufs@[k]@);
                if k < j {
                    assert(bufs@[k] == prev[k]);
                    assert(byte_views(prev)[k] == prev[k]@);
                }
            }
        }
        j = j + 1;
    }
    proof {
        assert(all_rows_in_range(valss));
        assert(byte_views(bufs@)[0].len() == 8 * m) by {
            assert(byte_views(bufs@)[0] == encoded_elems(valss[0]));
            assert(valss[0].len() == m);
        }
        assert(uniform_len(byte_views(bufs@), bufs@[0]@.len() as int)) by {
            assert forall|k: int|
                0 <= k < bufs@.len() implies (#[trigger] byte_views(bufs@)[k]).len() == bufs@[0]@.len() by {
                assert(byte_views(bufs@)[k] == encoded_elems(valss[k]));
                assert(valss[k].len() == m);
            }
        }
        lemma_gathered_stream(byte_views(bufs@), valss, m as int);
    }
    let global_bytes = gather_world(&bufs);
    proof {
        assert(bufs@[0]@.len() == 8 * m);
        assert(global_bytes@ == gathered(byte_views(bufs@), 8 * (m as int)));
    }
    let global = decode_elems(&global_bytes);
    let glen = global.len();
    proof {
        assert(vals(global@) == elem_gathered(valss, m as int));
        assert(global@.len() == ws * m) by {
            assert(vals(global@).len() == global@.len());
        }
    }
    let mut combined: Vec<FieldElem> = Vec::new();
    let mut i: usize = 0;
    while i < m
        invariant
            i <= m,
            ws == locals@.len(),
            ws >= 1,
            m == locals@[0]@.len(),
            valss == elem_views(locals@),
            uniform_elems(valss, m as int),
            all_rows_in_range(valss),
            global@.len() == ws * m,
            global@.len() == glen,
            vals(global@) == elem_gathered(valss, m as int),
            combined@.len() == i,
            forall|k: int| 0 <= k < i ==> vals(combined@)[k] == col_sum(valss, k, ws as nat),
        decreases m - i,
    {
        proof {
            lemma_block_step(0, m as int, ws as int);
        }
        let mut acc = global[i];
        proof {
            assert(vals(global@)[i as int] == elem_gathered(valss, m as int)[i as int]);
            lemma_flat_index(0, i as int, m as int);
            assert(elem_gathered(valss, m as int)[i as int] == valss[0][i as int]);
            assert(acc.val() == valss[0][i as int]);
            assert(0 <= valss[0][i as int] < FIELD_MODULUS as int) by {
                assert(all_in_range(valss[0]));
            }
            vstd::arithmetic::div_mod::lemma_small_mod(
                valss[0][i as int] as nat,
                FIELD_MODULUS as nat,
            );
            assert(col_sum(valss, i as int, 0nat) == 0);
            assert(col_sum(valss, i as int, 1nat) == fadd(0, valss[0][i as int]));
            assert(acc.val() == col_sum(valss, i as int, 1nat));
        }
        let mut j: usize = 1;
        while j < ws
            invariant
                1 <= j <= ws,
                i < m,
                ws == valss.len(),
                uniform_elems(valss, m as int),
                global@.len() == ws * m,
                global@.len() == glen,
                vals(global@) == elem_gathered(valss, m as int),
                acc.val() == col_sum(valss, i as int, j as nat),
            decreases ws - j,
        {
            proof {
                lemma_block_step(j as int, m as int, ws as int);
                lemma_flat_index(j as int, i as int, m as int);
                assert(vals(global@)[j as int * (m as int) + i as int] == valss[j as int][
                i as int]);
            }
            let x = global[j * m + i];
            proof {
                assert(x.val() == valss[j as int][i as int]);
            }
            acc = acc.add(x);
            j = j + 1;
        }
        combined.push(acc);
        proof {
            assert forall|k: int|
                0 <= k < i + 1 implies vals(combined@)[k] == col_sum(valss, k, ws as nat) by {
                assert(combined@[k].val() == vals(combined@)[k]);
            }
        }
        i = i + 1;
    }
    let mut out: Vec<Vec<FieldElem>> = Vec::new();
    out.push(combined);
    let mut j: usize = 1;
    while j < ws
        invariant
            1 <= j <= ws || (ws == 1 && j == 1),
            out@.len() == j,
            out@[0]@.len() == m,
            forall|k: int| 0 <= k < m ==> vals(out@[0]@)[k] == col_sum(valss, k, ws as nat),
            forall|k: int| 1 <= k < j ==> (#[trigger] out@[k]@).len() == 0,
        decreases ws - j,
    {
        let e: Vec<FieldElem> = Vec::new();
        out.push(e);
        j = j + 1;
    }
    out
}


/// The weighted combine: the root (rank 0) ends with the element-wise
/// field sum of the ranks' vectors, rank `j`'s entries weighted by
/// `coefs[j]`; every other rank ends with a vector of `m` zero elements
/// after taking part in the underlying gather.
pub fn coef_combine_vec_world(locals: &Vec<Vec<FieldElem>>, coefs: &Vec<FieldElem>) -> (out: Vec<
    Vec<FieldElem>,
>)
    requires
        locals@.len() >= 1,
        coefs@.len() == locals@.len(),
        uniform_elems(elem_views(locals@), locals@[0]@.len() as int),
        locals@.len() * (8 * locals@[0]@.len()) <= usize::MAX,
    ensures
        out@.len() == locals@.len(),
        out@[0]@.len() == locals@[0]@.len(),
        forall|i: int|
            0 <= i < out@[0]@.len() ==> vals(out@[0]@)[i] == col_weighted(
                elem_views(locals@),
                vals(coefs@),
                i,
                locals@.len(),
            ),
        forall|j: int|
            1 <= j < out@.len() ==> (#[trigger] out@[j]@).len() == locals@[0]@.len() && forall|
                i: int,
            |
                0 <= i < out@[j]@.len() ==> vals(#[trigger] out@[j]@)[i] == 0,
{
    let ws = locals.len();
    let m = locals[0].len();
    let ghost valss = elem_views(locals@);
    let ghost cs = vals(coefs@);
    let mut bufs: Vec<Vec<u8>> = Vec::new();
    let mut j: usize = 0;
    while j < ws
        invariant
            j <= ws,
            ws == locals@.len(),
            m == locals@[0]@.len(),
            valss == elem_views(locals@),
            uniform_elems(valss, m as int),
            bufs@.len() == j,
            forall|k: int|
                0 <= k < j ==> #[trigger] byte_views(bufs@)[k] == encoded_elems(valss[k]),
            forall|k: int| 0 <= k < j ==> all_in_range(#[trigger] valss[k]),
        decreases ws - j,
    {
        proof {
            assert(elem_views(locals@)[j as int] == vals(locals@[j as int]@));
        }
        let ghost prev = bufs@;
        let b = encode_elems(&locals[j]);
        proof {
            assert(b@ == encoded_elems(valss[j as int]));
        }
        bufs.push(b);
        proof {
            assert forall|k: int|
                0 <= k < j + 1 implies #[trigger] byte_views(bufs@)[k] == encoded_elems(
            valss[k]) by {
                assert(byte_views(bufs@)[k] == bufs@[k]@);
                if k < j {
                    assert(bufs@[k] == prev[k]);
                    assert(byte_views(prev)[k] == prev[k]@);
                }
            }
        }
        j = j + 1;
    }
    proof {
        assert(all_rows_in_range(valss));
        assert(byte_views(bufs@)[0].len() == 8 * m) by {
            assert(byte_views(bufs@)[0] == encoded_elems(valss[0]));
            assert(valss[0].len() == m);
        }
        assert(uniform_len(byte_views(bufs@), bufs@[0]@.len() as int)) by {
            assert forall|k: int|
                0 <= k < bufs@.len() implies (#[trigger] byte_views(bufs@)[k]).len()
                == bufs@[0]@.len() by {
                assert(byte_views(bufs@)[k] == encoded_elems(valss[k]));
                assert(valss[k].len() == m);
            }
        }
        lemma_gathered_stream(byte_views(bufs@), valss, m as int);
    }
    let global_bytes = gather_world(&bufs);
    proof {
        assert(bufs@[0]@.len() == 8 * m);
        assert(global_bytes@ == gathered(byte_views(bufs@), 8 * (m as int)));
    }
    let global = decode_elems(&global_bytes);
    let glen = global.len();
    proof {
        assert(vals(global@) == elem_gathered(valss, m as int));
        assert(global@.len() == ws * m) by {
            assert(vals(global@).len() == global@.len());
        }
    }
    let mut combined: Vec<FieldElem> = Vec::new();
    let mut i: usize = 0;
    while i < m
        invariant
            i <= m,
            ws == locals@.len(),
            ws >= 1,
            ws == coefs@.len(),
            m == locals@[0]@.len(),
            valss == elem_views(locals@),
            cs == vals(coefs@),
            uniform_elems(valss, m as int),
            all_rows_in_range(valss),
            global@.len() == ws * m,
            global@.len() == glen,
            vals(global@) == elem_gathered(valss, m as int),
            combined@.len() == i,
            forall|k: int| 0 <= k < i ==> vals(combined@)[k] == col_weighted(valss, cs, k, ws as nat),
        decreases m - i,
    {
        let mut acc = FieldElem::zero();
        proof {
            assert(col_weighted(valss, cs, i as int, 0nat) == 0);
        }
        let mut j: usize = 0;
        while j < ws
            invariant
                j <= ws,
                i < m,
                ws == valss.len(),
                ws == coefs@.len(),
                cs == vals(coefs@),
                uniform_elems(valss, m as int),
                global@.len() == ws * m,
                global@.len() == glen,
                vals(global@) == elem_gathered(valss, m as int),
                acc.val() == col_weighted(valss, cs, i as int, j as nat),
            decreases ws - j,
        {
            proof {
                lemma_block_step(j as int, m as int, ws as int);
                lemma_flat_index(j as int, i as int, m as int);
                assert(vals(global@)[j as int * (m as int) + i as int] == valss[j as int][
                i as int]);
            }
            let x = global[j * m + i];
            let c = coefs[j];
            proof {
                assert(x.val() == valss[j as int][i as int]);
                assert(c.val() == cs[j as int]);
            }
            acc = acc.add(x.mul(c));
            j = j + 1;
        }
        combined.push(acc);
        proof {
            assert forall|k: int|
                0 <= k < i + 1 implies vals(combined@)[k] == col_weighted(valss, cs, k, ws as nat) by {
                assert(combined@[k].val() == vals(combined@)[k]);
            }
        }
        i = i + 1;
    }
    let mut out: Vec<Vec<FieldElem>> = Vec::new();
    out.push(combined);
    let mut j: usize = 1;
    while j < ws
        invariant
            1 <= j <= ws || (ws == 1 && j == 1),
            m == locals@[0]@.len(),
            out@.len() == j,
            out@[0]@.len() == m,
            forall|k: int| 0 <= k < m ==> vals(out@[0]@)[k] == col_weighted(valss, cs, k, ws as nat),
            forall|k: int|
                1 <= k < j ==> (#[trigger] out@[k]@).len() == m && forall|i2: int|
                    0 <= i2 < out@[k]@.len() ==> vals(#[trigger] out@[k]@)[i2] == 0,
        decreases ws - j,
    {
        let z = zero_elems(m);
        out.push(z);
        j = j + 1;
    }
    out
}

/// The variable-length gather: every rank frames its element list; the
/// root learns the per-rank byte lengths, computes displacement offsets by
/// a running sum, receives the frames concatenated at those offsets, and
/// reads each rank's list back out of its segment.  Only the root sees the
/// result; it reproduces every rank's list exactly.
pub fn gather_varlen_world(lists: &Vec<Vec<FieldElem>>) -> (out: Vec<Vec<FieldElem>>)
    requires
        lists@.len() >= 1,
    ensures
        out@.len() == lists@.len(),
        forall|j: int| 0 <= j < out@.len() ==> #[trigger] out@[j]@ == lists@[j]@,
{
    let ws = lists.len();
    let mut flat: Vec<u8> = Vec::new();
    let mut displs: Vec<usize> = Vec::new();
    let mut j: usize = 0;
    while j < ws
        invariant
            j <= ws,
            ws == lists@.len(),
            displs@.len() == j,
            forall|k: int| 0 <= k < j ==> #[trigger] displs@[k] <= flat@.len(),
            forall|k: int|
                0 <= k < j ==> #[trigger] flat@.subrange(
                    displs@[k] as int,
                    displs@[k] + framed_elems(vals(lists@[k]@)).len(),
                ) == framed_elems(vals(lists@[k]@)) && displs@[k] + framed_elems(
                    vals(lists@[k]@),
                ).len() <= flat@.len() && all_in_range(vals(lists@[k]@)),
        decreases ws - j,
    {
        let ghost prev = flat@;
        let b = encode_framed(&lists[j]);
        displs.push(flat.len());
        append_bytes(&mut flat, &b);
        proof {
            let fj = framed_elems(vals(lists@[j as int]@));
            assert(b@ == fj);
            assert_seqs_equal!(flat@.subrange(prev.len() as int, prev.len() + fj.len() as int) == fj);
            assert forall|k: int|
                0 <= k < j implies #[trigger] flat@.subrange(
                displs@[k] as int,
                displs@[k] + framed_elems(vals(lists@[k]@)).len(),
            ) == framed_elems(vals(lists@[k]@)) && displs@[k] + framed_elems(
                vals(lists@[k]@),
            ).len() <= flat@.len() && all_in_range(vals(lists@[k]@)) by {
                let fk = framed_elems(vals(lists@[k]@));
                assert_seqs_equal!(flat@.subrange(displs@[k] as int, displs@[k] + fk.len()) ==
                    prev.subrange(displs@[k] as int, displs@[k] + fk.len()));
            }
        }
        j = j + 1;
    }
    proof {
        assert forall|k: int|
            0 <= k < ws implies #[trigger] flat@.subrange(
            displs@[k] as int,
            displs@[k] + framed_elems(vals(lists@[k]@)).len(),
        ) == framed_elems(vals(lists@[k]@)) && displs@[k] + framed_elems(vals(lists@[k]@)).len()
            <= flat@.len() && all_in_range(vals(lists@[k]@)) by {
            let fk = framed_elems(vals(lists@[k]@));
            assert(flat@.subrange(displs@[k] as int, displs@[k] + fk.len()) == fk);
        }
    }
    let mut out: Vec<Vec<FieldElem>> = Vec::new();
    let flen = flat.len();
    let mut j: usize = 0;
    while j < ws
        invariant
            j <= ws,
            ws == lists@.len(),
            displs@.len() == ws,
            flen == flat@.len(),
            forall|k: int| 0 <= k < ws ==> #[trigger] displs@[k] <= flat@.len(),
            forall|k: int|
                0 <= k < ws ==> #[trigger] flat@.subrange(
                    displs@[k] as int,
                    displs@[k] + framed_elems(vals(lists@[k]@)).len(),
                ) == framed_elems(vals(lists@[k]@)) && displs@[k] + framed_elems(
                    vals(lists@[k]@),
                ).len() <= flat@.len() && all_in_range(vals(lists@[k]@)),
            out@.len() == j,
            forall|k: int| 0 <= k < j ==> #[trigger] out@[k]@ == lists@[k]@,
        decreases ws - j,
    {
        let d = displs[j];
        let mut seg: Vec<u8> = Vec::new();
        seg.extend_from_slice(vstd::slice::slice_subrange(flat.as_slice(), d, flen));
        proof {
            let vj = vals(lists@[j as int]@);
            let fj = framed_elems(vj);
            assert(seg@ == flat@.subrange(d as int, flen as int)) by {
                assert forall|p: int|
                    0 <= p < seg@.len() implies seg@[p] == flat@.subrange(d as int, flen as int)[
                p] by {
                    assert(vstd::pervasive::cloned::<u8>(
                        flat@.subrange(d as int, flen as int)[p],
                        seg@[p],
                    ));
                }
                assert_seqs_equal!(seg@ == flat@.subrange(d as int, flen as int));
            }
            assert(flat@.subrange(d as int, d + fj.len()) == fj);
            assert(d + fj.len() <= flen);
            let rest = flat@.subrange(d + fj.len(), flen as int);
            assert_seqs_equal!(seg@ == fj + rest, p => {
                if p < fj.len() {
                    assert(fj[p] == flat@.subrange(d as int, d + fj.len())[p]);
                }
            });
            assert(vj.len() <= u64::MAX) by {
                assert(fj.len() == 8 + 8 * vj.len()) by {
                    vstd::bytes::lemma_auto_spec_u64_to_from_le_bytes();
                }
            }
            crate::codec::lemma_frame_roundtrip(vj, rest);
        }
        let elems = crate::codec::decode_framed(&seg);
        proof {
            assert(vals(elems@) == vals(lists@[j as int]@));
            assert forall|i: int| 0 <= i < elems@.len() implies elems@[i] == lists@[j as int]@[i] by {
                assert(vals(elems@)[i] == vals(lists@[j as int]@)[i]);
                crate::field::lemma_val_injective(elems@[i], lists@[j as int]@[i]);
            }
            assert(vals(elems@).len() == elems@.len());
            assert(vals(lists@[j as int]@).len() == lists@[j as int]@.len());
            assert_seqs_equal!(elems@ == lists@[j as int]@);
        }
        out.push(elems);
        j = j + 1;
    }
    out
}


/// Law: scattering the gathered buffer returns every rank exactly its own
/// buffer — gather followed by scatter is the identity on each rank's
/// data, for every world size and buffer length.
pub proof fn lemma_gather_scatter_identity(locals: Seq<Seq<u8>>, n: int)
    requires
        n >= 0,
        locals.len() >= 1,
        uniform_len(locals, n),
    ensures
        scattered(gathered(locals, n), locals.len() as int, n) == locals,
{
    let ws = locals.len() as int;
    let g = gathered(locals, n);
    let sc = scattered(g, ws, n);
    assert forall|j: int| 0 <= j < ws implies sc[j] == locals[j] by {
        lemma_block_step(j, n, ws);
        assert forall|t: int| 0 <= t < n implies sc[j][t] == locals[j][t] by {
            lemma_flat_index(j, t, n);
            assert(sc[j][t] == g[j * n + t]);
        }
        assert_seqs_equal!(sc[j] == locals[j]);
    }
    assert_seqs_equal!(sc == locals);
}

/// Law: the weighted combine with every coefficient equal to the
/// multiplicative identity is the plain sum-reduction, entry by entry.
pub proof fn lemma_unit_weights_combine(valss: Seq<Seq<int>>, coefs: Seq<int>, m: int, i: int, j: nat)
    requires
        j <= valss.len(),
        valss.len() <= coefs.len(),
        all_rows_in_range(valss),
        uniform_elems(valss, m),
        0 <= i < m,
        forall|k: int| 0 <= k < coefs.len() ==> #[trigger] coefs[k] == 1,
    ensures
        col_weighted(valss, coefs, i, j) == col_sum(valss, i, j),
    decreases j,
{
    if j > 0 {
        lemma_unit_weights_combine(valss, coefs, m, i, (j - 1) as nat);
        let v = valss[j - 1int][i];
        assert(all_in_range(valss[j - 1int]));
        assert(0 <= v < FIELD_MODULUS as int);
        assert(v * 1 == v) by (nonlinear_arith);
        vstd::arithmetic::div_mod::lemma_small_mod(v as nat, FIELD_MODULUS as nat);
        assert(fmul(v, coefs[j - 1int]) == v);
    }
}

/// Law: the all-to-all transpose is an involution — applied twice to the
/// same rows it returns the original rows.
pub proof fn lemma_transpose_involutive(rows: Seq<Seq<u8>>, bpw: int)
    requires
        bpw >= 0,
        uniform_len(rows, rows.len() * bpw),
    ensures
        transposed(transposed(rows, bpw), bpw) == rows,
{
    let ws = rows.len() as int;
    let t1 = transposed(rows, bpw);
    let t2 = transposed(t1, bpw);
    assert(t2.len() == rows.len());
    assert forall|j: int| 0 <= j < ws implies t2[j] == rows[j] by {
        assert(rows[j].len() == ws * bpw);
        assert(t2[j].len() == ws * bpw);
        assert forall|i: int| 0 <= i < ws * bpw implies t2[j][i] == rows[j][i] by {
            lemma_flat_decompose(i, bpw, ws);
            let k = i / bpw;
            let u = i % bpw;
            assert(t2[j][i] == t1[k][j * bpw + u]);
            lemma_flat_index(j, u, bpw);
            lemma_block_step(j, bpw, ws);
            assert(0 <= j * bpw + u < ws * bpw) by {
                assert((ws as int) * bpw == bpw * ws) by (nonlinear_arith);
                vstd::arithmetic::mul::lemma_mul_inequality(j + 1, ws, bpw);
            }
            assert(t1[k][j * bpw + u] == rows[j][k * bpw + u]);
        }
        assert_seqs_equal!(t2[j] == rows[j]);
    }
    assert_seqs_equal!(t2 == rows);
}

/// Law: at world size one every collective movement is the identity on the
/// lone rank's buffer — the gather returns it, the scatter returns it, and
/// the transpose leaves it in place.
pub proof fn lemma_single_process_identity(buf: Seq<u8>)
    ensures
        gathered(seq![buf], buf.len() as int) == buf,
        scattered(buf, 1, buf.len() as int) == seq![buf],
        transposed(seq![buf], buf.len() as int) == seq![buf],
{
    let n = buf.len() as int;
    let g = gathered(seq![buf], n);
    assert(g.len() == 1 * n);
    assert forall|i: int| 0 <= i < n implies g[i] == buf[i] by {
        lemma_flat_index(0, i, n);
        assert(g[i] == seq![buf][i / n][i % n]);
    }
    assert_seqs_equal!(g == buf);
    let sc = scattered(buf, 1, n);
    assert(sc[0] == buf.subrange(0 * n, 0 * n + n));
    assert_seqs_equal!(sc[0] == buf);
    assert_seqs_equal!(sc == seq![buf]);
    let tr = transposed(seq![buf], n);
    assert(tr[0].len() == 1 * n);
    assert forall|i: int| 0 <= i < n implies tr[0][i] == buf[i] by {
        lemma_flat_index(0, i, n);
        assert(tr[0][i] == seq![buf][i / n][0 * n + i % n]);
    }
    assert_seqs_equal!(tr[0] == buf);
    assert_seqs_equal!(tr == seq![buf]);
}

} // verus!
