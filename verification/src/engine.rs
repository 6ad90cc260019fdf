//! The per-process communicator.
//!
//! Each worker holds one of these: the group size, its own rank, and the
//! distinguished root at rank zero.  This is the fabric-free variant — the
//! verifier's communicator, and the prover's degraded mode: a live
//! message-passing fabric is a linked transport that cannot be carried
//! here, so the collective methods are total exactly on the
//! single-process mode, where every operation is a local copy or no-op.
//! The multi-process data movement itself is specified and verified by the
//! whole-group functions of `collective`, which a fabric-bound shell
//! drives rank by rank.

use vstd::prelude::*;
use vstd::seq_lib::*;

use crate::codec::{decode_framed, encode_framed, framed_elems, lemma_frame_roundtrip};
use crate::field::{lemma_val_injective, vals, FieldElem};

verus! {

/// The rank that receives combined data and originates broadcasts.
pub const ROOT_RANK: usize = 0;

/// A worker's view of its communication group.
#[derive(Debug, PartialEq, Eq, Structural)]
pub struct MPIConfig {
    world_size: usize,
    world_rank: usize,
}

impl Clone for MPIConfig {
    /// An equal communicator for the same group and rank.
    fn clone(&self) -> (r: Self)
        ensures
            r == *self,
    {
        proof {
            use_type_invariant(self);
        }
        MPIConfig { world_size: self.world_size, world_rank: self.world_rank }
    }
}

impl Default for MPIConfig {
    /// A single-process group: one rank, which is the root.
    fn default() -> (r: Self)
        ensures
            r.spec_world_size() == 1,
            r.spec_world_rank() == 0,
    {
        MPIConfig { world_size: 1, world_rank: 0 }
    }
}

impl MPIConfig {
    /// The number of worker processes in the group.
    pub closed spec fn spec_world_size(self) -> int {
        self.world_size as int
    }

    /// This process's rank.
    pub closed spec fn spec_world_rank(self) -> int {
        self.world_rank as int
    }

    #[verifier::type_invariant]
    spec fn wf(self) -> bool {
        1 <= self.spec_world_size() && 0 <= self.spec_world_rank() < self.spec_world_size()
    }

    /// The prover's communicator, from the group size and rank the process
    /// shell read off its transport at start-up.
    pub fn prover_new(world_size: usize, world_rank: usize) -> (r: Self)
        requires
            1 <= world_size,
            world_rank < world_size,
        ensures
            r.spec_world_size() == world_size,
            r.spec_world_rank() == world_rank,
    {
        MPIConfig { world_size, world_rank }
    }

    /// The verifier's communicator: it knows the group size but never
    /// touches real communication, and always stands at the root.
    pub fn verifier_new(world_size: usize) -> (r: Self)
        requires
            1 <= world_size,
        ensures
            r.spec_world_size() == world_size,
            r.spec_world_rank() == 0,
    {
        MPIConfig { world_size, world_rank: 0 }
    }

    /// The number of worker processes in the group.
    pub fn world_size(&self) -> (r: usize)
        ensures
            r == self.spec_world_size(),
            r >= 1,
    {
        proof {
            use_type_invariant(self);
        }
        self.world_size
    }

    /// This process's rank.
    pub fn world_rank(&self) -> (r: usize)
        ensures
            r == self.spec_world_rank(),
            r < self.spec_world_size(),
    {
        proof {
            use_type_invariant(self);
        }
        self.world_rank
    }

    /// Whether this process is the root.
    pub fn is_root(&self) -> (r: bool)
        ensures
            r == (self.spec_world_rank() == ROOT_RANK),
    {
        self.world_rank == ROOT_RANK
    }

    /// Whether the group has a single process, in which case every
    /// collective operation degrades to a local copy or no-op.
    pub fn is_single_process(&self) -> (r: bool)
        ensures
            r == (self.spec_world_size() == 1),
    {
        self.world_size == 1
    }

    /// Blocks until every rank of the group has arrived; with one process
    /// there is nobody to wait for.
    pub fn barrier(&self)
        requires
            self.spec_world_size() == 1,
    {
    }

    /// Every rank sends its local buffer and the root receives the
    /// rank-ordered concatenation; with one process the result is the
    /// local buffer itself.
    pub fn gather_vec(&self, local_vec: &Vec<FieldElem>, global_vec: &mut Vec<FieldElem>)
        requires
            self.spec_world_size() == 1,
        ensures
            final(global_vec)@ == local_vec@,
    {
        global_vec.clear();
        let n = local_vec.len();
        let mut i: usize = 0;
        while i < n
            invariant
                i <= n,
                n == local_vec@.len(),
                global_vec@ == local_vec@.take(i as int),
            decreases n - i,
        {
            let x = local_vec[i];
            global_vec.push(x);
            proof {
                assert_seqs_equal!(global_vec@ == local_vec@.take(i + 1));
            }
            i = i + 1;
        }
        proof {
            assert_seqs_equal!(global_vec@ == local_vec@);
        }
    }

    /// The inverse of the gather: each rank receives its own slice of the
    /// root's rank-major send buffer; with one process the send buffer is
    /// copied into the equally long receive buffer.
    pub fn scatter_vec(&self, send_vec: &Vec<FieldElem>, recv_vec: &mut Vec<FieldElem>)
        requires
            self.spec_world_size() == 1,
            old(recv_vec)@.len() == send_vec@.len(),
        ensures
            final(recv_vec)@ == send_vec@,
    {
        let n = send_vec.len();
        let mut i: usize = 0;
        while i < n
            invariant
                i <= n,
                n == send_vec@.len(),
                recv_vec@.len() == n,
                forall|k: int| 0 <= k < i ==> recv_vec@[k] == send_vec@[k],
            decreases n - i,
        {
            let x = send_vec[i];
            recv_vec[i] = x;
            i = i + 1;
        }
        proof {
            assert_seqs_equal!(recv_vec@ == send_vec@);
        }
    }

    /// The root's value overwrites every other rank's value; with one
    /// process there is nobody to overwrite.
    pub fn root_broadcast_f(&self, f: &mut FieldElem)
        requires
            self.spec_world_size() == 1,
        ensures
            *final(f) == *old(f),
    {
    }

    /// The root's bytes overwrite every other rank's bytes; with one
    /// process there is nobody to overwrite.
    pub fn root_broadcast_bytes(&self, bytes: &mut Vec<u8>)
        requires
            self.spec_world_size() == 1,
        ensures
            final(bytes)@ == old(bytes)@,
    {
    }

    /// The element-wise field sum of the ranks' vectors, returned on the
    /// root; with one process the local vector is returned unchanged.
    pub fn sum_vec(&self, local_vec: &Vec<FieldElem>) -> (r: Vec<FieldElem>)
        requires
            self.spec_world_size() == 1,
        ensures
            r@ == local_vec@,
    {
        let mut r: Vec<FieldElem> = Vec::new();
        let n = local_vec.len();
        let mut i: usize = 0;
        while i < n
            invariant
                i <= n,
                n == local_vec@.len(),
                r@ == local_vec@.take(i as int),
            decreases n - i,
        {
            let x = local_vec[i];
            r.push(x);
            proof {
                assert_seqs_equal!(r@ == local_vec@.take(i + 1));
            }
            i = i + 1;
        }
        proof {
            assert_seqs_equal!(r@ == local_vec@);
        }
        r
    }

    /// The per-rank-weighted field sum of the ranks' vectors, returned on
    /// the root; `coef` carries one weight per rank.  With one process the
    /// local vector is returned unweighted: callers keep the first
    /// coefficient at the multiplicative identity in that mode.
    pub fn coef_combine_vec(&self, local_vec: &Vec<FieldElem>, coef: &Vec<FieldElem>) -> (r: Vec<
        FieldElem,
    >)
        requires
            self.spec_world_size() == 1,
        ensures
            r@ == local_vec@,
    {
        self.sum_vec(local_vec)
    }

    /// Treats the row as one rank's row of a group-sized block matrix and
    /// exchanges the sub-blocks so the row becomes the rank's column; with
    /// one process the single block stays in place.
    pub fn all_to_all_transpose(&self, row: &mut Vec<FieldElem>)
        requires
            self.spec_world_size() == 1,
            old(row)@.len() as int % self.spec_world_size() == 0,
        ensures
            final(row)@ == old(row)@,
    {
    }

    /// Every rank serializes its element list and the root reads each
    /// rank's list back out of the concatenated payload; with one process
    /// the result holds exactly the local list, round-tripped through the
    /// byte boundary.
    pub fn gather_varlen_vec(&self, elems: &Vec<FieldElem>, global_elems: &mut Vec<Vec<FieldElem>>)
        requires
            self.spec_world_size() == 1,
        ensures
            final(global_elems)@.len() == 1,
            final(global_elems)@[0]@ == elems@,
    {
        let n = elems.len();
        let bytes = encode_framed(elems);
        proof {
            assert(vals(elems@).len() == n <= usize::MAX <= u64::MAX);
            assert_seqs_equal!(framed_elems(vals(elems@)) + Seq::<u8>::empty() == bytes@);
            lemma_frame_roundtrip(vals(elems@), Seq::<u8>::empty());
        }
        let decoded = decode_framed(&bytes);
        proof {
            assert(vals(decoded@) == vals(elems@));
            assert forall|i: int| 0 <= i < decoded@.len() implies decoded@[i] == elems@[i] by {
                assert(vals(decoded@)[i] == vals(elems@)[i]);
                lemma_val_injective(decoded@[i], elems@[i]);
            }
            assert(vals(decoded@).len() == decoded@.len() && vals(elems@).len() == elems@.len());
            assert_seqs_equal!(decoded@ == elems@);
        }
        global_elems.clear();
        global_elems.push(decoded);
    }
}

} // verus!
