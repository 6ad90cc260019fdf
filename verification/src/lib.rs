//! Distributed execution core for a degree-2 sumcheck prover.
//!
//! The crate has two halves.  `field`, `mle` and `sum_of_products` give the
//! polynomial algebra: coefficient vectors over a prime field, multilinear
//! evaluation, and the sum-of-products polynomial that a degree-2 sumcheck
//! round reduces.  `codec`, `collective` and `engine` give the
//! collective-communication layer: a checked byte boundary for element
//! buffers, the chunked data-movement algorithms of the group collectives
//! (gather, scatter, broadcast, sum-reduce, weighted combine, all-to-all
//! transpose, variable-length gather), and the per-process communicator
//! state with its single-process fast path.
//!
//! The collective algorithms are verified as whole-group functions: each one
//! takes every rank's buffer and computes what every rank holds after the
//! call, running the same chunk arithmetic a live transport would drive.
//! A per-rank call into a message-passing fabric needs that fabric linked
//! into the process; the communicator here is the fabric-free variant, whose
//! collectives are total exactly on the single-process mode.

pub mod codec;
pub mod collective;
pub mod engine;
pub mod field;
pub mod mle;
pub mod sum_of_products;
