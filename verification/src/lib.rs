//! A fixed-memory sketch for estimating the number of distinct items in a
//! stream. The sketch keeps `2^P` one-byte registers; every added item is
//! hashed to a register index and a rank, and each register remembers the
//! largest rank routed to it. The register state is enough to recover an
//! approximate distinct count.

pub mod hll;

pub use crate::hll::HyperLogLog;
