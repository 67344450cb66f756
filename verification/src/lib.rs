//! Verified core of a holographic store for multi-agent systems: the
//! deterministic generator behind the per-agent projections, the raw draws
//! that fill each projection matrix, the best-match selection rule used by
//! every retrieval, the pairing of stored patterns for interference analysis,
//! and the capacity estimate.

pub mod lcg;
pub mod projection;
pub mod selection;
pub mod layout;
