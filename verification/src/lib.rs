//! Verified core of a permissioned validator-set manager for a proof-of-stake
//! chain: per-validator stake allocations with a descending-stake index, a
//! closed-form fault-tolerance check, a session rotation state machine, and
//! slashing of misbehaving validators.
//!
//! The surrounding runtime (the token ledger, the consensus engines, block
//! execution) stays outside; every operation here is a pure function of the
//! explicit [`sets::ValidatorSets`] state plus its inputs.

pub mod bft;
pub mod hashing;
pub mod ledger;
pub mod primitives;
pub mod sets;
