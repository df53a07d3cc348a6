//! Core logic of a sharded, stake-based payment chain: a keyed bloom filter over
//! spent tags, polynomial-encoded ring membership, transaction records, and the
//! validator-committee bookkeeping.

pub mod codec;
pub mod keyed_hash;
pub mod bloom;
pub mod poly;
pub mod polyalg;
pub mod sha;
pub mod sorting;
pub mod ringmaker;

pub mod curve;
pub mod transaction;
pub mod validation;
pub mod pswrd;
pub mod modular;
mod interpolation;
pub mod staking;
pub mod blockcheck;
pub mod stake_table;
pub mod merge;
pub mod assemble;
pub mod leadership;
pub mod node;
pub mod messages;
pub mod wallet;
