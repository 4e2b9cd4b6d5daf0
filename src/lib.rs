//! A compressed NFT ledger: items are committed to by a Merkle root, and
//! every ownership change is checked against that root with a sibling path.

pub mod hashing;
pub mod leaf;
pub mod merkle;
pub mod contract;
