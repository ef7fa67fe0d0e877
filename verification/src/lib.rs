//! Verified core of a Solana wallet manager.
//!
//! Wallets are keypair files (`<name>.json`) in one directory. The external
//! `solana` command owns the "active wallet" configuration; this library
//! contains the verified text parsing that recovers the active wallet name
//! from that configuration output, the rules for listing wallet files, and
//! the decisions taken when a wallet is created, renamed or removed. All
//! functions here work on plain character sequences; the thin binary around
//! the library performs the file-system and subprocess work.

pub mod paths;
pub mod text;
pub mod wallet;
