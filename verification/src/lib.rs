//! A payments ledger: an ordered stream of transaction commands (deposit,
//! withdrawal, dispute, resolve, chargeback) is applied to per-client
//! accounts under strict consistency rules, and the final balances are
//! projected into printable rows.
//!
//! - [`ledger`] holds the account state machine, its mathematical model,
//!   and the proofs that every operation respects the account invariants;
//! - [`normalize`] turns raw input rows into typed commands;
//! - [`render`] projects the final accounts into output rows with balances
//!   rendered to exactly four fractional digits;
//! - [`laws`] states and proves the guarantees that hold across commands.
//!
//! Monetary values are fixed-point decimals with four fractional digits,
//! held as a signed count of ten-thousandths. Reading an input stream and
//! writing the output stream are left to the surrounding program.

pub mod laws;
pub mod ledger;
pub mod normalize;
pub mod render;

pub use ledger::Engine;
