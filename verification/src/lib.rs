//! Borrow Checker: a verified core for a group expense-splitting application.
//!
//! A group of people shares ledgers of transactions; each transaction has a
//! payer and an exact rational split of its cost among participants. This
//! crate holds the domain model, the persisted record format, validation,
//! and the balance and settlement engine, all with machine-checked contracts.

pub mod rat;
pub mod text;
pub mod ids;
pub mod datetime;
pub mod domain;
pub mod balance;
pub mod errors;
pub mod validate;
pub mod codec;
pub mod repo;
pub mod components;
pub mod session;
pub mod traits;
