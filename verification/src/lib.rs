//! A small personal-finance library: dated, categorised monetary
//! transactions held in an in-memory store, with filtering, aggregation,
//! and a JSON document codec for whole-collection persistence.
//!
//! Amounts are fixed-point: an integer number of cents, positive for
//! income and negative for expense.

pub mod codec;
pub mod date;
pub mod handlers;
pub mod ident;
pub mod num;
pub mod text;
pub mod store;
pub mod tx;
