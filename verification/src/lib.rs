//! An embedded store of JSON documents.
//!
//! A client hands in a request, itself JSON; the engine parses it, runs it against the values
//! that are stored under keys and the rows that are stored in tables, and hands back a JSON
//! value. Every change is written to a log before the memory takes it, and the memory is
//! rebuilt from the logs when the store is opened.
//!
//! The engine touches no file and computes no float. It is handed two functions: a storage
//! driver, which takes the steps on files that the engine asks for ([`disk::Action`]), and an
//! arithmetic unit, which computes the operations on numbers that the engine asks for
//! ([`fpu::Calc`]). The driver comes in a [`disk::Driver`], which records every step that it
//! is asked for: each contract says which steps a function asks for, in their order, and what
//! the function returns of what the driver and the unit answer.
//!
//! - [`value`]: JSON values and rows.
//! - [`bridge`]: what is taken from `serde_json` and `std` on trust.
//! - [`arith`], [`stats`]: operators and aggregates on values.
//! - [`json`], [`eval`]: requests, their parser and their evaluation.
//! - [`replay`], [`log`]: the journal of keys, the logs of tables and the directory of tables.
//! - [`db`], [`query`]: tables, the database and selections from tables.
//! - [`laws`], [`durable`]: what holds of the store over runs of requests, in memory and on
//!   the files.

pub mod arith;
pub mod bridge;
pub mod db;
pub mod disk;
pub mod durable;
pub mod error;
pub mod eval;
pub mod fpu;
pub mod json;
pub mod laws;
pub mod log;
pub mod query;
pub mod replay;
pub mod stats;
pub mod value;
