//! Aggregation and ranking of flight delays over an in-memory record set.
//!
//! The crate groups flight records by carrier or by airport, reduces each
//! group to a count, a total and a maximum of a delay, and selects the group
//! with the highest average delay. Every function carries a contract over a
//! mathematical model of the records, and the contracts are machine-checked.

pub mod command;
pub mod record;
pub mod report;
pub mod route;
pub mod ranking;
pub mod summary;
pub mod text;
