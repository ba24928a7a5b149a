//! The core of a scanner that finds, among candidate addresses, those that
//! serve a target host's content: the store of candidates, the probe of
//! one candidate, and the pool that works through them batch by batch.

pub mod cli;
pub mod dbs;
pub mod hash;
pub mod input;
pub mod pool;
pub mod protocol;
pub mod scan;
pub mod store_laws;
pub mod tables;
pub mod text;
