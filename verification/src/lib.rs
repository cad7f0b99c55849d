//! An in-memory access-control table: maps a host address to the set of
//! blocked ports on that host, built from loosely formatted address
//! strings, plus a snapshot of a bounded LRU cache into a plain map.

pub mod addr;
pub mod blacklist;
pub mod snapshot;
