//! A broadcast relay for many connections: each reader task turns socket
//! reads into events, and a single relay owns the table of live write halves
//! and decides, one event at a time, what is stored, closed, and written where.

use vstd::prelude::*;

pub mod broadcast;
pub mod peer;
pub mod reader;
pub mod relay;
pub mod table;

verus! {

} // verus!
