//! A download manager's core: the byte-range scheduler that splits a file
//! among parallel workers, the bookkeeping of each download's parts and
//! progress, and the parsing of what servers and browsers send.
use vstd::prelude::*;

pub mod text;
pub mod outside;
pub mod models;
pub mod scheduler;
pub mod transfer;
pub mod utils;
pub mod downloads;
pub mod probe;

verus! {
} // verus!
