//! A single-table key-value store kept in a paged file: rows keyed by id in a B+tree whose
//! nodes are fixed-size pages, read through a page cache and written back on close.

use vstd::prelude::*;

pub mod btree;
pub mod shape;
pub mod layout;
pub mod node;
pub mod pager;
pub mod repl;
pub mod serialization;
pub mod storage;
pub mod table;
pub mod vm;

verus! {

} // verus!
