//! A hierarchical, branch-and-version-aware document store.
//!
//! Pages form a tree; every page and text blob is stored immutably under a
//! content-derived address, branches are append-only sequences of version
//! addresses, and every mutation is a copy-on-write commit that rewrites only
//! the path from the root to the changed node.

pub mod assoc;
pub mod branch;
pub mod content;
pub mod controller;
pub mod dict;
pub mod hash;
pub mod location;
pub mod page;
pub mod shorthand;
pub mod store;
pub mod errors;
pub mod text;

use vstd::prelude::*;

verus! {

} // verus!
