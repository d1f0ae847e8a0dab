//! Scene elements are kept in an id-indexed store.
use vstd::prelude::*;

pub mod store;

verus! {

/// Identifier of a scene element.
pub type ID = u32;

} // verus!
