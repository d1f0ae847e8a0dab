use vstd::prelude::*;

pub mod body;
pub mod body_map;
pub mod collider;
pub mod constraints;
pub mod debug;
pub mod element;
pub mod events;
pub mod handles;
pub mod joint;
pub mod math;
pub mod pipeline;
pub mod query;
pub mod recipe;
pub mod scene;
pub mod world;

verus! {

} // verus!
