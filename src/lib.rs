use vstd::prelude::*;

pub mod animation;
pub mod buffers;
pub mod graph;
pub mod object;
pub mod render;

verus! {

} // verus!
