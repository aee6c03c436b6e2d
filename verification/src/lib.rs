use vstd::prelude::*;

pub mod int3;
pub mod ndgrid;
pub mod layout;
pub mod search;
pub mod sampling;
pub mod render;
