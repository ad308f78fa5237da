use vstd::prelude::*;

pub mod counting;
pub mod derive;
pub mod fx;
pub mod graph;
pub mod indexing;
pub mod intern;
pub mod num_ref;
pub mod options;
pub mod recycling_arena;
pub mod registry;
pub mod sorting;
pub mod stable_arena;
pub mod text;
pub mod triskel;
