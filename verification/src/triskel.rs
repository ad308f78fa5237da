//! Layered layout of directed graphs: the parts that work on structure alone.
use vstd::prelude::*;

pub mod alignment;
pub mod alignment_laws;
pub mod cells;
pub mod cells_laws;
pub mod chains;
pub mod channel;
pub mod component;
pub mod component_laws;
pub mod crossing;
pub mod crossing_laws;
pub mod cycle;
pub mod cycle_laws;
pub mod dot;
pub mod dot_laws;
pub mod edge_laws;
pub mod energy;
pub mod hammock;
pub mod hammock_search;
pub mod hammock_tags;
pub mod lanes;
pub mod lanes_laws;
pub mod layout;
pub mod layout_graph;
pub mod order;
pub mod order_laws;
pub mod quotient;
pub mod quotient_laws;
pub mod rank;
pub mod raster;
pub mod region_laws;
pub mod region_tree;
pub mod render;
pub mod router;
pub mod segment;
pub mod simplex;
pub mod sweep;
pub mod sweep_laws;
pub mod tree_index;
pub mod way_laws;
