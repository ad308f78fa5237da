//! How edges are drawn.
use vstd::prelude::*;

verus! {

#[derive(Debug, Clone, Copy, PartialEq, Eq, Structural)]
pub enum EdgeStyle {
    /// Right-angle paths following the dummy columns.
    Orthogonal,
    /// Use a direct anchor-to-anchor polyline for each safe edge. Edges whose direct
    /// chain would enter a node use orthogonal channel lanes; safe edges in the same
    /// component remain straight.
    Straight,
}

impl Default for EdgeStyle {
    fn default() -> (style: Self)
        ensures
            style == EdgeStyle::Orthogonal,
    {
        EdgeStyle::Orthogonal
    }
}

} // verus!
