use vstd::prelude::*;

pub mod dominator;
pub mod nesting;
pub mod numbering;
pub mod post_dominator;
pub mod semidominator;
pub mod sese;
pub mod sese_laws;
mod tarjan;
