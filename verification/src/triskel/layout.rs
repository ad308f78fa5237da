//! Choices of a layout.
use crate::registry::{same_id, Identifier};
use vstd::prelude::*;

verus! {

#[derive(Debug, Clone, Copy, PartialEq, Eq, Structural)]
pub enum LayoutMode {
    /// Lay out each weak component as one graph.
    Flat,
    /// Recursively lay out canonical regions as sized quotient nodes.
    Sese,
}

impl Default for LayoutMode {
    fn default() -> (mode: Self)
        ensures
            mode == LayoutMode::Flat,
    {
        LayoutMode::Flat
    }
}

#[derive(Debug, Clone, Copy, PartialEq, Eq, Structural)]
pub enum LayoutError {
    EmptyGraph,
}

impl LayoutError {
    /// What the error says.
    pub fn message(&self) -> (text: String)
        ensures
            text@ == "cannot lay out an empty graph"@,
    {
        "cannot lay out an empty graph".to_owned()
    }
}

/// Checks that there is something to lay out.
pub fn check_not_empty(count: usize) -> (result: Result<(), LayoutError>)
    ensures
        result is Err <==> count == 0,
{
    if count == 0 {
        Err(LayoutError::EmptyGraph)
    } else {
        Ok(())
    }
}

/// The root of a component: the preferred one if it is one of its nodes, or else the node
/// with the least index.
pub open spec fn is_root<Id: Identifier>(component: Seq<Id>, preferred: Option<Id>, root: Id) -> bool {
    match preferred {
        Some(p) if component.contains(p) => root == p,
        _ => component.contains(root) && forall|i: int|
            0 <= i < component.len() ==> root.spec_index() <= (#[trigger] component[i]).spec_index(),
    }
}

/// Picks the root of a component.
pub fn pick_root<Id: Identifier>(component: &Vec<Id>, preferred: Option<Id>) -> (root: Id)
    requires
        component@.len() > 0,
    ensures
        is_root(component@, preferred, root),
{
    if let Some(p) = preferred {
        for i in 0..component.len()
            invariant
                preferred == Some(p),
                forall|k: int| 0 <= k < i ==> #[trigger] component@[k] != p,
        {
            if same_id(component[i], p) {
                assert(component@.contains(p));
                return p;
            }
        }
        assert(!component@.contains(p));
    }
    let mut root = component[0];
    for i in 1..component.len()
        invariant
            component@.len() > 0,
            component@.contains(root),
            forall|k: int|
                0 <= k < i ==> root.spec_index() <= (#[trigger] component@[k]).spec_index(),
    {
        if component[i].to_usize() < root.to_usize() {
            root = component[i];
            assert(component@[i as int] == root);
        }
    }
    root
}

} // verus!
