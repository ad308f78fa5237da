//! A flow graph given by lists of successors.
use crate::graph::Cfg;
use vstd::prelude::*;

verus! {

/// The successors of the nodes `0..succ.len()`.
pub struct Adjacency {
    pub succ: Vec<Vec<usize>>,
}

impl Cfg for Adjacency {
    type NodeId = usize;

    open spec fn is_valid(&self) -> bool {
        true
    }

    open spec fn spec_successors(&self, n: usize) -> Seq<usize> {
        if n < self.succ@.len() {
            self.succ@[n as int]@
        } else {
            Seq::empty()
        }
    }

    fn successors(&self, n: usize) -> (targets: Vec<usize>) {
        let mut targets: Vec<usize> = Vec::new();
        if n < self.succ.len() {
            let list = &self.succ[n];
            for i in 0..list.len()
                invariant
                    targets@ == list@.subrange(0, i as int),
            {
                targets.push(list[i]);
                assert(targets@ =~= list@.subrange(0, i + 1));
            }
            assert(targets@ =~= list@);
        }
        targets
    }
}

} // verus!
