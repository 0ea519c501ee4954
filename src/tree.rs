use vstd::prelude::*;

verus! {

/// A tree node: a label, an optional payload, and a handle to the list of its
/// children. Handles index the lists of a `Pool`; two nodes holding the same
/// handle share one list.
#[derive(Debug, Clone)]
pub struct Node {
    pub label: Vec<u8>,
    pub payload: Option<Vec<u8>>,
    pub children: usize,
}

/// The allocations that nodes share: each list of children is stored once and
/// named by its index. A list only refers to lists added before it, which keeps
/// every value acyclic.
#[derive(Debug, Clone)]
pub struct Pool {
    pub lists: Vec<Vec<Node>>,
}

impl Pool {
    /// Every node's handle names a list added before the list that holds it.
    pub open spec fn wf(&self) -> bool {
        forall|h: int, j: int|
            0 <= h < self.lists@.len() && 0 <= j < self.lists@[h]@.len()
                ==> (#[trigger] self.lists@[h]@[j]).children < h
    }

    pub fn new() -> (r: Pool)
        ensures
            r.lists@.len() == 0,
            r.wf(),
    {
        Pool { lists: Vec::new() }
    }

    /// Adds a list of nodes whose handles all name existing lists, and returns
    /// the handle of the new list.
    pub fn add_list(&mut self, nodes: Vec<Node>) -> (h: usize)
        requires
            old(self).wf(),
            forall|j: int| 0 <= j < nodes@.len() ==> (#[trigger] nodes@[j]).children < old(self).lists@.len(),
        ensures
            h == old(self).lists@.len(),
            final(self).lists@ == old(self).lists@.push(nodes),
            final(self).wf(),
    {
        let h = self.lists.len();
        self.lists.push(nodes);
        h
    }

    /// Number of lists.
    pub fn len(&self) -> (r: usize)
        ensures
            r == self.lists@.len(),
    {
        self.lists.len()
    }
}

} // verus!
