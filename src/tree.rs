//! A tree stored as an arena of nodes that point to their parents; a branch
//! walks from a node up to the root.
use vstd::prelude::*;

verus! {

pub type NodeIndex = usize;

/// A value and the index of its parent node.
#[derive(Clone, Copy, Debug)]
pub struct Node<T> {
    pub value: T,
    pub parent: Option<NodeIndex>,
}

/// The nodes, by index.
#[derive(Debug)]
pub struct Tree<T> {
    pub nodes: Vec<Node<T>>,
}

/// A walk from a node towards the root: `parent` is the node to visit next,
/// `current` the node visited last.
#[derive(Clone, Copy, Debug)]
pub struct Branch {
    pub parent: Option<NodeIndex>,
    pub current: Option<NodeIndex>,
}

impl Branch {
    /// The node visited last.
    pub fn index(&self) -> (r: Option<NodeIndex>)
        ensures
            r == self.current,
    {
        self.current
    }

    /// The value of the next node up, moving there.
    pub fn next<T: Copy>(&mut self, tree: &Tree<T>) -> (r: Option<T>)
        ensures
            final(self).current == old(self).parent,
            match old(self).parent {
                Some(i) if i < tree.nodes@.len() => r == Some(tree.nodes@[i as int].value)
                    && final(self).parent == tree.nodes@[i as int].parent,
                _ => r.is_none() && final(self).parent == old(self).parent,
            },
    {
        self.current = self.parent;
        match self.parent {
            Some(i) => {
                if i < tree.nodes.len() {
                    let node = tree.nodes[i];
                    self.parent = node.parent;
                    Some(node.value)
                } else {
                    None
                }
            },
            None => None,
        }
    }
}

impl<T: Copy> Tree<T> {
    /// An empty tree.
    pub fn new() -> (r: Tree<T>)
        ensures
            r.nodes@.len() == 0,
    {
        Tree { nodes: Vec::new() }
    }

    /// A walk that starts at `parent`.
    pub fn branch(&self, parent: Option<NodeIndex>) -> (r: Branch)
        ensures
            r.parent == parent,
            r.current.is_none(),
    {
        Branch { parent, current: None }
    }

    /// Adds a node holding `value` below `parent` and returns its index.
    pub fn push(&mut self, parent: Option<NodeIndex>, value: T) -> (r: Option<NodeIndex>)
        ensures
            final(self).nodes@ == old(self).nodes@.push(Node { value, parent }),
            r == Some(old(self).nodes@.len() as NodeIndex),
    {
        let index = self.nodes.len();
        self.nodes.push(Node { value, parent });
        Some(index)
    }

    /// Adds `values` as a chain below `parent`, each below the one before,
    /// and returns the index of the last; `parent` when there are none.
    pub fn extend(&mut self, parent: Option<NodeIndex>, values: &Vec<T>) -> (r: Option<NodeIndex>)
        ensures
            final(self).nodes@.len() == old(self).nodes@.len() + values@.len(),
            forall|k: int|
                0 <= k < old(self).nodes@.len() ==> #[trigger] final(self).nodes@[k] == old(
                    self,
                ).nodes@[k],
            forall|j: int|
                0 <= j < values@.len() ==> #[trigger] final(self).nodes@[old(self).nodes@.len() + j]
                    == (Node {
                    value: values@[j],
                    parent: if j == 0 {
                        parent
                    } else {
                        Some((old(self).nodes@.len() + j - 1) as NodeIndex)
                    },
                }),
            values@.len() == 0 ==> r == parent,
            values@.len() > 0 ==> r == Some((old(self).nodes@.len() + values@.len() - 1) as NodeIndex),
    {
        let ghost n0 = self.nodes@.len();
        let mut last = parent;
        let mut i: usize = 0;
        while i < values.len()
            invariant
                0 <= i <= values@.len(),
                self.nodes@.len() == n0 + i,
                n0 == old(self).nodes@.len(),
                forall|k: int| 0 <= k < n0 ==> #[trigger] self.nodes@[k] == old(self).nodes@[k],
                forall|j: int|
                    0 <= j < i ==> #[trigger] self.nodes@[n0 + j] == (Node {
                        value: values@[j],
                        parent: if j == 0 {
                            parent
                        } else {
                            Some((n0 + j - 1) as NodeIndex)
                        },
                    }),
                i == 0 ==> last == parent,
                i > 0 ==> last == Some((n0 + i - 1) as NodeIndex),
            decreases values@.len() - i,
        {
            last = self.push(last, values[i]);
            i = i + 1;
        }
        last
    }

    /// The index of the node added last.
    pub fn top(&self) -> (r: Option<NodeIndex>)
        ensures
            self.nodes@.len() == 0 ==> r.is_none(),
            self.nodes@.len() > 0 ==> r == Some((self.nodes@.len() - 1) as NodeIndex),
    {
        match self.nodes.len() {
            0 => None,
            n => Some(n - 1),
        }
    }

    /// A tree holding `values` as one chain from the root, the first value at the root.
    pub fn from_vec(values: &Vec<T>) -> (r: Tree<T>)
        ensures
            r.nodes@.len() == values@.len(),
            forall|j: int|
                0 <= j < values@.len() ==> #[trigger] r.nodes@[j] == (Node {
                    value: values@[j],
                    parent: if j == 0 {
                        None
                    } else {
                        Some((j - 1) as NodeIndex)
                    },
                }),
    {
        let mut tree = Tree::new();
        tree.extend(None, values);
        proof {
            assert forall|j: int| 0 <= j < values@.len() implies #[trigger] tree.nodes@[j] == (Node {
                value: values@[j],
                parent: if j == 0 {
                    None
                } else {
                    Some((j - 1) as NodeIndex)
                },
            }) by {
                assert(tree.nodes@[0 + j] == tree.nodes@[j]);
            }
        }
        tree
    }
}

} // verus!
