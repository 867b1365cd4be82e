use vstd::prelude::*;

verus! {

/// One node of a plain index-linked tree: its data and its structural links.
/// Nodes refer to each other by index into the owning [`Tree`], never by
/// reference, so the structure has a single owner and no ownership cycles.
pub struct ArenaNode<T> {
    pub data: T,
    pub parent: Option<usize>,
    pub children: Vec<usize>,
}

/// The mathematical value of an [`ArenaNode`].
pub ghost struct TreeNodeView<T> {
    pub data: T,
    pub parent: Option<int>,
    pub children: Seq<int>,
}

impl<T> View for ArenaNode<T> {
    type V = TreeNodeView<T>;

    open spec fn view(&self) -> TreeNodeView<T> {
        TreeNodeView {
            data: self.data,
            parent: match self.parent {
                Some(p) => Some(p as int),
                None => None,
            },
            children: self.children@.map_values(|u: usize| u as int),
        }
    }
}

/// A simple tree that only grows: all nodes live in one vector, in creation
/// order, and link to each other by index. It hands out plain indices; the
/// filesystem tree proper is built on the generational [`crate::arena::Arena`]
/// instead, whose handles survive removal safely.
pub struct Tree<T> {
    nodes: Vec<ArenaNode<T>>,
}

impl<T> View for Tree<T> {
    type V = Seq<TreeNodeView<T>>;

    /// The nodes, in creation order.
    closed spec fn view(&self) -> Seq<TreeNodeView<T>> {
        self.nodes@.map_values(|n: ArenaNode<T>| n@)
    }
}

/// `n` with the child index `c` appended.
pub open spec fn tree_with_child<T>(n: TreeNodeView<T>, c: int) -> TreeNodeView<T> {
    TreeNodeView { data: n.data, parent: n.parent, children: n.children.push(c) }
}

/// The view of a freshly inserted node.
pub open spec fn tree_node_for<T>(data: T, parent: Option<int>) -> TreeNodeView<T> {
    TreeNodeView { data, parent, children: Seq::empty() }
}

impl<T> Tree<T> {
    /// Structural soundness: every link lands on an existing node, a parent
    /// sits before its child in creation order, and children sit after.
    pub open spec fn wf(self) -> bool {
        forall|i: int|
            0 <= i < self@.len() ==> {
                &&& (#[trigger] self@[i].parent matches Some(p) ==> 0 <= p < i)
                &&& (forall|k: int|
                    0 <= k < self@[i].children.len() ==> i < #[trigger] self@[i].children[k]
                        < self@.len())
            }
    }

    /// Creates an empty tree.
    pub fn new() -> (r: Tree<T>)
        ensures
            r@ == Seq::<TreeNodeView<T>>::empty(),
            r.wf(),
    {
        let r = Tree { nodes: Vec::new() };
        proof {
            assert(r@ =~= Seq::<TreeNodeView<T>>::empty());
        }
        r
    }

    /// How many nodes the tree holds.
    pub fn len(&self) -> (r: usize)
        ensures
            r as int == self@.len(),
    {
        self.nodes.len()
    }

    /// Inserts a new node under `parent_id` (or as a root when `None`) and
    /// returns its index: the node is appended, childless, and linked from
    /// its parent.
    pub fn insert(&mut self, data: T, parent_id: Option<usize>) -> (id: usize)
        requires
            old(self).wf(),
            (parent_id matches Some(p) ==> (p as int) < old(self)@.len()),
        ensures
            final(self).wf(),
            id as int == old(self)@.len(),
            final(self)@ == (match parent_id {
                Some(p) => old(self)@.update(
                    p as int,
                    tree_with_child(old(self)@[p as int], id as int),
                ).push(tree_node_for(data, Some(p as int))),
                None => old(self)@.push(tree_node_for(data, None)),
            }),
    {
        let id = self.nodes.len();
        let children: Vec<usize> = Vec::new();
        proof {
            assert(children@.map_values(|u: usize| u as int) =~= Seq::<int>::empty());
        }
        let node = ArenaNode { data, parent: parent_id, children };
        self.nodes.push(node);
        match parent_id {
            Some(p) => {
                let ghost before = self@;
                let mut parent_node = self.nodes.remove(p);
                parent_node.children.push(id);
                let ghost pushed = parent_node@;
                self.nodes.insert(p, parent_node);
                proof {
                    assert(pushed.children =~= before[p as int].children.push(id as int));
                    assert(self@ =~= old(self)@.update(
                        p as int,
                        tree_with_child(old(self)@[p as int], id as int),
                    ).push(tree_node_for(data, Some(p as int))));
                }
            },
            None => {
                proof {
                    assert(self@ =~= old(self)@.push(tree_node_for(data, None)));
                }
            },
        }
        id
    }

    /// Looks a node up by index.
    pub fn get(&self, id: usize) -> (r: Option<&ArenaNode<T>>)
        ensures
            (match r {
                Some(n) => (id as int) < self@.len() && n@ == self@[id as int],
                None => (id as int) >= self@.len(),
            }),
    {
        if id < self.nodes.len() {
            Some(&self.nodes[id])
        } else {
            None
        }
    }

    /// Updates the data of the node at `id` in place, by swapping it with
    /// `*data`; returns whether the index named a node. (Verus cannot hand a
    /// `&mut` borrow of a node back to the caller, so the update is a swap.)
    pub fn get_mut(&mut self, id: usize, data: &mut T) -> (r: bool)
        ensures
            r == ((id as int) < old(self)@.len()),
            r ==> final(self)@ == old(self)@.update(
                id as int,
                (TreeNodeView {
                    data: *old(data),
                    parent: old(self)@[id as int].parent,
                    children: old(self)@[id as int].children,
                }),
            ) && *final(data) == old(self)@[id as int].data,
            !r ==> final(self)@ == old(self)@ && *final(data) == *old(data),
            final(self).wf() == old(self).wf(),
    {
        if id >= self.nodes.len() {
            return false;
        }
        let mut node = self.nodes.remove(id);
        core::mem::swap(&mut node.data, data);
        self.nodes.insert(id, node);
        proof {
            assert(self@ =~= old(self)@.update(
                id as int,
                (TreeNodeView {
                    data: *old(data),
                    parent: old(self)@[id as int].parent,
                    children: old(self)@[id as int].children,
                }),
            ));
            assert forall|i: int| 0 <= i < self@.len() implies #[trigger] self@[i].parent == old(
                self,
            )@[i].parent && self@[i].children == old(self)@[i].children by {}
            if old(self).wf() {
                assert(self.wf());
            }
            if self.wf() {
                assert forall|i: int| 0 <= i < old(self)@.len() implies {
                    &&& (#[trigger] old(self)@[i].parent matches Some(p) ==> 0 <= p < i)
                    &&& (forall|k: int|
                        0 <= k < old(self)@[i].children.len() ==> i < #[trigger] old(
                            self,
                        )@[i].children[k] < old(self)@.len())
                } by {
                    assert(self@[i].parent == old(self)@[i].parent);
                    assert(self@[i].children == old(self)@[i].children);
                }
            }
        }
        true
    }
}

} // verus!
