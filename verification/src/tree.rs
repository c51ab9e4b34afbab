//! A generic tree arena: nodes carry a payload, an optional parent and child
//! links, all addressed by dense integer ids instead of shared pointers, so
//! node identity is simply the id. The arena stores the node columns in
//! parallel vectors; [`Node`] is the row view of one entry.

use std::collections::VecDeque;

use vstd::prelude::*;

verus! {

/// One tree node: an optional parent id, child ids, and a payload.
#[derive(Debug)]
pub struct Node<T> {
    pub parent: Option<usize>,
    pub children: Vec<usize>,
    pub data: T,
}

/// The arena that owns all nodes, column-wise.
pub struct Tree<T> {
    pub parent: Vec<Option<usize>>,
    pub children: Vec<Vec<usize>>,
    pub data: Vec<T>,
}

impl<T> Tree<T> {
    pub open spec fn spec_len(self) -> int {
        self.data@.len() as int
    }

    /// The parent id of node `i`.
    pub open spec fn par_of(self, i: int) -> Option<usize> {
        self.parent@[i]
    }

    /// The child ids of node `i`.
    pub open spec fn kids_of(self, i: int) -> Seq<usize> {
        self.children@[i]@
    }

    /// The payload of node `i`.
    pub open spec fn data_of(self, i: int) -> T {
        self.data@[i]
    }

    /// Arena well-formedness: parallel columns of one length, every parent
    /// preceding its children (which keeps the link structure acyclic),
    /// child lists free of repetition and consistent with the parent links.
    pub open spec fn wf(self) -> bool {
        let n = self.spec_len();
        &&& self.parent@.len() == n
        &&& self.children@.len() == n
        &&& n <= usize::MAX
        &&& forall|i: int|
            0 <= i < n ==> (#[trigger] self.par_of(i) matches Some(p) ==> (p as int) < i)
        &&& forall|i: int, k: int|
            0 <= i < n && 0 <= k < self.kids_of(i).len() ==> {
                &&& ((#[trigger] self.kids_of(i)[k]) as int) < n
                &&& self.par_of(self.kids_of(i)[k] as int) == Some(i as usize)
            }
        &&& forall|i: int| 0 <= i < n ==> (#[trigger] self.kids_of(i)).no_duplicates()
    }

    /// An empty arena.
    pub fn new() -> (r: Tree<T>)
        ensures
            r.wf(),
            r.spec_len() == 0,
    {
        Tree { parent: Vec::new(), children: Vec::new(), data: Vec::new() }
    }
}

impl<T> Node<T> {
    /// A detached node: no parent, no children.
    pub fn new(data: T) -> (r: Node<T>)
        ensures
            r.parent is None,
            r.children@.len() == 0,
            r.data == data,
    {
        Node { parent: None, children: Vec::new(), data }
    }

    /// Append a fresh, detached node to the arena and return its id.
    pub fn new_wrapped(tree: &mut Tree<T>, data: T) -> (id: usize)
        requires
            old(tree).wf(),
            old(tree).spec_len() < usize::MAX,
        ensures
            final(tree).wf(),
            id as int == old(tree).spec_len(),
            final(tree).spec_len() == old(tree).spec_len() + 1,
            final(tree).par_of(id as int) is None,
            final(tree).kids_of(id as int).len() == 0,
            final(tree).data_of(id as int) == data,
            forall|i: int| 0 <= i < old(tree).spec_len() ==> {
                &&& #[trigger] final(tree).par_of(i) == old(tree).par_of(i)
                &&& final(tree).kids_of(i) == old(tree).kids_of(i)
                &&& final(tree).data_of(i) == old(tree).data_of(i)
            },
    {
        let ghost pre = *tree;
        let id = tree.data.len();
        tree.parent.push(None);
        tree.children.push(Vec::new());
        tree.data.push(data);
        proof {
            let post = *tree;
            let n = post.spec_len();
            assert forall|i: int|
                0 <= i < n implies (#[trigger] post.par_of(i) matches Some(p) ==> (p as int)
                < i) by {
                if i < pre.spec_len() {
                    assert(post.par_of(i) == pre.par_of(i));
                }
            }
            assert forall|i: int, k: int|
                0 <= i < n && 0 <= k < post.kids_of(i).len() implies {
                &&& ((#[trigger] post.kids_of(i)[k]) as int) < n
                &&& post.par_of(post.kids_of(i)[k] as int) == Some(i as usize)
            } by {
                assert(i < pre.spec_len());
                assert(post.kids_of(i) == pre.kids_of(i));
                assert(pre.par_of(pre.kids_of(i)[k] as int) == Some(i as usize));
            }
            assert forall|i: int|
                0 <= i < n implies (#[trigger] post.kids_of(i)).no_duplicates() by {
                if i < pre.spec_len() {
                    assert(post.kids_of(i) == pre.kids_of(i));
                }
            }
        }
        id
    }

    /// Link a still-detached node under an earlier-created parent: the
    /// child's parent link is set and the child id joins the end of the
    /// parent's child list. Linking only younger nodes under older ones
    /// keeps the tree free of cycles.
    pub fn add_child_to_parent(tree: &mut Tree<T>, child: usize, parent: usize)
        requires
            old(tree).wf(),
            (child as int) < old(tree).spec_len(),
            parent < child,
            old(tree).par_of(child as int) is None,
        ensures
            final(tree).wf(),
            final(tree).spec_len() == old(tree).spec_len(),
            final(tree).par_of(child as int) == Some(parent),
            final(tree).kids_of(parent as int) == old(tree).kids_of(parent as int).push(child),
            forall|i: int|
                0 <= i < old(tree).spec_len() && i != child ==> #[trigger] final(tree).par_of(i)
                    == old(tree).par_of(i),
            forall|i: int|
                0 <= i < old(tree).spec_len() && i != parent ==> #[trigger] final(tree).kids_of(i)
                    == old(tree).kids_of(i),
            forall|i: int|
                0 <= i < old(tree).spec_len() ==> #[trigger] final(tree).data_of(i) == old(
                    tree,
                ).data_of(i),
    {
        let ghost pre = *tree;
        // Set the parent of the child.
        tree.parent.set(child, Some(parent));
        // Add the child to the parent's list.
        let mut kids = copy_id_vec(&tree.children[parent]);
        kids.push(child);
        tree.children.set(parent, kids);
        proof {
            let post = *tree;
            assert forall|i: int|
                0 <= i < post.spec_len() implies (#[trigger] post.par_of(i) matches Some(p) ==> (
                p as int) < i) by {
                if i != child as int {
                    assert(post.par_of(i) == pre.par_of(i));
                }
            }
            assert forall|i: int, k: int|
                0 <= i < post.spec_len() && 0 <= k < post.kids_of(i).len() implies {
                &&& ((#[trigger] post.kids_of(i)[k]) as int) < post.spec_len()
                &&& post.par_of(post.kids_of(i)[k] as int) == Some(i as usize)
            } by {
                if i == parent as int && k == pre.kids_of(i).len() {
                } else {
                    assert(post.kids_of(i)[k] == pre.kids_of(i)[k]);
                    assert(pre.par_of(pre.kids_of(i)[k] as int) == Some(i as usize));
                    assert(pre.kids_of(i)[k] != child);
                }
            }
            assert forall|i: int|
                0 <= i < post.spec_len() implies (#[trigger] post.kids_of(i)).no_duplicates() by {
                if i == parent as int {
                    assert forall|k1: int, k2: int|
                        0 <= k1 < k2 < post.kids_of(i).len() implies post.kids_of(i)[k1]
                        != post.kids_of(i)[k2] by {
                        if k2 == pre.kids_of(i).len() {
                            assert(pre.par_of(pre.kids_of(i)[k1] as int) == Some(i as usize));
                        }
                    }
                }
            }
        }
    }

    /// The parent id of a node.
    pub fn parent(tree: &Tree<T>, node: usize) -> (r: Option<usize>)
        requires
            tree.wf(),
            (node as int) < tree.spec_len(),
        ensures
            r == tree.par_of(node as int),
    {
        tree.parent[node]
    }

    /// The child ids of a node.
    pub fn children(tree: &Tree<T>, node: usize) -> (r: Vec<usize>)
        requires
            tree.wf(),
            (node as int) < tree.spec_len(),
        ensures
            r@ == tree.kids_of(node as int),
    {
        copy_id_vec(&tree.children[node])
    }
}

/// A verified copy of an id vector.
fn copy_id_vec(v: &Vec<usize>) -> (r: Vec<usize>)
    ensures
        r@ == v@,
{
    let len = v.len();
    let mut r: Vec<usize> = Vec::new();
    let mut i: usize = 0;
    while i < len
        invariant
            i <= len,
            v@.len() == len,
            r@.len() == i,
            forall|j: int| 0 <= j < i ==> #[trigger] r@[j] == v@[j],
        decreases len - i,
    {
        r.push(v[i]);
        i = i + 1;
    }
    proof {
        assert(r@ =~= v@);
    }
    r
}

/// Breadth-first traversal over the arena, starting from one node.
pub struct TreeIterator<'a, T> {
    pub tree: &'a Tree<T>,
    pub buffer: VecDeque<usize>,
}

/// A breadth-first iterator rooted at `start_node`.
pub fn new_tree_iter<'a, T>(tree: &'a Tree<T>, start_node: usize) -> (r: TreeIterator<'a, T>)
    requires
        tree.wf(),
        (start_node as int) < tree.spec_len(),
    ensures
        r.wf(),
        r.tree == tree,
        r.buffer@ == seq![start_node],
{
    let mut buffer: VecDeque<usize> = VecDeque::new();
    buffer.push_back(start_node);
    proof {
        assert(buffer@ =~= seq![start_node]);
    }
    TreeIterator { tree, buffer }
}

impl<'a, T> TreeIterator<'a, T> {
    /// Every queued id points into the arena.
    pub open spec fn wf(self) -> bool {
        &&& self.tree.wf()
        &&& forall|q: int|
            0 <= q < self.buffer@.len() ==> ((#[trigger] self.buffer@[q]) as int)
                < self.tree.spec_len()
    }

    /// The next node id in breadth-first order: the queue's front leaves and
    /// its children join at the back.
    pub fn next(&mut self) -> (r: Option<usize>)
        requires
            old(self).wf(),
        ensures
            final(self).wf(),
            final(self).tree == old(self).tree,
            old(self).buffer@.len() == 0 ==> r is None && final(self).buffer@ == old(
                self,
            ).buffer@,
            old(self).buffer@.len() > 0 ==> {
                &&& r == Some(old(self).buffer@[0])
                &&& final(self).buffer@ == old(self).buffer@.drop_first() + old(
                    self,
                ).tree.kids_of(old(self).buffer@[0] as int)
            },
    {
        match self.buffer.pop_front() {
            Some(node) => {
                let klen = self.tree.children[node].len();
                let mut k: usize = 0;
                while k < klen
                    invariant
                        old(self).wf(),
                        self.tree == old(self).tree,
                        node == old(self).buffer@[0],
                        (node as int) < self.tree.spec_len(),
                        0 < old(self).buffer@.len(),
                        klen == self.tree.kids_of(node as int).len(),
                        k <= klen,
                        self.buffer@ == old(self).buffer@.drop_first() + self.tree.kids_of(
                            node as int,
                        ).take(k as int),
                    decreases klen - k,
                {
                    let c = self.tree.children[node][k];
                    self.buffer.push_back(c);
                    proof {
                        assert(self.buffer@ =~= old(self).buffer@.drop_first() + self.tree.kids_of(
                            node as int,
                        ).take(k as int + 1));
                    }
                    k = k + 1;
                }
                proof {
                    assert(self.tree.kids_of(node as int).take(klen as int) =~= self.tree.kids_of(
                        node as int,
                    ));
                }
                Some(node)
            },
            None => None,
        }
    }
}

/// A node id together with its depth relative to the traversal root.
#[derive(Clone, Copy, Debug, PartialEq, Eq, Structural)]
pub struct NodeDepth {
    pub node: usize,
    pub depth: i32,
}

/// Depth-limited breadth-first traversal over the arena.
pub struct TreeDepthIterator<'a, T> {
    pub tree: &'a Tree<T>,
    pub buffer: VecDeque<NodeDepth>,
    pub max_depth: i32,
}

/// A depth-limited breadth-first iterator rooted at `start_node`.
pub fn new_tree_depth_iter<'a, T>(tree: &'a Tree<T>, start_node: usize, max_depth: i32) -> (r:
    TreeDepthIterator<'a, T>)
    requires
        tree.wf(),
        (start_node as int) < tree.spec_len(),
        0 <= max_depth,
    ensures
        r.wf(),
        r.tree == tree,
        r.max_depth == max_depth,
        r.buffer@ == seq![NodeDepth { node: start_node, depth: 0 }],
{
    let mut init_buffer: VecDeque<NodeDepth> = VecDeque::new();
    init_buffer.push_back(NodeDepth { node: start_node, depth: 0 });
    proof {
        assert(init_buffer@ =~= seq![NodeDepth { node: start_node, depth: 0 }]);
    }
    TreeDepthIterator { tree, buffer: init_buffer, max_depth }
}

impl<'a, T> TreeDepthIterator<'a, T> {
    /// Every queued entry points into the arena and lies within the depth
    /// limit.
    pub open spec fn wf(self) -> bool {
        &&& self.tree.wf()
        &&& forall|q: int|
            0 <= q < self.buffer@.len() ==> {
                &&& ((#[trigger] self.buffer@[q]).node as int) < self.tree.spec_len()
                &&& self.buffer@[q].depth <= self.max_depth
            }
    }

    /// Queue one more entry, ignoring entries beyond the depth limit.
    pub fn append(&mut self, new_node_info: NodeDepth)
        requires
            old(self).wf(),
            (new_node_info.node as int) < old(self).tree.spec_len(),
        ensures
            final(self).wf(),
            final(self).tree == old(self).tree,
            final(self).max_depth == old(self).max_depth,
            new_node_info.depth <= old(self).max_depth ==> final(self).buffer@ == old(
                self,
            ).buffer@.push(new_node_info),
            new_node_info.depth > old(self).max_depth ==> final(self).buffer@ == old(
                self,
            ).buffer@,
    {
        if new_node_info.depth <= self.max_depth {
            self.buffer.push_back(new_node_info);
        }
    }

    /// A depth iterator resuming from an explicit queue, as left behind by
    /// an earlier traversal.
    pub fn from_vecdeque(tree: &'a Tree<T>, vec_deque: VecDeque<NodeDepth>, max_depth: i32) -> (r:
        TreeDepthIterator<'a, T>)
        requires
            tree.wf(),
            forall|q: int|
                0 <= q < vec_deque@.len() ==> {
                    &&& ((#[trigger] vec_deque@[q]).node as int) < tree.spec_len()
                    &&& vec_deque@[q].depth <= max_depth
                },
        ensures
            r.wf(),
            r.tree == tree,
            r.max_depth == max_depth,
            r.buffer@ == vec_deque@,
    {
        TreeDepthIterator { tree, buffer: vec_deque, max_depth }
    }

    /// The next node and its depth in breadth-first order; children join the
    /// queue only below the depth limit, so the traversal never descends
    /// past it.
    pub fn next(&mut self) -> (r: Option<NodeDepth>)
        requires
            old(self).wf(),
        ensures
            final(self).wf(),
            final(self).tree == old(self).tree,
            final(self).max_depth == old(self).max_depth,
            old(self).buffer@.len() == 0 ==> r is None && final(self).buffer@ == old(
                self,
            ).buffer@,
            old(self).buffer@.len() > 0 ==> {
                &&& r == Some(old(self).buffer@[0])
                &&& (old(self).buffer@[0].depth < old(self).max_depth ==> final(self).buffer@
                    == old(self).buffer@.drop_first() + old(self).tree.kids_of(
                    old(self).buffer@[0].node as int,
                ).map_values(
                    |c: usize| NodeDepth { node: c, depth: (old(self).buffer@[0].depth + 1) as i32 },
                ))
                &&& (old(self).buffer@[0].depth >= old(self).max_depth ==> final(self).buffer@
                    == old(self).buffer@.drop_first())
            },
    {
        match self.buffer.pop_front() {
            Some(node_info) => {
                if node_info.depth < self.max_depth {
                    let ghost base = self.buffer@;
                    let ghost kd = self.tree.kids_of(node_info.node as int).map_values(
                        |c: usize| NodeDepth { node: c, depth: (node_info.depth + 1) as i32 },
                    );
                    let klen = self.tree.children[node_info.node].len();
                    let mut k: usize = 0;
                    while k < klen
                        invariant
                            old(self).wf(),
                            self.tree == old(self).tree,
                            self.max_depth == old(self).max_depth,
                            node_info == old(self).buffer@[0],
                            0 < old(self).buffer@.len(),
                            (node_info.node as int) < self.tree.spec_len(),
                            node_info.depth < self.max_depth,
                            klen == self.tree.kids_of(node_info.node as int).len(),
                            kd == self.tree.kids_of(node_info.node as int).map_values(
                                |c: usize| NodeDepth {
                                    node: c,
                                    depth: (node_info.depth + 1) as i32,
                                },
                            ),
                            k <= klen,
                            self.buffer@ == old(self).buffer@.drop_first() + kd.take(k as int),
                        decreases klen - k,
                    {
                        let c = self.tree.children[node_info.node][k];
                        self.buffer.push_back(NodeDepth { node: c, depth: node_info.depth + 1 });
                        proof {
                            assert(kd[k as int] == (NodeDepth {
                                node: self.tree.kids_of(node_info.node as int)[k as int],
                                depth: (node_info.depth + 1) as i32,
                            }));
                            assert(self.buffer@ =~= old(self).buffer@.drop_first() + kd.take(
                                k as int + 1,
                            ));
                        }
                        k = k + 1;
                    }
                    proof {
                        assert(kd.take(klen as int) =~= kd);
                        assert forall|q: int|
                            0 <= q < self.buffer@.len() implies {
                            &&& ((#[trigger] self.buffer@[q]).node as int) < self.tree.spec_len()
                            &&& self.buffer@[q].depth <= self.max_depth
                        } by {
                            if q >= old(self).buffer@.len() - 1 {
                                let kk = q - (old(self).buffer@.len() - 1);
                                assert(self.buffer@[q] == kd[kk]);
                            }
                        }
                    }
                    Some(node_info)
                } else {
                    Some(node_info)
                }
            },
            None => None,
        }
    }
}

} // verus!
