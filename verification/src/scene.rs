//! The slice of the scene graph that replication touches: an arena of
//! nodes addressed by index, each with an optional parent, a child list,
//! a transform, an optional drawable handle, and the network id of the
//! object it mirrors. Parent and child references always agree, and a
//! child appears in its parent's list exactly once.
//!
//! Drawables themselves (meshes, materials, draw calls) live outside; the
//! graph records only which named drawable handle a node uses.

use vstd::prelude::*;
use crate::message::Transform;
use crate::smap::StrMap;

verus! {

/// One node of the arena.
pub struct NodeData {
    pub network_id: String,
    pub parent: Option<usize>,
    pub children: Vec<usize>,
    pub transform: Transform,
    pub drawable: Option<usize>,
    pub disposed: bool,
}

/// The node arena, with the root node at index zero, and the table of
/// named drawable handles.
pub struct SceneGraph {
    nodes: Vec<NodeData>,
    drawables: StrMap<usize>,
}

/// The word pattern of the identity transform: ones down the diagonal, as
/// float bit patterns.
pub open spec fn identity_bits() -> Seq<u32> {
    Seq::new(16, |i: int| if i == 0 || i == 5 || i == 10 || i == 15 { 0x3f80_0000u32 } else { 0u32 })
}

/// The identity transform.
pub fn identity_transform() -> (t: Transform)
    ensures
        t@ == identity_bits(),
{
    let mut bits: [u32; 16] = [0; 16];
    bits[0] = 0x3f80_0000;
    bits[5] = 0x3f80_0000;
    bits[10] = 0x3f80_0000;
    bits[15] = 0x3f80_0000;
    let t = Transform { bits };
    proof {
        assert(t@ =~= identity_bits());
    }
    t
}

impl SceneGraph {
    pub closed spec fn node_count(&self) -> nat {
        self.nodes@.len()
    }

    /// The node at index `i`.
    pub closed spec fn node(&self, i: int) -> NodeData {
        self.nodes@[i]
    }

    /// The children of node `i`, as a set.
    pub open spec fn child_set(&self, i: int) -> Set<usize> {
        self.node(i).children@.to_set()
    }

    /// The table of named drawable handles.
    pub closed spec fn drawable_map(&self) -> Map<Seq<char>, usize> {
        self.drawables@
    }

    /// The root exists, the drawable table is well formed, parent and
    /// child references agree, and no child list repeats an entry.
    pub closed spec fn wf(&self) -> bool {
        &&& self.nodes@.len() >= 1
        &&& self.drawables.wf()
        &&& forall|i: int| 0 <= i < self.nodes@.len() && (#[trigger] self.nodes@[i]).parent is Some
            ==> self.nodes@[i].parent->0 < self.nodes@.len()
                && self.nodes@[i].parent->0 != i
                && self.nodes@[self.nodes@[i].parent->0 as int].children@.contains(i as usize)
        &&& forall|i: int, j: int| 0 <= i < self.nodes@.len()
            && 0 <= j < self.nodes@[i].children@.len()
            ==> (#[trigger] self.nodes@[i].children@[j]) < self.nodes@.len()
                && self.nodes@[self.nodes@[i].children@[j] as int].parent == Some(i as usize)
        &&& forall|i: int| 0 <= i < self.nodes@.len()
            ==> (#[trigger] self.nodes@[i]).children@.no_duplicates()
    }

    /// A fresh graph: one root node, no drawables.
    pub fn new() -> (g: SceneGraph)
        ensures
            g.wf(),
            g.node_count() == 1,
            g.node(0).network_id@ == Seq::<char>::empty(),
            g.node(0).parent is None,
            g.node(0).children@ == Seq::<usize>::empty(),
            g.node(0).transform@ == identity_bits(),
            g.node(0).drawable is None,
            !g.node(0).disposed,
            g.drawable_map() == Map::<Seq<char>, usize>::empty(),
    {
        let root = NodeData {
            network_id: String::new(),
            parent: None,
            children: Vec::new(),
            transform: identity_transform(),
            drawable: None,
            disposed: false,
        };
        let mut nodes: Vec<NodeData> = Vec::new();
        nodes.push(root);
        SceneGraph { nodes, drawables: StrMap::new() }
    }

    /// Register a named drawable handle, for the asset side to call.
    pub fn add_drawable(&mut self, name: String, handle: usize)
        requires
            old(self).wf(),
        ensures
            final(self).wf(),
            final(self).drawable_map() == old(self).drawable_map().insert(name@, handle),
            final(self).node_count() == old(self).node_count(),
            forall|i: int| 0 <= i < old(self).node_count()
                ==> #[trigger] final(self).node(i) == old(self).node(i),
    {
        self.drawables.insert(name, handle);
    }

    /// A well-formed graph always holds its root.
    pub proof fn lemma_wf_basics(&self)
        requires
            self.wf(),
        ensures
            self.node_count() >= 1,
    {
    }

    /// The number of nodes, for range checks at run time.
    pub fn node_count_exec(&self) -> (n: usize)
        ensures
            n == self.node_count(),
    {
        self.nodes.len()
    }

    /// Look a drawable handle up by name.
    pub fn lookup_drawable(&self, name: &String) -> (r: Option<usize>)
        requires
            self.wf(),
        ensures
            match r {
                Some(h) => self.drawable_map().contains_key(name@)
                    && h == self.drawable_map()[name@],
                None => !self.drawable_map().contains_key(name@),
            },
    {
        match self.drawables.get(name) {
            Some(h) => Some(*h),
            None => None,
        }
    }

    /// Create a detached node with the identity transform.
    pub fn new_node(&mut self) -> (n: usize)
        requires
            old(self).wf(),
        ensures
            final(self).wf(),
            n == old(self).node_count(),
            final(self).node_count() == old(self).node_count() + 1,
            final(self).node(n as int).network_id@ == Seq::<char>::empty(),
            final(self).node(n as int).parent is None,
            final(self).node(n as int).children@ == Seq::<usize>::empty(),
            final(self).node(n as int).transform@ == identity_bits(),
            final(self).node(n as int).drawable is None,
            !final(self).node(n as int).disposed,
            forall|i: int| 0 <= i < old(self).node_count()
                ==> #[trigger] final(self).node(i) == old(self).node(i),
            final(self).drawable_map() == old(self).drawable_map(),
    {
        let n = self.nodes.len();
        self.nodes.push(NodeData {
            network_id: String::new(),
            parent: None,
            children: Vec::new(),
            transform: identity_transform(),
            drawable: None,
            disposed: false,
        });
        n
    }

    /// Record which replicated object a node stands for.
    pub fn set_network_id(&mut self, node: usize, id: String)
        requires
            old(self).wf(),
            node < old(self).node_count(),
        ensures
            final(self).wf(),
            final(self).node_count() == old(self).node_count(),
            final(self).node(node as int).network_id == id,
            final(self).node(node as int).parent == old(self).node(node as int).parent,
            final(self).node(node as int).children == old(self).node(node as int).children,
            final(self).node(node as int).transform == old(self).node(node as int).transform,
            final(self).node(node as int).drawable == old(self).node(node as int).drawable,
            final(self).node(node as int).disposed == old(self).node(node as int).disposed,
            forall|i: int| 0 <= i < old(self).node_count() && i != node
                ==> #[trigger] final(self).node(i) == old(self).node(i),
            final(self).drawable_map() == old(self).drawable_map(),
    {
        let nd = &mut self.nodes[node];
        nd.network_id = id;
    }

    /// Attach a drawable handle to a node.
    pub fn set_drawable(&mut self, node: usize, drawable: usize)
        requires
            old(self).wf(),
            node < old(self).node_count(),
        ensures
            final(self).wf(),
            final(self).node_count() == old(self).node_count(),
            final(self).node(node as int).drawable == Some(drawable),
            final(self).node(node as int).network_id == old(self).node(node as int).network_id,
            final(self).node(node as int).parent == old(self).node(node as int).parent,
            final(self).node(node as int).children == old(self).node(node as int).children,
            final(self).node(node as int).transform == old(self).node(node as int).transform,
            final(self).node(node as int).disposed == old(self).node(node as int).disposed,
            forall|i: int| 0 <= i < old(self).node_count() && i != node
                ==> #[trigger] final(self).node(i) == old(self).node(i),
            final(self).drawable_map() == old(self).drawable_map(),
    {
        let nd = &mut self.nodes[node];
        nd.drawable = Some(drawable);
    }

    /// Read a node's transform.
    pub fn get_transform(&self, node: usize) -> (t: Transform)
        requires
            node < self.node_count(),
        ensures
            t@ == self.node(node as int).transform@,
    {
        self.nodes[node].transform
    }

    /// The network id a node stands for.
    pub fn network_id_of(&self, node: usize) -> (id: String)
        requires
            node < self.node_count(),
        ensures
            id@ == self.node(node as int).network_id@,
    {
        self.nodes[node].network_id.clone()
    }

    /// Overwrite a node's transform in place.
    pub fn set_transform(&mut self, node: usize, t: Transform)
        requires
            old(self).wf(),
            node < old(self).node_count(),
        ensures
            final(self).wf(),
            final(self).node_count() == old(self).node_count(),
            final(self).node(node as int).transform == t,
            final(self).node(node as int).network_id == old(self).node(node as int).network_id,
            final(self).node(node as int).parent == old(self).node(node as int).parent,
            final(self).node(node as int).children == old(self).node(node as int).children,
            final(self).node(node as int).drawable == old(self).node(node as int).drawable,
            final(self).node(node as int).disposed == old(self).node(node as int).disposed,
            forall|i: int| 0 <= i < old(self).node_count() && i != node
                ==> #[trigger] final(self).node(i) == old(self).node(i),
            final(self).drawable_map() == old(self).drawable_map(),
    {
        let nd = &mut self.nodes[node];
        nd.transform = t;
    }

    /// Whether the node has been disposed.
    pub fn is_disposed(&self, node: usize) -> (b: bool)
        requires
            node < self.node_count(),
        ensures
            b == self.node(node as int).disposed,
    {
        self.nodes[node].disposed
    }

    /// Detach a node from its parent, if it has one. Only the node's
    /// `parent` field and the old parent's child list change.
    fn unlink(&mut self, child: usize)
        requires
            old(self).wf(),
            child < old(self).node_count(),
        ensures
            final(self).wf(),
            final(self).node_count() == old(self).node_count(),
            final(self).node(child as int).parent is None,
            final(self).node(child as int).network_id == old(self).node(child as int).network_id,
            final(self).node(child as int).children == old(self).node(child as int).children,
            final(self).node(child as int).transform == old(self).node(child as int).transform,
            final(self).node(child as int).drawable == old(self).node(child as int).drawable,
            final(self).node(child as int).disposed == old(self).node(child as int).disposed,
            ({
                let p = old(self).node(child as int).parent;
                &&& (p is Some ==> final(self).child_set(p->0 as int)
                        == old(self).child_set(p->0 as int).remove(child)
                    && final(self).node(p->0 as int).network_id
                        == old(self).node(p->0 as int).network_id
                    && final(self).node(p->0 as int).parent
                        == old(self).node(p->0 as int).parent
                    && final(self).node(p->0 as int).transform
                        == old(self).node(p->0 as int).transform
                    && final(self).node(p->0 as int).drawable
                        == old(self).node(p->0 as int).drawable
                    && final(self).node(p->0 as int).disposed
                        == old(self).node(p->0 as int).disposed)
                &&& forall|i: int| 0 <= i < old(self).node_count() && i != child
                    && (p is Some ==> i != p->0)
                    ==> #[trigger] final(self).node(i) == old(self).node(i)
            }),
            forall|i: int| 0 <= i < old(self).node_count()
                ==> !(#[trigger] final(self).node(i)).children@.contains(child),
            final(self).drawable_map() == old(self).drawable_map(),
    {
        let p = self.nodes[child].parent;
        match p {
            Some(q) => {
                let ghost cs = self.nodes@[q as int].children@;
                proof {
                    assert(cs.contains(child));
                }
                let i = find_index(&self.nodes[q].children, child);
                proof {
                    lemma_child_list_remove(cs, i as int);
                }
                let nd = &mut self.nodes[q];
                nd.children.remove(i);
                let nd = &mut self.nodes[child];
                nd.parent = None;
                proof {
                    assert(self.nodes.len() == self.nodes@.len());
                    assert forall|x: int| 0 <= x < self.nodes@.len()
                        implies !(#[trigger] self.nodes@[x]).children@.contains(child) by {
                        if x == q {
                            assert(self.nodes@[q as int].children@ == cs.remove(i as int));
                            assert(!cs.remove(i as int).contains(child));
                        } else if x != child && self.nodes@[x].children@.contains(child) {
                            let j = choose|j: int| 0 <= j < self.nodes@[x].children@.len()
                                && self.nodes@[x].children@[j] == child;
                            assert(old(self).nodes@[x].children@[j] == child);
                            assert(old(self).nodes@[child as int].parent == Some(x as usize));
                        } else if x == child && self.nodes@[x].children@.contains(child) {
                            let j = choose|j: int| 0 <= j < old(self).nodes@[x].children@.len()
                                && old(self).nodes@[x].children@[j] == child;
                            assert(old(self).nodes@[child as int].parent == Some(x as usize));
                        }
                    }
                    assert(self.child_set(q as int) =~= old(self).child_set(q as int).remove(child));
                }
            },
            None => {
                proof {
                    assert(self.nodes.len() == self.nodes@.len());
                    assert forall|x: int| 0 <= x < self.nodes@.len()
                        implies !(#[trigger] self.nodes@[x]).children@.contains(child) by {
                        if self.nodes@[x].children@.contains(child) {
                            let j = choose|j: int| 0 <= j < self.nodes@[x].children@.len()
                                && self.nodes@[x].children@[j] == child;
                            assert(self.nodes@[x].children@[j] == child);
                            assert(self.nodes@[child as int].parent == Some(x as usize));
                        }
                    }
                }
            },
        }
    }

    /// Re-parent `child` under `parent`: detach it from any old parent,
    /// then add it to the new parent's child list.
    pub fn attach(&mut self, parent: usize, child: usize)
        requires
            old(self).wf(),
            parent < old(self).node_count(),
            child < old(self).node_count(),
            parent != child,
        ensures
            final(self).wf(),
            final(self).node_count() == old(self).node_count(),
            final(self).node(child as int).parent == Some(parent),
            final(self).node(child as int).network_id == old(self).node(child as int).network_id,
            final(self).node(child as int).children == old(self).node(child as int).children,
            final(self).node(child as int).transform == old(self).node(child as int).transform,
            final(self).node(child as int).drawable == old(self).node(child as int).drawable,
            final(self).node(child as int).disposed == old(self).node(child as int).disposed,
            final(self).child_set(parent as int)
                == old(self).child_set(parent as int).insert(child),
            final(self).node(parent as int).network_id == old(self).node(parent as int).network_id,
            final(self).node(parent as int).parent == old(self).node(parent as int).parent,
            final(self).node(parent as int).transform == old(self).node(parent as int).transform,
            final(self).node(parent as int).drawable == old(self).node(parent as int).drawable,
            final(self).node(parent as int).disposed == old(self).node(parent as int).disposed,
            ({
                let p = old(self).node(child as int).parent;
                &&& (p is Some && p->0 != parent ==> final(self).child_set(p->0 as int)
                    == old(self).child_set(p->0 as int).remove(child))
                &&& forall|i: int| 0 <= i < old(self).node_count() && i != child && i != parent
                    && (p is Some ==> i != p->0)
                    ==> #[trigger] final(self).node(i) == old(self).node(i)
            }),
            final(self).drawable_map() == old(self).drawable_map(),
    {
        self.unlink(child);
        let ghost mid = *self;
        proof {
            assert(self.nodes.len() == self.nodes@.len());
            assert(!mid.node(parent as int).children@.contains(child));
            if old(self).node(child as int).parent is Some
                && old(self).node(child as int).parent->0 != parent {
                assert(mid.node(parent as int) == old(self).node(parent as int));
            }
            assert(mid.node(child as int).children == old(self).node(child as int).children);
            assert(mid.node(child as int).network_id == old(self).node(child as int).network_id);
            assert(mid.node(child as int).transform == old(self).node(child as int).transform);
            assert(mid.node(child as int).drawable == old(self).node(child as int).drawable);
            assert(mid.node(child as int).disposed == old(self).node(child as int).disposed);
        }
        let nd = &mut self.nodes[parent];
        let ghost pcs = nd.children@;
        nd.children.push(child);
        let nd = &mut self.nodes[child];
        nd.parent = Some(parent);
        proof {
            lemma_child_list_push(pcs, child);
            assert(self.child_set(parent as int)
                =~= old(self).child_set(parent as int).insert(child));
            assert forall|i: int, j: int| 0 <= i < self.nodes@.len()
                && 0 <= j < self.nodes@[i].children@.len()
                implies (#[trigger] self.nodes@[i].children@[j]) < self.nodes@.len()
                    && self.nodes@[self.nodes@[i].children@[j] as int].parent == Some(i as usize) by {
                if i == parent {
                    if j < pcs.len() {
                        assert(mid.nodes@[i].children@[j] == self.nodes@[i].children@[j]);
                    } else {
                        assert(self.nodes@[i].children@[j] == child);
                    }
                } else {
                    assert(mid.nodes@[i].children@[j] == self.nodes@[i].children@[j]);
                }
            }
            assert forall|i: int| 0 <= i < self.nodes@.len()
                && (#[trigger] self.nodes@[i]).parent is Some
                implies self.nodes@[i].parent->0 < self.nodes@.len()
                    && self.nodes@[i].parent->0 != i
                    && self.nodes@[self.nodes@[i].parent->0 as int].children@.contains(i as usize) by {
                if i == child {
                    assert(self.nodes@[parent as int].children@[pcs.len() as int] == child);
                    assert(self.nodes@[parent as int].children@.contains(child));
                } else {
                    assert(self.nodes@[i].parent == mid.nodes@[i].parent);
                    let p2 = mid.nodes@[i].parent->0;
                    assert(mid.nodes@[p2 as int].children@.contains(i as usize));
                    let j = choose|j: int| 0 <= j < mid.nodes@[p2 as int].children@.len()
                        && mid.nodes@[p2 as int].children@[j] == i as usize;
                    if p2 == parent {
                        assert(self.nodes@[parent as int].children@[j] == i as usize);
                        assert(self.nodes@[p2 as int].children@.contains(i as usize));
                    } else {
                        assert(self.nodes@[p2 as int].children@ == mid.nodes@[p2 as int].children@);
                    }
                }
            }
            assert forall|i: int| 0 <= i < self.nodes@.len()
                implies (#[trigger] self.nodes@[i]).children@.no_duplicates() by {
                if i != parent {
                    assert(self.nodes@[i].children@ == mid.nodes@[i].children@);
                }
            }
            assert forall|i: int| 0 <= i < old(self).node_count() && i != child && i != parent
                && (old(self).node(child as int).parent is Some
                    ==> i != old(self).node(child as int).parent->0)
                implies #[trigger] self.node(i) == old(self).node(i) by {
                assert(self.node(i) == mid.node(i));
                assert(mid.node(i) == old(self).node(i));
            }
        }
    }

    /// Remove `child` from `parent`'s children, detaching it; nothing
    /// happens when it is not a child of `parent`.
    pub fn remove_child(&mut self, parent: usize, child: usize)
        requires
            old(self).wf(),
            parent < old(self).node_count(),
            child < old(self).node_count(),
        ensures
            final(self).wf(),
            final(self).node_count() == old(self).node_count(),
            old(self).node(child as int).parent == Some(parent) ==> {
                &&& final(self).node(child as int).parent is None
                &&& final(self).child_set(parent as int)
                    == old(self).child_set(parent as int).remove(child)
                &&& forall|i: int| 0 <= i < old(self).node_count() && i != child && i != parent
                    ==> #[trigger] final(self).node(i) == old(self).node(i)
            },
            old(self).node(child as int).parent != Some(parent)
                ==> *final(self) == *old(self),
            final(self).drawable_map() == old(self).drawable_map(),
    {
        let is_child = match self.nodes[child].parent {
            Some(p) => p == parent,
            None => false,
        };
        if is_child {
            self.unlink(child);
        }
    }

    /// Dispose a node: release its drawable, detach it from its parent,
    /// and mark it disposed. Disposing twice changes nothing.
    pub fn dispose(&mut self, node: usize)
        requires
            old(self).wf(),
            node < old(self).node_count(),
        ensures
            final(self).wf(),
            final(self).node_count() == old(self).node_count(),
            old(self).node(node as int).disposed ==> *final(self) == *old(self),
            !old(self).node(node as int).disposed ==> {
                let p = old(self).node(node as int).parent;
                &&& final(self).node(node as int).disposed
                &&& final(self).node(node as int).parent is None
                &&& final(self).node(node as int).drawable is None
                &&& final(self).node(node as int).network_id
                    == old(self).node(node as int).network_id
                &&& final(self).node(node as int).children
                    == old(self).node(node as int).children
                &&& final(self).node(node as int).transform
                    == old(self).node(node as int).transform
                &&& (p is Some ==> final(self).child_set(p->0 as int)
                    == old(self).child_set(p->0 as int).remove(node)
                    && final(self).node(p->0 as int).disposed
                        == old(self).node(p->0 as int).disposed
                    && final(self).node(p->0 as int).transform
                        == old(self).node(p->0 as int).transform)
                &&& forall|i: int| 0 <= i < old(self).node_count() && i != node
                    && (p is Some ==> i != p->0)
                    ==> #[trigger] final(self).node(i) == old(self).node(i)
            },
            final(self).drawable_map() == old(self).drawable_map(),
    {
        let disposed = self.nodes[node].disposed;
        if !disposed {
            self.unlink(node);
            let ghost mid = *self;
            let nd = &mut self.nodes[node];
            nd.drawable = None;
            nd.disposed = true;
            proof {
                assert forall|i: int| 0 <= i < mid.nodes@.len()
                    implies (#[trigger] self.nodes@[i]).parent == mid.nodes@[i].parent
                        && self.nodes@[i].children == mid.nodes@[i].children by {
                    if i != node {
                        assert(self.nodes@[i] == mid.nodes@[i]);
                    }
                }
                lemma_wf_links_preserved(mid, *self);
                assert forall|i: int| 0 <= i < old(self).node_count() && i != node
                    && (old(self).node(node as int).parent is Some
                        ==> i != old(self).node(node as int).parent->0)
                    implies #[trigger] self.node(i) == old(self).node(i) by {
                    assert(self.node(i) == mid.node(i));
                    assert(mid.node(i) == old(self).node(i));
                }
                let p = old(self).node(node as int).parent;
                if p is Some {
                    assert(self.node(p->0 as int) == mid.node(p->0 as int));
                }
            }
        }
    }
}

fn find_index(children: &Vec<usize>, child: usize) -> (idx: usize)
    requires
        children@.contains(child),
    ensures
        idx < children@.len(),
        children@[idx as int] == child,
{
    let n = children.len();
    let mut i: usize = 0;
    while i < n
        invariant
            i <= n,
            n == children@.len(),
            children@.contains(child),
            forall|j: int| 0 <= j < i ==> children@[j] != child,
        decreases n - i,
    {
        if children[i] == child {
            return i;
        }
        i = i + 1;
    }
    proof {
        let j = choose|j: int| 0 <= j < children@.len() && children@[j] == child;
        assert(false);
    }
    0
}

/// Well-formedness depends only on the parent and child links: changing
/// other node fields preserves it.
proof fn lemma_wf_links_preserved(pre: SceneGraph, post: SceneGraph)
    requires
        pre.wf(),
        post.drawables.wf(),
        post.nodes@.len() == pre.nodes@.len(),
        forall|i: int| 0 <= i < pre.nodes@.len()
            ==> (#[trigger] post.nodes@[i]).parent == pre.nodes@[i].parent
                && post.nodes@[i].children == pre.nodes@[i].children,
    ensures
        post.wf(),
{
    assert forall|i: int| 0 <= i < post.nodes@.len()
        && (#[trigger] post.nodes@[i]).parent is Some
        implies post.nodes@[i].parent->0 < post.nodes@.len()
            && post.nodes@[i].parent->0 != i
            && post.nodes@[post.nodes@[i].parent->0 as int].children@.contains(i as usize) by {
        assert(pre.nodes@[i].parent == post.nodes@[i].parent);
        let p2 = pre.nodes@[i].parent->0;
        assert(pre.nodes@[p2 as int].children@.contains(i as usize));
        assert(post.nodes@[p2 as int].children == pre.nodes@[p2 as int].children);
    }
    assert forall|i: int, j: int| 0 <= i < post.nodes@.len()
        && 0 <= j < post.nodes@[i].children@.len()
        implies (#[trigger] post.nodes@[i].children@[j]) < post.nodes@.len()
            && post.nodes@[post.nodes@[i].children@[j] as int].parent == Some(i as usize) by {
        assert(post.nodes@[i].children == pre.nodes@[i].children);
        let c = pre.nodes@[i].children@[j];
        assert(pre.nodes@[c as int].parent == Some(i as usize));
        assert(post.nodes@[c as int].parent == pre.nodes@[c as int].parent);
    }
    assert forall|i: int| 0 <= i < post.nodes@.len()
        implies (#[trigger] post.nodes@[i]).children@.no_duplicates() by {
        assert(post.nodes@[i].children == pre.nodes@[i].children);
    }
}

proof fn lemma_child_list_remove(s: Seq<usize>, i: int)
    requires
        0 <= i < s.len(),
        s.no_duplicates(),
    ensures
        s.remove(i).no_duplicates(),
        s.remove(i).to_set() == s.to_set().remove(s[i]),
        !s.remove(i).contains(s[i]),
        forall|x: usize| x != s[i] ==> (s.remove(i).contains(x) <==> s.contains(x)),
{
    let r = s.remove(i);
    assert forall|x: usize| #[trigger] r.contains(x) implies s.contains(x) && (x == s[i] ==> false) by {
        let j = choose|j: int| 0 <= j < r.len() && r[j] == x;
        if j < i {
            assert(s[j] == x);
        } else {
            assert(s[j + 1] == x);
        }
        if x == s[i] {
            if j < i {
                assert(s[j] == s[i]);
            } else {
                assert(s[j + 1] == s[i]);
            }
        }
    }
    assert forall|x: usize| s.contains(x) && x != s[i] implies r.contains(x) by {
        let j = choose|j: int| 0 <= j < s.len() && s[j] == x;
        if j < i {
            assert(r[j] == x);
        } else {
            assert(j > i);
            assert(r[j - 1] == x);
        }
        assert(r.contains(x));
    }
    assert(r.to_set() =~= s.to_set().remove(s[i]));
}

proof fn lemma_child_list_push(s: Seq<usize>, v: usize)
    requires
        s.no_duplicates(),
        !s.contains(v),
    ensures
        s.push(v).no_duplicates(),
        s.push(v).to_set() == s.to_set().insert(v),
{
    let r = s.push(v);
    assert forall|x: usize| #[trigger] r.contains(x) implies s.to_set().insert(v).contains(x) by {
        let j = choose|j: int| 0 <= j < r.len() && r[j] == x;
        if j < s.len() {
            assert(s[j] == x);
        } else {
            assert(x == v);
        }
    }
    assert forall|x: usize| s.to_set().insert(v).contains(x) implies r.contains(x) by {
        if x == v {
            assert(r[s.len() as int] == v);
        } else {
            let j = choose|j: int| 0 <= j < s.len() && s[j] == x;
            assert(r[j] == x);
        }
    }
    assert(r.to_set() =~= s.to_set().insert(v));
}

} // verus!
