//! The client's replication agent: which objects this client owns and
//! drives, which it merely mirrors, and which spawn requests are still
//! waiting for their echo. The agent turns inbound `Spawn`, `Destroy` and
//! `TransformUpdate` messages into scene-graph changes, and produces the
//! messages the connection should send; the socket, the threads and the
//! blocking wait itself stay outside.

use vstd::prelude::*;
use crate::message::{Message, MessageView, Transform};
use crate::scene::SceneGraph;
use crate::smap::StrMap;

verus! {

/// Why applying a `Spawn` failed locally.
#[derive(Debug)]
pub enum SpawnError {
    /// The named drawable is not registered in the scene graph. Fatal for
    /// the spawning caller; recoverable for a mirrored object.
    DrawableNotFound,
}

/// The replication agent's state.
pub struct Network {
    id: String,
    owned: StrMap<(String, usize)>,
    synced_nodes: StrMap<usize>,
    waiting: StrMap<Option<usize>>,
    running: bool,
}

impl Network {
    /// This client's identity on the wire.
    pub closed spec fn id_view(&self) -> Seq<char> {
        self.id@
    }

    /// Object id to (room, node) for every locally owned object.
    pub closed spec fn owned(&self) -> Map<Seq<char>, (Seq<char>, usize)> {
        let m = self.owned@;
        Map::new(|k: Seq<char>| m.contains_key(k), |k: Seq<char>| (m[k].0@, m[k].1))
    }

    /// The owned entries in table order.
    pub closed spec fn owned_seq(&self) -> Seq<(Seq<char>, (Seq<char>, usize))> {
        self.owned.kv_seq().map_values(|e: (Seq<char>, (String, usize))| (e.0, (e.1.0@, e.1.1)))
    }

    /// Object id to node for every replicated object this client holds,
    /// owned or mirrored.
    pub closed spec fn synced(&self) -> Map<Seq<char>, usize> {
        self.synced_nodes@
    }

    /// Pending spawn requests: the slot is `None` until the echo arrives.
    pub closed spec fn waiting(&self) -> Map<Seq<char>, Option<usize>> {
        self.waiting@
    }

    /// Whether the agent's loops should keep running.
    pub closed spec fn running(&self) -> bool {
        self.running
    }

    pub closed spec fn wf(&self) -> bool {
        &&& self.owned.wf()
        &&& self.synced_nodes.wf()
        &&& self.waiting.wf()
    }

    /// Every node this agent records — owned or merely mirrored — lies
    /// inside the graph, so the graph clauses below carry no range
    /// caveats. A fresh agent satisfies it for any graph; every operation
    /// that touches the same graph preserves it.
    pub open spec fn nodes_within(&self, g: SceneGraph) -> bool {
        &&& forall|k: Seq<char>| #[trigger] self.synced().contains_key(k)
            ==> self.synced()[k] < g.node_count()
        &&& forall|k: Seq<char>| #[trigger] self.owned().contains_key(k)
            ==> self.owned()[k].1 < g.node_count()
    }

    /// A fresh agent under a newly generated high-entropy identity.
    pub fn new() -> (n: Network)
        ensures
            n.wf(),
            n.id_view().len() == 32,
            n.owned() == Map::<Seq<char>, (Seq<char>, usize)>::empty(),
            n.synced() == Map::<Seq<char>, usize>::empty(),
            n.waiting() == Map::<Seq<char>, Option<usize>>::empty(),
            n.running(),
            forall|g: SceneGraph| #[trigger] n.nodes_within(g),
    {
        let n = Network {
            id: fresh_id(),
            owned: StrMap::new(),
            synced_nodes: StrMap::new(),
            waiting: StrMap::new(),
            running: true,
        };
        proof {
            assert(n.owned() =~= Map::<Seq<char>, (Seq<char>, usize)>::empty());
        }
        n
    }

    /// The `Login` message this agent opens its connection with.
    pub fn login_message(&self) -> (m: Message)
        ensures
            m@ == (MessageView::Login { id: self.id_view() }),
    {
        Message::Login { id: self.id.clone() }
    }

    /// Stop the agent's loops, before the socket is shut down.
    pub fn shutdown(&mut self)
        ensures
            !final(self).running(),
            final(self).id_view() == old(self).id_view(),
            final(self).owned() == old(self).owned(),
            final(self).synced() == old(self).synced(),
            final(self).waiting() == old(self).waiting(),
            final(self).wf() == old(self).wf(),
    {
        self.running = false;
    }

    /// Whether the agent's loops should keep running, for the loops to
    /// poll.
    pub fn is_running(&self) -> (b: bool)
        ensures
            b == self.running(),
    {
        self.running
    }

    /// How long to sleep before connection attempt `count`, in seconds;
    /// `None` once the bounded retries are used up.
    pub fn retry_delay(count: u64) -> (r: Option<u64>)
        ensures
            r == if count > 3 { None::<u64> } else { Some((count * 10) as u64) },
    {
        if count > 3 {
            None
        } else {
            Some(count * 10)
        }
    }

    /// Begin a local spawn: pick a fresh object id, register the pending
    /// request, and return the `Spawn` message to send. The caller then
    /// blocks until `take_spawn_result` finds the echo's answer.
    pub fn begin_spawn(&mut self, scene: &String, drawable: &String, behavior: Option<String>) -> (m: Message)
        requires
            old(self).wf(),
        ensures
            final(self).wf(),
            m@ matches MessageView::Spawn { id, scene: s, drawable: d, behavior: b }
                && id.len() == 32
                && s == scene@
                && d == drawable@
                && b == (match behavior {
                    Some(bb) => Some(bb@),
                    None => None,
                })
                && final(self).waiting() == old(self).waiting().insert(id, None),
            final(self).id_view() == old(self).id_view(),
            final(self).owned() == old(self).owned(),
            final(self).synced() == old(self).synced(),
            final(self).running() == old(self).running(),
    {
        let id = fresh_id();
        self.waiting.insert(id.clone(), None);
        Message::Spawn {
            id,
            scene: scene.clone(),
            drawable: drawable.clone(),
            behavior,
        }
    }

    /// Collect a fulfilled spawn: if the echo has filled the slot for
    /// `id`, clear the pending entry and hand the node out.
    pub fn take_spawn_result(&mut self, id: &String) -> (r: Option<usize>)
        requires
            old(self).wf(),
        ensures
            final(self).wf(),
            match r {
                Some(node) => old(self).waiting().contains_key(id@)
                    && old(self).waiting()[id@] == Some(node)
                    && final(self).waiting() == old(self).waiting().remove(id@),
                None => (!old(self).waiting().contains_key(id@)
                    || old(self).waiting()[id@] is None)
                    && final(self).waiting() == old(self).waiting(),
            },
            final(self).id_view() == old(self).id_view(),
            final(self).owned() == old(self).owned(),
            final(self).synced() == old(self).synced(),
            final(self).running() == old(self).running(),
    {
        let filled = match self.waiting.get(id) {
            Some(slot) => match slot {
                Some(node) => Some(*node),
                None => None,
            },
            None => None,
        };
        match filled {
            Some(node) => {
                self.waiting.remove(id);
                Some(node)
            },
            None => None,
        }
    }

    /// Whether a spawn request for `id` is still registered, fulfilled or
    /// not — so a waiter can tell a not-yet-answered request from one
    /// that failed and was removed.
    pub fn has_pending(&self, id: &String) -> (b: bool)
        requires
            self.wf(),
        ensures
            b == self.waiting().contains_key(id@),
    {
        self.waiting.contains_key(id)
    }

    /// Drop a pending spawn that can no longer be fulfilled, such as when
    /// the connection is lost while the caller waits.
    pub fn abort_spawn(&mut self, id: &String)
        requires
            old(self).wf(),
        ensures
            final(self).wf(),
            final(self).waiting() == old(self).waiting().remove(id@),
            final(self).id_view() == old(self).id_view(),
            final(self).owned() == old(self).owned(),
            final(self).synced() == old(self).synced(),
            final(self).running() == old(self).running(),
    {
        self.waiting.remove(id);
    }

    /// Whether this client owns the object.
    pub fn owns(&self, id: &String) -> (b: bool)
        requires
            self.wf(),
        ensures
            b == self.owned().contains_key(id@),
    {
        self.owned.contains_key(id)
    }

    /// The local node mirroring the object, if any.
    pub fn synced_node(&self, id: &String) -> (r: Option<usize>)
        requires
            self.wf(),
        ensures
            match r {
                Some(n) => self.synced().contains_key(id@) && n == self.synced()[id@],
                None => !self.synced().contains_key(id@),
            },
    {
        match self.synced_nodes.get(id) {
            Some(n) => Some(*n),
            None => None,
        }
    }

    /// Apply an inbound `Spawn`: build a node under the root with the
    /// named drawable, record it as replicated, and — when this client's
    /// own spawn request for that id is pending — take ownership and fill
    /// the waiter's slot with the node. Returns the node and whether this
    /// client owns it. When the drawable is unknown the graph is left
    /// alone and a pending request for the id is failed by removal.
    pub fn handle_spawn(&mut self, graph: &mut SceneGraph, id: &String, scene: &String, drawable: &String) -> (r: Result<(usize, bool), SpawnError>)
        requires
            old(self).wf(),
            old(graph).wf(),
        ensures
            final(self).wf(),
            final(graph).wf(),
            final(self).id_view() == old(self).id_view(),
            final(self).running() == old(self).running(),
            final(graph).drawable_map() == old(graph).drawable_map(),
            old(self).nodes_within(*old(graph)) ==> final(self).nodes_within(*final(graph)),
            match r {
                Ok((node, is_owner)) => {
                    &&& old(graph).drawable_map().contains_key(drawable@)
                    &&& node == old(graph).node_count()
                    &&& final(graph).node_count() == old(graph).node_count() + 1
                    &&& final(graph).node(node as int).network_id@ == id@
                    &&& final(graph).node(node as int).drawable
                        == Some(old(graph).drawable_map()[drawable@])
                    &&& final(graph).node(node as int).parent == Some(0usize)
                    &&& final(graph).child_set(0)
                        == old(graph).child_set(0).insert(node)
                    &&& final(graph).node(node as int).transform@
                        == crate::scene::identity_bits()
                    &&& !final(graph).node(node as int).disposed
                    &&& (forall|i: int| 0 <= i < old(graph).node_count() && i != 0
                        ==> #[trigger] final(graph).node(i) == old(graph).node(i))
                    &&& final(self).synced() == old(self).synced().insert(id@, node)
                    &&& is_owner == old(self).waiting().contains_key(id@)
                    &&& (is_owner ==> final(self).owned()
                            == old(self).owned().insert(id@, (scene@, node))
                        && final(self).waiting()
                            == old(self).waiting().insert(id@, Some(node)))
                    &&& (!is_owner ==> final(self).owned() == old(self).owned()
                        && final(self).waiting() == old(self).waiting())
                },
                Err(e) => {
                    &&& !old(graph).drawable_map().contains_key(drawable@)
                    &&& e is DrawableNotFound
                    &&& *final(graph) == *old(graph)
                    &&& final(self).owned() == old(self).owned()
                    &&& final(self).synced() == old(self).synced()
                    &&& final(self).waiting() == old(self).waiting().remove(id@)
                },
            },
    {
        let handle = match graph.lookup_drawable(drawable) {
            Some(h) => h,
            None => {
                self.waiting.remove(id);
                proof {
                    assert(self.synced() =~= old(self).synced());
                    assert(self.owned() =~= old(self).owned());
                }
                return Err(SpawnError::DrawableNotFound);
            },
        };
        let node = graph.new_node();
        graph.set_network_id(node, id.clone());
        graph.set_drawable(node, handle);
        self.synced_nodes.insert(id.clone(), node);
        let is_owner = self.waiting.contains_key(id);
        if is_owner {
            self.owned.insert(id.clone(), (scene.clone(), node));
            self.waiting.insert(id.clone(), Some(node));
            proof {
                assert(self.owned() =~= old(self).owned().insert(id@, (scene@, node)));
            }
        } else {
            proof {
                assert(self.owned() =~= old(self).owned());
            }
        }
        proof {
            old(graph).lemma_wf_basics();
        }
        graph.attach(0, node);
        proof {
            if old(self).nodes_within(*old(graph)) {
                assert forall|k: Seq<char>| #[trigger] self.synced().contains_key(k)
                    implies self.synced()[k] < graph.node_count() by {
                    if k != id@ {
                        assert(old(self).synced().contains_key(k));
                    }
                }
                assert forall|k: Seq<char>| #[trigger] self.owned().contains_key(k)
                    implies self.owned()[k].1 < graph.node_count() by {
                    if k != id@ {
                        assert(old(self).owned().contains_key(k));
                    }
                }
            }
        }
        Ok((node, is_owner))
    }

    /// Apply an inbound `Destroy`: forget the object and dispose its node.
    /// An id this client has never seen is a silent no-op.
    pub fn handle_destroy(&mut self, graph: &mut SceneGraph, id: &String)
        requires
            old(self).wf(),
            old(graph).wf(),
            old(self).nodes_within(*old(graph)),
        ensures
            final(self).wf(),
            final(graph).wf(),
            final(self).id_view() == old(self).id_view(),
            final(self).running() == old(self).running(),
            final(self).owned() == old(self).owned().remove(id@),
            final(self).synced() == old(self).synced().remove(id@),
            final(self).waiting() == old(self).waiting(),
            final(graph).drawable_map() == old(graph).drawable_map(),
            final(graph).node_count() == old(graph).node_count(),
            final(self).nodes_within(*final(graph)),
            ({
                let m = old(self).synced();
                &&& (!m.contains_key(id@) ==> *final(graph) == *old(graph))
                &&& (m.contains_key(id@) && old(graph).node(m[id@] as int).disposed
                    ==> *final(graph) == *old(graph))
                &&& (m.contains_key(id@) && !old(graph).node(m[id@] as int).disposed
                    ==> final(graph).node(m[id@] as int).disposed
                        && final(graph).node(m[id@] as int).parent is None
                        && final(graph).node(m[id@] as int).drawable is None)
            }),
    {
        self.owned.remove(id);
        let node = match self.synced_nodes.take(id) {
            Some(n) => n,
            None => {
                proof {
                    assert(self.synced() =~= old(self).synced().remove(id@));
                    assert(self.owned() =~= old(self).owned().remove(id@));
                    lemma_nodes_within_shrinks(*old(self), *self, *old(graph), *graph);
                }
                return;
            },
        };
        if node < graph.node_count_exec() {
            graph.dispose(node);
        }
        proof {
            assert(self.owned() =~= old(self).owned().remove(id@));
            lemma_nodes_within_shrinks(*old(self), *self, *old(graph), *graph);
        }
    }

    /// Apply an inbound `TransformUpdate`: ignored outright for an object
    /// this client owns — the authoritative transform is never overwritten
    /// by the network — and dropped when the id is not replicated here;
    /// otherwise the mirrored node's transform is overwritten in place.
    pub fn handle_transform_update(&self, graph: &mut SceneGraph, id: &String, t: Transform)
        requires
            self.wf(),
            old(graph).wf(),
            self.nodes_within(*old(graph)),
        ensures
            final(graph).wf(),
            final(graph).drawable_map() == old(graph).drawable_map(),
            final(graph).node_count() == old(graph).node_count(),
            self.nodes_within(*final(graph)),
            ({
                let m = self.synced();
                let applies = !self.owned().contains_key(id@) && m.contains_key(id@);
                &&& (!applies ==> *final(graph) == *old(graph))
                &&& (applies ==> final(graph).node(m[id@] as int).transform == t
                    && final(graph).node(m[id@] as int).network_id
                        == old(graph).node(m[id@] as int).network_id
                    && final(graph).node(m[id@] as int).parent
                        == old(graph).node(m[id@] as int).parent
                    && final(graph).node(m[id@] as int).disposed
                        == old(graph).node(m[id@] as int).disposed
                    && (forall|i: int| 0 <= i < old(graph).node_count() && i != m[id@]
                        ==> #[trigger] final(graph).node(i) == old(graph).node(i)))
            }),
    {
        let is_owned = self.owned.contains_key(id);
        if !is_owned {
            match self.synced_nodes.get(id) {
                Some(node) => {
                    let node = *node;
                    if node < graph.node_count_exec() {
                        graph.set_transform(node, t);
                    }
                },
                None => {},
            }
        }
    }

    /// Whether every recorded node — owned or mirrored — lies inside the
    /// graph: the runtime check for `nodes_within`.
    pub fn nodes_ok(&self, graph: &SceneGraph) -> (b: bool)
        requires
            self.wf(),
        ensures
            b == self.nodes_within(*graph),
    {
        proof {
            self.owned.lemma_kv_view();
            self.synced_nodes.lemma_kv_view();
        }
        let count = graph.node_count_exec();
        let n = self.owned.len();
        let mut i: usize = 0;
        while i < n
            invariant
                i <= n,
                n == self.owned.kv_seq().len(),
                self.wf(),
                count == graph.node_count(),
                forall|j: int| 0 <= j < i
                    ==> (#[trigger] self.owned.kv_seq()[j]).1.1 < count,
            decreases n - i,
        {
            let node = self.owned.value_at(i).1;
            if node >= count {
                proof {
                    self.owned.lemma_kv_view();
                    let k = self.owned.kv_seq()[i as int].0;
                    assert(self.owned@.contains_key(k));
                    assert(self.owned().contains_key(k));
                    assert(self.owned()[k].1 == self.owned@[k].1);
                    assert(self.owned()[k].1 >= count);
                }
                return false;
            }
            proof {
                assert(self.owned.kv_seq()[i as int].1.1 == node);
            }
            i = i + 1;
        }
        let m = self.synced_nodes.len();
        let mut i: usize = 0;
        while i < m
            invariant
                i <= m,
                m == self.synced_nodes.kv_seq().len(),
                self.wf(),
                count == graph.node_count(),
                forall|j: int| 0 <= j < i
                    ==> (#[trigger] self.synced_nodes.kv_seq()[j]).1 < count,
            decreases m - i,
        {
            let node = *self.synced_nodes.value_at(i);
            if node >= count {
                proof {
                    self.synced_nodes.lemma_kv_view();
                    let k = self.synced_nodes.kv_seq()[i as int].0;
                    assert(self.synced_nodes@.contains_key(k));
                    assert(self.synced()[k] >= count);
                }
                return false;
            }
            proof {
                assert(self.synced_nodes.kv_seq()[i as int].1 == node);
            }
            i = i + 1;
        }
        proof {
            self.owned.lemma_kv_view();
            self.synced_nodes.lemma_kv_view();
            assert forall|k: Seq<char>| #[trigger] self.synced().contains_key(k)
                implies self.synced()[k] < graph.node_count() by {
                let j = choose|j: int| 0 <= j < self.synced_nodes.kv_seq().len()
                    && self.synced_nodes.kv_seq()[j].0 == k;
                assert(self.synced_nodes@[k] == self.synced_nodes.kv_seq()[j].1);
            }
            assert forall|k: Seq<char>| #[trigger] self.owned().contains_key(k)
                implies self.owned()[k].1 < graph.node_count() by {
                let j = choose|j: int| 0 <= j < self.owned.kv_seq().len()
                    && self.owned.kv_seq()[j].0 == k;
                assert(self.owned@[k] == self.owned.kv_seq()[j].1);
                assert(self.owned()[k].1 == self.owned@[k].1);
            }
        }
        true
    }

    /// The explicit push variant: one `TransformUpdate` for a single
    /// node's current transform, for callers that push by hand rather
    /// than through the periodic tick.
    pub fn update_message(&self, graph: &SceneGraph, room: &String, node: usize) -> (m: Message)
        requires
            node < graph.node_count(),
        ensures
            m@ == (MessageView::TransformUpdate {
                scene: room@,
                id: graph.node(node as int).network_id@,
                t: graph.node(node as int).transform@,
            }),
    {
        Message::TransformUpdate {
            scene: room.clone(),
            id: graph.network_id_of(node),
            t: graph.get_transform(node),
        }
    }

    /// One `TransformUpdate` per owned object with its current transform:
    /// what the periodic push sends each tick, in table order.
    pub fn transform_updates(&self, graph: &SceneGraph) -> (msgs: Vec<Message>)
        requires
            self.wf(),
            self.nodes_within(*graph),
        ensures
            msgs@.len() == self.owned_seq().len(),
            forall|i: int| 0 <= i < msgs@.len() ==> (#[trigger] msgs@[i])@
                == (MessageView::TransformUpdate {
                    scene: self.owned_seq()[i].1.0,
                    id: self.owned_seq()[i].0,
                    t: graph.node(self.owned_seq()[i].1.1 as int).transform@,
                }),
    {
        proof {
            self.owned.lemma_kv_view();
            assert forall|j: int| 0 <= j < self.owned_seq().len()
                implies (#[trigger] self.owned_seq()[j]).1.1 < graph.node_count() by {
                let k = self.owned.kv_seq()[j].0;
                assert(self.owned@.contains_key(k));
                assert(self.owned().contains_key(k));
                assert(self.owned@[k] == self.owned.kv_seq()[j].1);
                assert(self.owned()[k].1 == self.owned@[k].1);
            }
        }
        let n = self.owned.len();
        let mut msgs: Vec<Message> = Vec::new();
        let mut i: usize = 0;
        while i < n
            invariant
                i <= n,
                n == self.owned_seq().len(),
                self.wf(),
                forall|j: int| 0 <= j < self.owned_seq().len()
                    ==> (#[trigger] self.owned_seq()[j]).1.1 < graph.node_count(),
                msgs@.len() == i,
                forall|j: int| 0 <= j < i ==> (#[trigger] msgs@[j])@
                    == (MessageView::TransformUpdate {
                        scene: self.owned_seq()[j].1.0,
                        id: self.owned_seq()[j].0,
                        t: graph.node(self.owned_seq()[j].1.1 as int).transform@,
                    }),
            decreases n - i,
        {
            let id = self.owned.key_at(i).clone();
            let entry = self.owned.value_at(i);
            let scene = entry.0.clone();
            let node = entry.1;
            proof {
                assert(self.owned_seq()[i as int].1.1 == node);
            }
            let t = graph.get_transform(node);
            msgs.push(Message::TransformUpdate { scene, id, t });
            i = i + 1;
        }
        msgs
    }
}

/// Maps that only lose entries against an unshrunk graph stay within it.
proof fn lemma_nodes_within_shrinks(pre: Network, post: Network, g0: SceneGraph, g: SceneGraph)
    requires
        pre.nodes_within(g0),
        g0.node_count() <= g.node_count(),
        forall|k: Seq<char>| #[trigger] post.synced().contains_key(k)
            ==> pre.synced().contains_key(k) && post.synced()[k] == pre.synced()[k],
        forall|k: Seq<char>| #[trigger] post.owned().contains_key(k)
            ==> pre.owned().contains_key(k) && post.owned()[k] == pre.owned()[k],
    ensures
        post.nodes_within(g),
{
}

/// Relies on nanoid::format with the URL-safe alphabet: the returned id
/// has exactly the requested number of characters, drawn from that
/// alphabet; its value depends on a cryptographic random source.
#[verifier::external_body]
fn fresh_id() -> (r: String)
    ensures
        r@.len() == 32,
{
    nanoid::format(nanoid::rngs::default, &nanoid::alphabet::SAFE, 32)
}

} // verus!
