//! The relay server's state: the connection table, the global client
//! table, room membership, and the per-room spawn cache, together with the
//! message handling that routes `Spawn`, `Destroy` and `TransformUpdate`
//! traffic and replays cached spawns to late joiners.
//!
//! The server owns no simulation state: it only records which objects
//! exist, who spawned them, and who is in which room. Socket reads and
//! writes stay outside; each operation returns the messages to hand to the
//! per-connection outbound queues.

use vstd::prelude::*;
use crate::message::{Message, MessageView};
use crate::smap::StrMap;

verus! {

/// An AES key and initialisation vector as carried by the key-sharing
/// command (reserved for a future handshake; the relay core never
/// consults it).
pub struct AesKey {
    pub key: [u8; 32],
    pub iv: [u8; 16],
}

impl AesKey {
    pub fn new(key: Vec<u8>, iv: Vec<u8>) -> (a: AesKey)
        requires
            key@.len() == 32,
            iv@.len() == 16,
        ensures
            a.key@ == key@,
            a.iv@ == iv@,
    {
        let mut a = AesKey { key: [0; 32], iv: [0; 16] };
        let mut i: usize = 0;
        while i < 32
            invariant
                i <= 32,
                key@.len() == 32,
                a.key@.len() == 32,
                forall|j: int| 0 <= j < i ==> a.key@[j] == key@[j],
            decreases 32 - i,
        {
            a.key[i] = key[i];
            i = i + 1;
        }
        let mut i: usize = 0;
        while i < 16
            invariant
                i <= 16,
                iv@.len() == 16,
                a.iv@.len() == 16,
                a.key@ =~= key@,
                forall|j: int| 0 <= j < i ==> a.iv@[j] == iv@[j],
            decreases 16 - i,
        {
            a.iv[i] = iv[i];
            i = i + 1;
        }
        proof {
            assert(a.key@ =~= key@);
            assert(a.iv@ =~= iv@);
        }
        a
    }
}

/// The lifecycle of one connection.
#[derive(Clone, Copy, PartialEq, Eq, Structural, Debug)]
pub enum ClientState {
    Greeting,
    SecretSharing,
    Listening,
    Disconnected,
}

/// One connection's record: the identity bound by `Login`, the room bound
/// by `Join`, and the set of object ids this connection spawned and is
/// authoritative for.
pub struct Client {
    pub id: String,
    pub room: String,
    pub owned_spawns: StrMap<()>,
    pub state: ClientState,
}

/// The mathematical shape of a client record.
pub struct ClientView {
    pub id: Seq<char>,
    pub room: Seq<char>,
    pub owned: Set<Seq<char>>,
    pub state: ClientState,
}

impl View for Client {
    type V = ClientView;

    open spec fn view(&self) -> ClientView {
        ClientView {
            id: self.id@,
            room: self.room@,
            owned: self.owned_spawns@.dom(),
            state: self.state,
        }
    }
}

impl Client {
    pub open spec fn wf(&self) -> bool {
        self.owned_spawns.wf()
    }

    /// The owned object ids in the order the record keeps them.
    pub open spec fn owned_seq(&self) -> Seq<Seq<char>> {
        self.owned_spawns.kv_seq().map_values(|e: (Seq<char>, ())| e.0)
    }
}

/// One message addressed to one connection's outbound queue.
pub struct Outbound {
    pub conn: usize,
    pub msg: Message,
}

/// The relay server's whole state.
pub struct ServerContext {
    conns: Vec<Client>,
    clients: StrMap<usize>,
    rooms: StrMap<StrMap<usize>>,
    room_spawn_cache: StrMap<StrMap<Message>>,
}

impl ServerContext {
    /// How many connections have been accepted.
    pub closed spec fn conn_count(&self) -> nat {
        self.conns@.len()
    }

    /// The record of connection `c`.
    pub closed spec fn conn(&self, c: int) -> Client {
        self.conns@[c]
    }

    /// The global client table: id, as bound by `Login`, to connection.
    pub closed spec fn clients_map(&self) -> Map<Seq<char>, usize> {
        self.clients@
    }

    pub closed spec fn has_room(&self, scene: Seq<char>) -> bool {
        self.rooms@.contains_key(scene)
    }

    /// A room's member table: client id to connection.
    pub closed spec fn members(&self, scene: Seq<char>) -> Map<Seq<char>, usize> {
        self.rooms@[scene]@
    }

    /// A room's members in table order.
    pub closed spec fn member_seq(&self, scene: Seq<char>) -> Seq<(Seq<char>, usize)> {
        self.rooms@[scene].kv_seq()
    }

    pub closed spec fn has_cache(&self, scene: Seq<char>) -> bool {
        self.room_spawn_cache@.contains_key(scene)
    }

    /// A room's spawn cache: object id to the cached `Spawn` message.
    pub closed spec fn cache_view(&self, scene: Seq<char>) -> Map<Seq<char>, MessageView> {
        let m = self.room_spawn_cache@[scene]@;
        Map::new(|k: Seq<char>| m.contains_key(k), |k: Seq<char>| m[k]@)
    }

    /// The cache, if the room has one; the empty map otherwise.
    pub open spec fn cache_or_empty(&self, scene: Seq<char>) -> Map<Seq<char>, MessageView> {
        if self.has_cache(scene) {
            self.cache_view(scene)
        } else {
            Map::empty()
        }
    }

    /// A room's cached spawns in table order.
    pub closed spec fn cache_seq(&self, scene: Seq<char>) -> Seq<(Seq<char>, Message)> {
        self.room_spawn_cache@[scene].kv_seq()
    }

    /// The room membership, if the room exists; empty otherwise.
    pub open spec fn members_or_empty(&self, scene: Seq<char>) -> Map<Seq<char>, usize> {
        if self.has_room(scene) {
            self.members(scene)
        } else {
            Map::empty()
        }
    }

    /// The room's members in table order, if the room exists; empty
    /// otherwise.
    pub open spec fn member_seq_or_empty(&self, scene: Seq<char>) -> Seq<(Seq<char>, usize)> {
        if self.has_room(scene) {
            self.member_seq(scene)
        } else {
            Seq::empty()
        }
    }

    /// Every table well formed.
    pub closed spec fn wf(&self) -> bool {
        &&& self.clients.wf()
        &&& self.rooms.wf()
        &&& self.room_spawn_cache.wf()
        &&& forall|k: Seq<char>| self.rooms@.contains_key(k) ==> (#[trigger] self.rooms@[k]).wf()
        &&& forall|k: Seq<char>| self.room_spawn_cache@.contains_key(k)
            ==> (#[trigger] self.room_spawn_cache@[k]).wf()
        &&& forall|c: int| 0 <= c < self.conns@.len() ==> (#[trigger] self.conns@[c]).wf()
    }

    /// Rooms other than `scene` unchanged between `pre` and `post`.
    pub open spec fn other_rooms_same(pre: Self, post: Self, scene: Seq<char>) -> bool {
        &&& forall|k: Seq<char>| #![trigger pre.has_room(k)] #![trigger post.has_room(k)]
            k != scene ==> (pre.has_room(k) <==> post.has_room(k))
        &&& forall|k: Seq<char>| #![trigger pre.member_seq(k)] #![trigger post.member_seq(k)]
            k != scene && pre.has_room(k) ==> post.member_seq(k) == pre.member_seq(k)
        &&& forall|k: Seq<char>| #![trigger pre.members(k)] #![trigger post.members(k)]
            k != scene && pre.has_room(k) ==> post.members(k) == pre.members(k)
    }

    /// Caches other than `scene`'s unchanged between `pre` and `post`.
    pub open spec fn other_caches_same(pre: Self, post: Self, scene: Seq<char>) -> bool {
        &&& forall|k: Seq<char>| #![trigger pre.has_cache(k)] #![trigger post.has_cache(k)]
            k != scene ==> (pre.has_cache(k) <==> post.has_cache(k))
        &&& forall|k: Seq<char>| #![trigger pre.cache_seq(k)] #![trigger post.cache_seq(k)]
            k != scene && pre.has_cache(k) ==> post.cache_seq(k) == pre.cache_seq(k)
        &&& forall|k: Seq<char>| #![trigger pre.cache_view(k)] #![trigger post.cache_view(k)]
            k != scene && pre.has_cache(k) ==> post.cache_view(k) == pre.cache_view(k)
    }

    /// All rooms unchanged.
    pub open spec fn rooms_same(pre: Self, post: Self) -> bool {
        &&& forall|k: Seq<char>| #![trigger pre.has_room(k)] #![trigger post.has_room(k)]
            pre.has_room(k) <==> post.has_room(k)
        &&& forall|k: Seq<char>| #![trigger pre.member_seq(k)] #![trigger post.member_seq(k)]
            pre.has_room(k) ==> post.member_seq(k) == pre.member_seq(k)
        &&& forall|k: Seq<char>| #![trigger pre.members(k)] #![trigger post.members(k)]
            pre.has_room(k) ==> post.members(k) == pre.members(k)
    }

    /// All caches unchanged.
    pub open spec fn caches_same(pre: Self, post: Self) -> bool {
        &&& forall|k: Seq<char>| #![trigger pre.has_cache(k)] #![trigger post.has_cache(k)]
            pre.has_cache(k) <==> post.has_cache(k)
        &&& forall|k: Seq<char>| #![trigger pre.cache_seq(k)] #![trigger post.cache_seq(k)]
            pre.has_cache(k) ==> post.cache_seq(k) == pre.cache_seq(k)
        &&& forall|k: Seq<char>| #![trigger pre.cache_view(k)] #![trigger post.cache_view(k)]
            pre.has_cache(k) ==> post.cache_view(k) == pre.cache_view(k)
    }

    /// All connection records unchanged.
    pub open spec fn conns_same(pre: Self, post: Self) -> bool {
        post.conn_count() == pre.conn_count()
            && forall|c: int| 0 <= c < pre.conn_count() ==> #[trigger] post.conn(c) == pre.conn(c)
    }

    /// A fresh server: no connections, no clients, no rooms, no caches.
    pub fn new() -> (s: ServerContext)
        ensures
            s.wf(),
            s.conn_count() == 0,
            s.clients_map() == Map::<Seq<char>, usize>::empty(),
            forall|k: Seq<char>| !s.has_room(k),
            forall|k: Seq<char>| !s.has_cache(k),
    {
        ServerContext {
            conns: Vec::new(),
            clients: StrMap::new(),
            rooms: StrMap::new(),
            room_spawn_cache: StrMap::new(),
        }
    }

    /// Accept one connection: a fresh record in the greeting state.
    pub fn new_connection(&mut self) -> (c: usize)
        requires
            old(self).wf(),
        ensures
            final(self).wf(),
            c == old(self).conn_count(),
            final(self).conn_count() == old(self).conn_count() + 1,
            final(self).conn(c as int)@ == (ClientView {
                id: Seq::empty(),
                room: Seq::empty(),
                owned: Set::empty(),
                state: ClientState::Greeting,
            }),
            forall|d: int| 0 <= d < old(self).conn_count()
                ==> #[trigger] final(self).conn(d) == old(self).conn(d),
            final(self).clients_map() == old(self).clients_map(),
            Self::rooms_same(*old(self), *final(self)),
            Self::caches_same(*old(self), *final(self)),
    {
        let c = self.conns.len();
        let record = Client {
            id: String::new(),
            room: String::new(),
            owned_spawns: StrMap::new(),
            state: ClientState::Greeting,
        };
        self.conns.push(record);
        c
    }

    /// How many connections have been accepted, for range checks at run
    /// time.
    pub fn connection_count(&self) -> (n: usize)
        ensures
            n == self.conn_count(),
    {
        self.conns.len()
    }

    /// Whether connection `conn` currently owns object `id`.
    pub fn conn_owns(&self, conn: usize, id: &String) -> (b: bool)
        requires
            self.wf(),
            conn < self.conn_count(),
        ensures
            b == self.conn(conn as int)@.owned.contains(id@),
    {
        self.conns[conn].owned_spawns.contains_key(id)
    }

    /// Record a `Spawn` in its room's cache (any other message is left
    /// alone). Keeps the cache equal to the set of live objects.
    pub fn fill_spawn_cache(&mut self, msg: &Message)
        requires
            old(self).wf(),
        ensures
            final(self).wf(),
            Self::conns_same(*old(self), *final(self)),
            final(self).clients_map() == old(self).clients_map(),
            Self::rooms_same(*old(self), *final(self)),
            match msg@ {
                MessageView::Spawn { id, scene, .. } => {
                    &&& final(self).has_cache(scene)
                    &&& final(self).cache_view(scene)
                        == old(self).cache_or_empty(scene).insert(id, msg@)
                    &&& Self::other_caches_same(*old(self), *final(self), scene)
                },
                _ => Self::caches_same(*old(self), *final(self)),
            },
    {
        match msg {
            Message::Spawn { id, scene, .. } => {
                let mut entry = match self.room_spawn_cache.take(scene) {
                    Some(e) => e,
                    None => StrMap::new(),
                };
                entry.insert(id.clone(), msg.clone());
                self.room_spawn_cache.insert(scene.clone(), entry);
                proof {
                    assert(final(self).cache_view(scene@)
                        =~= old(self).cache_or_empty(scene@).insert(id@, msg@));
                }
            },
            _ => {},
        }
    }

    /// Drop a `Destroy`'s object from its room's cache (any other message
    /// is left alone). A missing room or id is a no-op.
    pub fn clean_spawn_cache(&mut self, msg: &Message)
        requires
            old(self).wf(),
        ensures
            final(self).wf(),
            Self::conns_same(*old(self), *final(self)),
            final(self).clients_map() == old(self).clients_map(),
            Self::rooms_same(*old(self), *final(self)),
            match msg@ {
                MessageView::Destroy { id, scene } => {
                    &&& (final(self).has_cache(scene) <==> old(self).has_cache(scene))
                    &&& (old(self).has_cache(scene) ==> final(self).cache_view(scene)
                        == old(self).cache_view(scene).remove(id))
                    &&& (old(self).has_cache(scene)
                            && !old(self).cache_view(scene).contains_key(id)
                        ==> final(self).cache_seq(scene) == old(self).cache_seq(scene))
                    &&& Self::other_caches_same(*old(self), *final(self), scene)
                },
                _ => Self::caches_same(*old(self), *final(self)),
            },
    {
        match msg {
            Message::Destroy { id, scene } => {
                match self.room_spawn_cache.take(scene) {
                    Some(mut entry) => {
                        entry.remove(id);
                        self.room_spawn_cache.insert(scene.clone(), entry);
                        proof {
                            assert(final(self).cache_view(scene@)
                                =~= old(self).cache_view(scene@).remove(id@));
                        }
                    },
                    None => {},
                }
            },
            _ => {},
        }
    }

    /// The cached `Spawn`s of a room, for replay to a client that has just
    /// joined: exactly the room's live objects, in cache order.
    pub fn send_spawn_cache(&self, scene: &String) -> (msgs: Vec<Message>)
        requires
            self.wf(),
        ensures
            msgs@.len() == if self.has_cache(scene@) { self.cache_seq(scene@).len() } else { 0 },
            forall|i: int| 0 <= i < msgs@.len()
                ==> (#[trigger] msgs@[i])@ == self.cache_seq(scene@)[i].1@,
    {
        let mut msgs: Vec<Message> = Vec::new();
        match self.room_spawn_cache.get(scene) {
            Some(entry) => {
                let n = entry.len();
                let mut i: usize = 0;
                while i < n
                    invariant
                        i <= n,
                        n == entry.kv_seq().len(),
                        entry == self.room_spawn_cache@[scene@],
                        msgs@.len() == i,
                        forall|j: int| 0 <= j < i
                            ==> (#[trigger] msgs@[j])@ == entry.kv_seq()[j].1@,
                    decreases n - i,
                {
                    msgs.push(entry.value_at(i).clone());
                    i = i + 1;
                }
            },
            None => {},
        }
        msgs
    }

    /// Hand `msg` to every member of the room, in member order. An unknown
    /// room has no members: nothing goes out.
    pub fn relay_message(&self, scene: &String, msg: &Message) -> (out: Vec<Outbound>)
        requires
            self.wf(),
        ensures
            out@.len() == if self.has_room(scene@) { self.member_seq(scene@).len() } else { 0 },
            forall|i: int| 0 <= i < out@.len()
                ==> (#[trigger] out@[i]).conn == self.member_seq(scene@)[i].1
                    && out@[i].msg@ == msg@,
    {
        let mut out: Vec<Outbound> = Vec::new();
        match self.rooms.get(scene) {
            Some(room) => {
                let n = room.len();
                let mut i: usize = 0;
                while i < n
                    invariant
                        i <= n,
                        n == room.kv_seq().len(),
                        room == self.rooms@[scene@],
                        out@.len() == i,
                        forall|j: int| 0 <= j < i
                            ==> (#[trigger] out@[j]).conn == room.kv_seq()[j].1
                                && out@[j].msg@ == msg@,
                    decreases n - i,
                {
                    out.push(Outbound { conn: *room.value_at(i), msg: msg.clone() });
                    i = i + 1;
                }
            },
            None => {},
        }
        out
    }

    /// Tear down one connection: mark it disconnected, drop it from the
    /// client table and from its room, send the remaining members a
    /// synthetic `Destroy` for every object the connection owned, and
    /// purge those objects from the room's spawn cache. This is what
    /// keeps a crashed client's objects from outliving it.
    pub fn disconnect_client(&mut self, conn: usize) -> (out: Vec<Outbound>)
        requires
            old(self).wf(),
            conn < old(self).conn_count(),
        ensures
            final(self).wf(),
            final(self).conn_count() == old(self).conn_count(),
            ({
                let pre = *old(self);
                let post = *final(self);
                let id = pre.conn(conn as int).id@;
                let room = pre.conn(conn as int).room@;
                let owned = pre.conn(conn as int).owned_seq();
                &&& post.conn(conn as int).id == pre.conn(conn as int).id
                &&& post.conn(conn as int).room == pre.conn(conn as int).room
                &&& post.conn(conn as int).owned_spawns == pre.conn(conn as int).owned_spawns
                &&& post.conn(conn as int).state == ClientState::Disconnected
                &&& forall|d: int| 0 <= d < pre.conn_count() && d != conn
                    ==> #[trigger] post.conn(d) == pre.conn(d)
                &&& post.clients_map() == pre.clients_map().remove(id)
                &&& (pre.has_room(room) ==> post.has_room(room)
                    && post.members(room) == pre.members(room).remove(id))
                &&& (!pre.has_room(room) ==> !post.has_room(room))
                &&& Self::other_rooms_same(pre, post, room)
                &&& (pre.has_cache(room) ==> post.has_cache(room)
                    && post.cache_view(room)
                        == pre.cache_view(room).remove_keys(pre.conn(conn as int)@.owned))
                &&& (!pre.has_cache(room) ==> !post.has_cache(room))
                &&& Self::other_caches_same(pre, post, room)
                &&& out_pairs(out@) == destroys_for(owned, post.member_seq_or_empty(room), room)
            }),
    {
        let (id, room) = {
            let c = &mut self.conns[conn];
            c.state = ClientState::Disconnected;
            (c.id.clone(), c.room.clone())
        };
        self.clients.remove(&id);
        match self.rooms.take(&room) {
            Some(mut members) => {
                members.remove(&id);
                self.rooms.insert(room.clone(), members);
            },
            None => {},
        }
        let mut owned_ids: Vec<String> = Vec::new();
        let n = {
            let c = &self.conns[conn];
            let n = c.owned_spawns.len();
            let mut i: usize = 0;
            while i < n
                invariant
                    i <= n,
                    n == c.owned_spawns.kv_seq().len(),
                    owned_ids@.len() == i,
                    forall|j: int| 0 <= j < i
                        ==> (#[trigger] owned_ids@[j])@ == c.owned_spawns.kv_seq()[j].0,
                decreases n - i,
            {
                owned_ids.push(c.owned_spawns.key_at(i).clone());
                i = i + 1;
            }
            n
        };
        let ghost owned = old(self).conn(conn as int).owned_seq();
        proof {
            assert(forall|j: int| 0 <= j < owned.len()
                ==> (#[trigger] owned_ids@[j])@ == owned[j]);
        }
        let mut out: Vec<Outbound> = Vec::new();
        let ghost pre_loop = *self;
        let ghost mseq = pre_loop.member_seq_or_empty(room@);
        let mut k: usize = 0;
        proof {
            assert(owned.take(0) =~= Seq::<Seq<char>>::empty());
            assert(owned.take(0).to_set() =~= Set::<Seq<char>>::empty());
            if pre_loop.has_cache(room@) {
                assert(self.cache_view(room@)
                    =~= pre_loop.cache_view(room@).remove_keys(owned.take(0).to_set()));
            }
            assert(out_pairs(out@) =~= destroys_for(owned.take(0), mseq, room@));
        }
        while k < n
            invariant
                k <= n,
                n == owned.len(),
                owned_ids@.len() == n,
                forall|j: int| 0 <= j < n ==> (#[trigger] owned_ids@[j])@ == owned[j],
                self.wf(),
                self.conns == pre_loop.conns,
                self.clients == pre_loop.clients,
                self.rooms == pre_loop.rooms,
                self.room_spawn_cache@.remove(room@)
                    == pre_loop.room_spawn_cache@.remove(room@),
                pre_loop.has_cache(room@) <==> self.has_cache(room@),
                pre_loop.has_cache(room@) ==> self.cache_view(room@)
                    == pre_loop.cache_view(room@).remove_keys(owned.take(k as int).to_set()),
                mseq == self.member_seq_or_empty(room@),
                out_pairs(out@) == destroys_for(owned.take(k as int), mseq, room@),
            decreases n - k,
        {
            proof {
                assert(owned_ids@[k as int]@ == owned[k as int]);
            }
            let destroy = Message::Destroy { id: owned_ids[k].clone(), scene: room.clone() };
            let mut batch = self.relay_message(&room, &destroy);
            let ghost batch_view = batch@;
            proof {
                assert(out_pairs(batch_view)
                    =~= broadcast_pairs(mseq, MessageView::Destroy { id: owned[k as int], scene: room@ }));
            }
            let ghost out_before = out@;
            out.append(&mut batch);
            proof {
                assert(out_pairs(out@) =~= out_pairs(out_before) + out_pairs(batch_view));
                lemma_destroys_for_push(owned.take(k as int), owned[k as int], mseq, room@);
                assert(owned.take(k + 1 as int) =~= owned.take(k as int).push(owned[k as int]));
            }
            let ghost cv_before = self.cache_view(room@);
            match self.room_spawn_cache.take(&room) {
                Some(mut entry) => {
                    entry.remove(&owned_ids[k]);
                    self.room_spawn_cache.insert(room.clone(), entry);
                },
                None => {},
            }
            proof {
                if pre_loop.has_cache(room@) {
                    assert(self.cache_view(room@) =~= cv_before.remove(owned[k as int]));
                    lemma_take_push_to_set(owned, k as int);
                    assert(pre_loop.cache_view(room@).remove_keys(owned.take(k + 1 as int).to_set())
                        =~= cv_before.remove(owned[k as int]));
                }
                assert(self.room_spawn_cache@.remove(room@)
                    =~= pre_loop.room_spawn_cache@.remove(room@));
            }
            k = k + 1;
        }
        proof {
            assert(owned.take(n as int) =~= owned);
            let c = old(self).conn(conn as int);
            c.owned_spawns.lemma_kv_view();
            assert forall|x: Seq<char>| owned.to_set().contains(x)
                implies c@.owned.contains(x) by {
                let j = choose|j: int| 0 <= j < owned.len() && owned[j] == x;
                assert(c.owned_spawns.kv_seq()[j].0 == x);
            }
            assert forall|x: Seq<char>| c@.owned.contains(x)
                implies owned.to_set().contains(x) by {
                let j = choose|j: int| 0 <= j < c.owned_spawns.kv_seq().len()
                    && c.owned_spawns.kv_seq()[j].0 == x;
                assert(owned[j] == x);
                assert(owned.contains(x));
            }
            assert(owned.to_set() =~= c@.owned);
            assert forall|k2: Seq<char>|
                #![trigger old(self).has_cache(k2)]
                #![trigger self.has_cache(k2)]
                k2 != room@ implies (old(self).has_cache(k2) <==> self.has_cache(k2)) by {
                assert(self.room_spawn_cache@.remove(room@).contains_key(k2)
                    == old(self).room_spawn_cache@.remove(room@).contains_key(k2));
            }
            assert forall|k2: Seq<char>|
                #![trigger old(self).cache_seq(k2)]
                #![trigger self.cache_seq(k2)]
                k2 != room@ && old(self).has_cache(k2)
                implies self.cache_seq(k2) == old(self).cache_seq(k2) by {
                assert(self.room_spawn_cache@.remove(room@)[k2]
                    == old(self).room_spawn_cache@.remove(room@)[k2]);
                assert(self.room_spawn_cache@[k2] == old(self).room_spawn_cache@[k2]);
            }
            assert forall|k2: Seq<char>|
                #![trigger old(self).cache_view(k2)]
                #![trigger self.cache_view(k2)]
                k2 != room@ && old(self).has_cache(k2)
                implies self.cache_view(k2) == old(self).cache_view(k2) by {
                assert(self.room_spawn_cache@.remove(room@)[k2]
                    == old(self).room_spawn_cache@.remove(room@)[k2]);
                assert(self.room_spawn_cache@[k2] == old(self).room_spawn_cache@[k2]);
            }
        }
        out
    }

    /// What `Login` does: bind the identity and register it in the global
    /// client table, last writer winning. Nothing goes out.
    pub open spec fn login_post(pre: Self, post: Self, conn: usize, id: Seq<char>) -> bool {
        &&& post.conn_count() == pre.conn_count()
        &&& post.conn(conn as int).id@ == id
        &&& post.conn(conn as int).room == pre.conn(conn as int).room
        &&& post.conn(conn as int).owned_spawns == pre.conn(conn as int).owned_spawns
        &&& post.conn(conn as int).state == pre.conn(conn as int).state
        &&& (forall|d: int| 0 <= d < pre.conn_count() && d != conn
            ==> #[trigger] post.conn(d) == pre.conn(d))
        &&& post.clients_map() == pre.clients_map().insert(id, conn)
        &&& Self::rooms_same(pre, post)
        &&& Self::caches_same(pre, post)
    }

    /// What `Join` does: move the client into the room (created lazily,
    /// leaving any previous room), then replay every cached `Spawn` of that
    /// room to the joining client alone.
    pub open spec fn join_post(pre: Self, post: Self, conn: usize, scene: Seq<char>, out: Seq<(usize, MessageView)>) -> bool {
        let id = pre.conn(conn as int).id@;
        let prev = pre.conn(conn as int).room@;
        &&& post.conn_count() == pre.conn_count()
        &&& post.conn(conn as int).id == pre.conn(conn as int).id
        &&& post.conn(conn as int).room@ == scene
        &&& post.conn(conn as int).owned_spawns == pre.conn(conn as int).owned_spawns
        &&& post.conn(conn as int).state == pre.conn(conn as int).state
        &&& (forall|d: int| 0 <= d < pre.conn_count() && d != conn
            ==> #[trigger] post.conn(d) == pre.conn(d))
        &&& post.clients_map() == pre.clients_map()
        &&& post.has_room(scene)
        &&& post.members(scene) == pre.members_or_empty(scene).insert(id, conn)
        &&& (prev != scene ==> (pre.has_room(prev) <==> post.has_room(prev))
            && (pre.has_room(prev) ==> post.members(prev) == pre.members(prev).remove(id)))
        &&& (forall|k: Seq<char>| k != scene && k != prev
            ==> (pre.has_room(k) <==> post.has_room(k))
                && (pre.has_room(k) ==> #[trigger] post.member_seq(k) == pre.member_seq(k)
                    && post.members(k) == pre.members(k)))
        &&& Self::caches_same(pre, post)
        &&& out.len() == if pre.has_cache(scene) { pre.cache_seq(scene).len() as int } else { 0 }
        &&& (forall|i: int| 0 <= i < out.len() ==> (#[trigger] out[i]).0 == conn
            && out[i].1 == pre.cache_seq(scene)[i].1@)
    }

    /// What `Spawn` does: record ownership with the sending connection,
    /// cache the message in its room, and broadcast it to every member of
    /// the room, the sender included.
    pub open spec fn spawn_post(pre: Self, post: Self, conn: usize, id: Seq<char>, scene: Seq<char>, drawable: Seq<char>, behavior: Option<Seq<char>>, out: Seq<(usize, MessageView)>) -> bool {
        let m = MessageView::Spawn { id, scene, drawable, behavior };
        &&& post.conn_count() == pre.conn_count()
        &&& post.conn(conn as int).id == pre.conn(conn as int).id
        &&& post.conn(conn as int).room == pre.conn(conn as int).room
        &&& post.conn(conn as int).owned_spawns@
            == pre.conn(conn as int).owned_spawns@.insert(id, ())
        &&& post.conn(conn as int).state == pre.conn(conn as int).state
        &&& (forall|d: int| 0 <= d < pre.conn_count() && d != conn
            ==> #[trigger] post.conn(d) == pre.conn(d))
        &&& post.clients_map() == pre.clients_map()
        &&& Self::rooms_same(pre, post)
        &&& post.has_cache(scene)
        &&& post.cache_view(scene) == pre.cache_or_empty(scene).insert(id, m)
        &&& Self::other_caches_same(pre, post, scene)
        &&& out == broadcast_pairs(pre.member_seq_or_empty(scene), m)
    }

    /// What `Destroy` does: release the sender's ownership, drop the object
    /// from the room's cache, and broadcast the message. The server does not
    /// check that the sender owned the id: it trusts the sender and relays,
    /// which is the protocol's stated trust boundary.
    pub open spec fn destroy_post(pre: Self, post: Self, conn: usize, id: Seq<char>, scene: Seq<char>, out: Seq<(usize, MessageView)>) -> bool {
        let m = MessageView::Destroy { id, scene };
        &&& post.conn_count() == pre.conn_count()
        &&& post.conn(conn as int).id == pre.conn(conn as int).id
        &&& post.conn(conn as int).room == pre.conn(conn as int).room
        &&& post.conn(conn as int).owned_spawns@
            == pre.conn(conn as int).owned_spawns@.remove(id)
        &&& post.conn(conn as int).state == pre.conn(conn as int).state
        &&& (forall|d: int| 0 <= d < pre.conn_count() && d != conn
            ==> #[trigger] post.conn(d) == pre.conn(d))
        &&& post.clients_map() == pre.clients_map()
        &&& Self::rooms_same(pre, post)
        &&& (pre.has_cache(scene) <==> post.has_cache(scene))
        &&& (pre.has_cache(scene) ==> post.cache_view(scene) == pre.cache_view(scene).remove(id))
        &&& (pre.has_cache(scene) && !pre.cache_view(scene).contains_key(id)
            ==> post.cache_seq(scene) == pre.cache_seq(scene))
        &&& Self::other_caches_same(pre, post, scene)
        &&& out == broadcast_pairs(pre.member_seq_or_empty(scene), m)
    }

    /// Route one message from connection `conn`, as the per-connection
    /// reader does: bind identity on `Login`, move rooms and replay the
    /// spawn cache on `Join`, record and broadcast `Spawn` and `Destroy`,
    /// and relay `TransformUpdate` verbatim without inspecting ownership.
    /// The returned messages go to the named connections' outbound queues.
    pub fn handle_message(&mut self, conn: usize, msg: Message) -> (out: Vec<Outbound>)
        requires
            old(self).wf(),
            conn < old(self).conn_count(),
        ensures
            final(self).wf(),
            final(self).conn_count() == old(self).conn_count(),
            match msg@ {
                MessageView::Login { id } => Self::login_post(*old(self), *final(self), conn, id)
                    && out@.len() == 0,
                MessageView::Join { scene } => Self::join_post(*old(self), *final(self), conn,
                    scene, out_pairs(out@)),
                MessageView::Spawn { id, scene, drawable, behavior } => Self::spawn_post(
                    *old(self), *final(self), conn, id, scene, drawable, behavior,
                    out_pairs(out@)),
                MessageView::Destroy { id, scene } => Self::destroy_post(*old(self),
                    *final(self), conn, id, scene, out_pairs(out@)),
                MessageView::TransformUpdate { scene, id, t } => *final(self) == *old(self)
                    && out_pairs(out@)
                        == broadcast_pairs(old(self).member_seq_or_empty(scene), msg@),
                MessageView::Leave { .. } => *final(self) == *old(self) && out@.len() == 0,
            },
    {
        match msg {
            Message::Login { id } => {
                {
                    let c = &mut self.conns[conn];
                    c.id = id.clone();
                }
                self.clients.insert(id, conn);
                Vec::new()
            },
            Message::Join { scene } => {
                let (id, prev) = {
                    let c = &mut self.conns[conn];
                    let prev = c.room.clone();
                    c.room = scene.clone();
                    (c.id.clone(), prev)
                };
                match self.rooms.take(&prev) {
                    Some(mut m) => {
                        m.remove(&id);
                        self.rooms.insert(prev.clone(), m);
                    },
                    None => {},
                }
                let mut room = match self.rooms.take(&scene) {
                    Some(m) => m,
                    None => StrMap::new(),
                };
                room.insert(id, conn);
                self.rooms.insert(scene.clone(), room);
                proof {
                    assert(self.members(scene@)
                        =~= old(self).members_or_empty(scene@)
                            .insert(old(self).conn(conn as int).id@, conn));
                }
                let msgs = self.send_spawn_cache(&scene);
                let n = msgs.len();
                let mut out: Vec<Outbound> = Vec::new();
                let mut i: usize = 0;
                while i < n
                    invariant
                        i <= n,
                        n == msgs@.len(),
                        out@.len() == i,
                        forall|j: int| 0 <= j < i ==> (#[trigger] out@[j]).conn == conn
                            && out@[j].msg@ == msgs@[j]@,
                    decreases n - i,
                {
                    out.push(Outbound { conn, msg: msgs[i].clone() });
                    i = i + 1;
                }
                out
            },
            Message::Spawn { id, scene, drawable, behavior } => {
                let spawn = Message::Spawn {
                    id: id.clone(),
                    scene: scene.clone(),
                    drawable,
                    behavior,
                };
                {
                    let c = &mut self.conns[conn];
                    c.owned_spawns.insert(id, ());
                }
                self.fill_spawn_cache(&spawn);
                proof {
                    assert(self.has_room(scene@) <==> old(self).has_room(scene@));
                    if self.has_room(scene@) {
                        assert(self.member_seq(scene@) == old(self).member_seq(scene@));
                    }
                }
                let out = self.relay_message(&scene, &spawn);
                proof {
                    assert(out_pairs(out@)
                        =~= broadcast_pairs(old(self).member_seq_or_empty(scene@), spawn@));
                }
                out
            },
            Message::Destroy { id, scene } => {
                let destroy = Message::Destroy { id: id.clone(), scene: scene.clone() };
                {
                    let c = &mut self.conns[conn];
                    c.owned_spawns.remove(&id);
                }
                self.clean_spawn_cache(&destroy);
                proof {
                    assert(self.has_room(scene@) <==> old(self).has_room(scene@));
                    if self.has_room(scene@) {
                        assert(self.member_seq(scene@) == old(self).member_seq(scene@));
                    }
                }
                let out = self.relay_message(&scene, &destroy);
                proof {
                    assert(out_pairs(out@)
                        =~= broadcast_pairs(old(self).member_seq_or_empty(scene@), destroy@));
                }
                out
            },
            Message::TransformUpdate { scene, id, t } => {
                let m = Message::TransformUpdate { scene: scene.clone(), id, t };
                let out = self.relay_message(&scene, &m);
                proof {
                    assert(out_pairs(out@)
                        =~= broadcast_pairs(old(self).member_seq_or_empty(scene@), m@));
                }
                out
            },
            Message::Leave { .. } => Vec::new(),
        }
    }
}

/// The objects of `scene` still alive after a sequence of spawn and
/// destroy events: each `Spawn` adds its message under its id, each
/// `Destroy` removes the id, and other traffic changes nothing.
pub open spec fn live_after(events: Seq<MessageView>, scene: Seq<char>) -> Map<Seq<char>, MessageView>
    decreases events.len(),
{
    if events.len() == 0 {
        Map::empty()
    } else {
        let rest = live_after(events.drop_last(), scene);
        match events.last() {
            MessageView::Spawn { id, scene: s, .. } => if s == scene {
                rest.insert(id, events.last())
            } else {
                rest
            },
            MessageView::Destroy { id, scene: s } => if s == scene {
                rest.remove(id)
            } else {
                rest
            },
            _ => rest,
        }
    }
}

/// No two connections own the same object id.
pub open spec fn owned_disjoint(s: ServerContext) -> bool {
    forall|c: int, d: int| 0 <= c < s.conn_count() && 0 <= d < s.conn_count() && c != d
        ==> (#[trigger] s.conn(c)@.owned).disjoint(#[trigger] s.conn(d)@.owned)
}

impl ServerContext {
    /// Idempotent destroy: a `Destroy` for an id that is not a live
    /// object of its room, and that its sender does not own, leaves every
    /// room's cache and the sender's ownership exactly as they were — it
    /// is a no-op, not an error.
    pub proof fn lemma_destroy_idempotent(pre: Self, post: Self, conn: usize, id: Seq<char>, scene: Seq<char>, out: Seq<(usize, MessageView)>)
        requires
            Self::destroy_post(pre, post, conn, id, scene, out),
            !pre.cache_or_empty(scene).contains_key(id),
            !pre.conn(conn as int)@.owned.contains(id),
        ensures
            Self::caches_same(pre, post),
            post.conn(conn as int)@.owned == pre.conn(conn as int)@.owned,
    {
        if pre.has_cache(scene) {
            assert(post.cache_view(scene) =~= pre.cache_view(scene));
        }
        assert forall|k: Seq<char>|
            #![trigger pre.cache_seq(k)]
            #![trigger post.cache_seq(k)]
            pre.has_cache(k) implies post.cache_seq(k) == pre.cache_seq(k) by {
        }
        assert forall|k: Seq<char>|
            #![trigger pre.cache_view(k)]
            #![trigger post.cache_view(k)]
            pre.has_cache(k) implies post.cache_view(k) == pre.cache_view(k) by {
            if k == scene {
                assert(post.cache_view(scene) =~= pre.cache_view(scene));
            }
        }
        assert(post.conn(conn as int)@.owned
            =~= pre.conn(conn as int)@.owned);
    }

    /// Ownership exclusivity, spawn step: when no two connections own a
    /// common id and a `Spawn` arrives whose id no other connection owns —
    /// which the spawner's high-entropy id generation is there to ensure —
    /// then after the server records it, still no two connections own a
    /// common id: only the spawner ever holds the new object.
    pub proof fn lemma_ownership_exclusive_spawn(pre: Self, post: Self, conn: usize, id: Seq<char>, scene: Seq<char>, drawable: Seq<char>, behavior: Option<Seq<char>>, out: Seq<(usize, MessageView)>)
        requires
            Self::spawn_post(pre, post, conn, id, scene, drawable, behavior, out),
            owned_disjoint(pre),
            conn < pre.conn_count(),
            forall|c: int| 0 <= c < pre.conn_count() && c != conn
                ==> !(#[trigger] pre.conn(c)@.owned).contains(id),
        ensures
            owned_disjoint(post),
    {
        assert forall|c: int, d: int| 0 <= c < post.conn_count() && 0 <= d < post.conn_count()
            && c != d
            implies (#[trigger] post.conn(c)@.owned).disjoint(#[trigger] post.conn(d)@.owned) by {
            assert(pre.conn(c)@.owned.disjoint(pre.conn(d)@.owned));
            if c == conn {
                assert(post.conn(c)@.owned =~= pre.conn(c)@.owned.insert(id));
                assert(post.conn(d)@.owned == pre.conn(d)@.owned);
                assert forall|x: Seq<char>| post.conn(c)@.owned.contains(x)
                    implies !post.conn(d)@.owned.contains(x) by {
                    if x != id {
                        assert(pre.conn(c)@.owned.contains(x));
                    }
                }
            } else if d == conn {
                assert(post.conn(d)@.owned =~= pre.conn(d)@.owned.insert(id));
                assert(post.conn(c)@.owned == pre.conn(c)@.owned);
                assert forall|x: Seq<char>| post.conn(c)@.owned.contains(x)
                    implies !post.conn(d)@.owned.contains(x) by {
                    assert(x != id);
                }
            } else {
                assert(post.conn(c)@.owned == pre.conn(c)@.owned);
                assert(post.conn(d)@.owned == pre.conn(d)@.owned);
            }
        }
    }

    /// Ownership exclusivity, destroy step: releasing an id can never make
    /// two connections own a common one.
    pub proof fn lemma_ownership_exclusive_destroy(pre: Self, post: Self, conn: usize, id: Seq<char>, scene: Seq<char>, out: Seq<(usize, MessageView)>)
        requires
            Self::destroy_post(pre, post, conn, id, scene, out),
            owned_disjoint(pre),
            conn < pre.conn_count(),
        ensures
            owned_disjoint(post),
    {
        assert forall|c: int, d: int| 0 <= c < post.conn_count() && 0 <= d < post.conn_count()
            && c != d
            implies (#[trigger] post.conn(c)@.owned).disjoint(#[trigger] post.conn(d)@.owned) by {
            assert(pre.conn(c)@.owned.disjoint(pre.conn(d)@.owned));
            assert forall|x: Seq<char>| post.conn(c)@.owned.contains(x)
                implies !post.conn(d)@.owned.contains(x) by {
                assert(pre.conn(c)@.owned.contains(x));
            }
        }
    }

    /// Ownership exclusivity, remaining steps: an operation that leaves
    /// every connection's owned set as it was — `Login`, `Join`, a relay,
    /// a disconnect — cannot make two connections own a common id.
    pub proof fn lemma_ownership_exclusive_unchanged(pre: Self, post: Self)
        requires
            owned_disjoint(pre),
            post.conn_count() == pre.conn_count(),
            forall|c: int| 0 <= c < pre.conn_count()
                ==> (#[trigger] post.conn(c))@.owned == pre.conn(c)@.owned,
        ensures
            owned_disjoint(post),
    {
    }

    /// Cache completeness: starting from a server that has no cache for
    /// the room yet, after any sequence of `Spawn` and `Destroy` messages
    /// the room's spawn cache holds exactly the live objects: each spawned
    /// and not since destroyed id, under its own `Spawn` message.
    pub proof fn lemma_cache_completeness(states: Seq<ServerContext>, conns: Seq<usize>, events: Seq<MessageView>, scene: Seq<char>)
        requires
            states.len() == events.len() + 1,
            conns.len() == events.len(),
            !states[0].has_cache(scene),
            forall|i: int| 0 <= i < events.len() ==> match #[trigger] events[i] {
                MessageView::Spawn { id, scene: s, drawable, behavior } => exists|out: Seq<(usize, MessageView)>|
                    #![trigger Self::spawn_post(states[i], states[i + 1], conns[i], id, s, drawable, behavior, out)]
                    Self::spawn_post(states[i], states[i + 1], conns[i], id, s, drawable,
                        behavior, out),
                MessageView::Destroy { id, scene: s } => exists|out: Seq<(usize, MessageView)>|
                    #![trigger Self::destroy_post(states[i], states[i + 1], conns[i], id, s, out)]
                    Self::destroy_post(states[i], states[i + 1], conns[i], id, s, out),
                _ => false,
            },
        ensures
            states.last().cache_or_empty(scene) == live_after(events, scene),
        decreases events.len(),
    {
        if events.len() == 0 {
            assert(states.last() == states[0]);
            assert(states.last().cache_or_empty(scene) =~= live_after(events, scene));
        } else {
            let n = events.len();
            let prev_states = states.drop_last();
            let prev_conns = conns.drop_last();
            let prev_events = events.drop_last();
            assert forall|i: int| 0 <= i < prev_events.len() implies match #[trigger] prev_events[i] {
                MessageView::Spawn { id, scene: s, drawable, behavior } => exists|out: Seq<(usize, MessageView)>|
                    #![trigger Self::spawn_post(prev_states[i], prev_states[i + 1], prev_conns[i], id, s, drawable, behavior, out)]
                    Self::spawn_post(prev_states[i], prev_states[i + 1], prev_conns[i], id, s,
                        drawable, behavior, out),
                MessageView::Destroy { id, scene: s } => exists|out: Seq<(usize, MessageView)>|
                    #![trigger Self::destroy_post(prev_states[i], prev_states[i + 1], prev_conns[i], id, s, out)]
                    Self::destroy_post(prev_states[i], prev_states[i + 1], prev_conns[i], id, s,
                        out),
                _ => false,
            } by {
                assert(prev_events[i] == events[i]);
                assert(prev_states[i] == states[i]);
                assert(prev_states[i + 1] == states[i + 1]);
                assert(prev_conns[i] == conns[i]);
            }
            Self::lemma_cache_completeness(prev_states, prev_conns, prev_events, scene);
            let pre = states[n - 1];
            let post = states[n as int];
            assert(prev_states.last() == pre);
            assert(states.last() == post);
            let rest = live_after(prev_events, scene);
            assert(pre.cache_or_empty(scene) == rest);
            match events.last() {
                MessageView::Spawn { id, scene: s, drawable, behavior } => {
                    assert(events[n - 1] == events.last());
                    let out = choose|out: Seq<(usize, MessageView)>|
                        #![trigger Self::spawn_post(states[n - 1], states[n as int], conns[n - 1], id, s, drawable, behavior, out)]
                        Self::spawn_post(states[n - 1], states[n as int], conns[n - 1], id, s,
                            drawable, behavior, out);
                    if s == scene {
                        assert(post.cache_view(scene)
                            == pre.cache_or_empty(scene).insert(id, events.last()));
                        assert(post.cache_or_empty(scene) =~= live_after(events, scene));
                    } else {
                        assert(pre.has_cache(scene) <==> post.has_cache(scene));
                        if pre.has_cache(scene) {
                            assert(post.cache_view(scene) == pre.cache_view(scene));
                        }
                        assert(post.cache_or_empty(scene) =~= live_after(events, scene));
                    }
                },
                MessageView::Destroy { id, scene: s } => {
                    assert(events[n - 1] == events.last());
                    let out = choose|out: Seq<(usize, MessageView)>|
                        #![trigger Self::destroy_post(states[n - 1], states[n as int], conns[n - 1], id, s, out)]
                        Self::destroy_post(states[n - 1], states[n as int], conns[n - 1], id, s,
                            out);
                    if s == scene {
                        if pre.has_cache(scene) {
                            assert(post.cache_view(scene) == pre.cache_view(scene).remove(id));
                            assert(post.cache_or_empty(scene) =~= live_after(events, scene));
                        } else {
                            assert(!post.has_cache(scene));
                            assert(rest.remove(id) =~= rest);
                            assert(post.cache_or_empty(scene) =~= live_after(events, scene));
                        }
                    } else {
                        assert(pre.has_cache(scene) <==> post.has_cache(scene));
                        if pre.has_cache(scene) {
                            assert(post.cache_view(scene) == pre.cache_view(scene));
                        }
                        assert(post.cache_or_empty(scene) =~= live_after(events, scene));
                    }
                },
                _ => {
                    assert(false);
                },
            }
        }
    }

    /// How the cache's entry list and its map agree, so that replay
    /// contracts over one can be read through the other.
    pub proof fn lemma_cache_entries(&self, scene: Seq<char>)
        requires
            self.wf(),
            self.has_cache(scene),
        ensures
            forall|i: int| 0 <= i < self.cache_seq(scene).len()
                ==> self.cache_view(scene).contains_key(#[trigger] self.cache_seq(scene)[i].0)
                    && self.cache_view(scene)[self.cache_seq(scene)[i].0]
                        == self.cache_seq(scene)[i].1@,
            forall|k: Seq<char>| #[trigger] self.cache_view(scene).contains_key(k)
                ==> exists|i: int| 0 <= i < self.cache_seq(scene).len()
                    && self.cache_seq(scene)[i].0 == k,
            forall|i: int, j: int| 0 <= i < j < self.cache_seq(scene).len()
                ==> self.cache_seq(scene)[i].0 != self.cache_seq(scene)[j].0,
    {
        let entry = self.room_spawn_cache@[scene];
        entry.lemma_kv_view();
        assert forall|k: Seq<char>| #[trigger] self.cache_view(scene).contains_key(k)
            implies exists|i: int| 0 <= i < self.cache_seq(scene).len()
                && self.cache_seq(scene)[i].0 == k by {
            assert(entry@.contains_key(k));
            let i = choose|i: int| 0 <= i < entry.kv_seq().len() && entry.kv_seq()[i].0 == k;
            assert(self.cache_seq(scene)[i].0 == k);
        }
    }

    /// Join replay is exactly the live set: the messages a joining client
    /// is sent are the cached `Spawn` of each live object of the room,
    /// each exactly once, all addressed to the joiner.
    pub proof fn lemma_join_replays_cache(pre: Self, post: Self, conn: usize, scene: Seq<char>, out: Seq<(usize, MessageView)>)
        requires
            pre.wf(),
            Self::join_post(pre, post, conn, scene, out),
        ensures
            forall|i: int| 0 <= i < out.len() ==> (#[trigger] out[i]).0 == conn,
            forall|i: int| 0 <= i < out.len()
                ==> pre.cache_or_empty(scene).contains_key(#[trigger] pre.cache_seq(scene)[i].0)
                    && out[i].1 == pre.cache_or_empty(scene)[pre.cache_seq(scene)[i].0],
            forall|k: Seq<char>| #[trigger] pre.cache_or_empty(scene).contains_key(k)
                ==> exists|i: int| 0 <= i < out.len() && pre.cache_seq(scene)[i].0 == k
                    && out[i].1 == pre.cache_or_empty(scene)[k],
            forall|i: int, j: int| 0 <= i < j < out.len()
                ==> pre.cache_seq(scene)[i].0 != pre.cache_seq(scene)[j].0,
    {
        if pre.has_cache(scene) {
            pre.lemma_cache_entries(scene);
            assert forall|k: Seq<char>| #[trigger] pre.cache_or_empty(scene).contains_key(k)
                implies exists|i: int| 0 <= i < out.len() && pre.cache_seq(scene)[i].0 == k
                    && out[i].1 == pre.cache_or_empty(scene)[k] by {
                let i = choose|i: int| 0 <= i < pre.cache_seq(scene).len()
                    && pre.cache_seq(scene)[i].0 == k;
                assert(out[i].1 == pre.cache_seq(scene)[i].1@);
            }
        }
    }
}

/// Disconnect cleanup: within the synthetic traffic of a disconnect —
/// `destroys_for` over the leaver's owned ids and the room's remaining
/// members — every member is sent a `Destroy` for every owned id. With
/// `disconnect_client`'s contract, which also removes every owned id from
/// the room's cache, this is what keeps a crashed client's objects from
/// surviving anywhere.
pub proof fn lemma_disconnect_reaches_everyone(owned: Seq<Seq<char>>, members: Seq<(Seq<char>, usize)>, room: Seq<char>)
    ensures
        forall|i: int, j: int| 0 <= i < owned.len() && 0 <= j < members.len()
            ==> destroys_for(owned, members, room).contains(
                (#[trigger] members[j].1, MessageView::Destroy { id: #[trigger] owned[i], scene: room })),
    decreases owned.len(),
{
    if owned.len() > 0 {
        lemma_disconnect_reaches_everyone(owned.drop_first(), members, room);
        let all = destroys_for(owned, members, room);
        let row = broadcast_pairs(members, MessageView::Destroy { id: owned[0], scene: room });
        assert forall|i: int, j: int| 0 <= i < owned.len() && 0 <= j < members.len()
            implies all.contains(
                (#[trigger] members[j].1, MessageView::Destroy { id: #[trigger] owned[i], scene: room })) by {
            let target = (members[j].1, MessageView::Destroy { id: owned[i], scene: room });
            if i == 0 {
                assert(row[j] == target);
                assert(all[j] == target);
                assert(all.contains(target));
            } else {
                assert(owned.drop_first()[i - 1] == owned[i]);
                let rest = destroys_for(owned.drop_first(), members, room);
                assert(rest.contains(target));
                let k = choose|k: int| 0 <= k < rest.len() && rest[k] == target;
                assert(all[row.len() + k] == target);
                assert(all.contains(target));
            }
        }
    }
}

proof fn lemma_take_push_to_set<A>(s: Seq<A>, k: int)
    requires
        0 <= k < s.len(),
    ensures
        s.take(k + 1).to_set() == s.take(k).to_set().insert(s[k]),
{
    assert forall|x: A| #[trigger] s.take(k + 1).to_set().contains(x)
        implies s.take(k).to_set().insert(s[k]).contains(x) by {
        let i = choose|i: int| #![trigger s.take(k + 1)[i]] 0 <= i < k + 1 && s.take(k + 1)[i] == x;
        if i < k {
            assert(s.take(k)[i] == x);
            assert(s.take(k).contains(x));
        } else {
            assert(x == s[k]);
        }
    }
    assert forall|x: A| #[trigger] s.take(k).to_set().insert(s[k]).contains(x)
        implies s.take(k + 1).to_set().contains(x) by {
        if x == s[k] {
            assert(s.take(k + 1)[k] == x);
            assert(s.take(k + 1).contains(x));
        } else {
            let i = choose|i: int| #![trigger s.take(k)[i]] 0 <= i < k && s.take(k)[i] == x;
            assert(s.take(k + 1)[i] == x);
            assert(s.take(k + 1).contains(x));
        }
    }
    assert(s.take(k + 1).to_set() =~= s.take(k).to_set().insert(s[k]));
}

/// The connection and message view of each outbound entry.
pub open spec fn out_pairs(out: Seq<Outbound>) -> Seq<(usize, MessageView)> {
    out.map_values(|o: Outbound| (o.conn, o.msg@))
}

/// One copy of `m` for each member, in member order.
pub open spec fn broadcast_pairs(members: Seq<(Seq<char>, usize)>, m: MessageView) -> Seq<(usize, MessageView)> {
    Seq::new(members.len(), |j: int| (members[j].1, m))
}

/// The synthetic `Destroy` traffic of a disconnect: for each owned id in
/// order, one `Destroy` to each member.
pub open spec fn destroys_for(owned: Seq<Seq<char>>, members: Seq<(Seq<char>, usize)>, room: Seq<char>) -> Seq<(usize, MessageView)>
    decreases owned.len(),
{
    if owned.len() == 0 {
        Seq::empty()
    } else {
        broadcast_pairs(members, MessageView::Destroy { id: owned[0], scene: room })
            + destroys_for(owned.drop_first(), members, room)
    }
}

proof fn lemma_destroys_for_push(owned: Seq<Seq<char>>, v: Seq<char>, members: Seq<(Seq<char>, usize)>, room: Seq<char>)
    ensures
        destroys_for(owned.push(v), members, room)
            == destroys_for(owned, members, room)
                + broadcast_pairs(members, MessageView::Destroy { id: v, scene: room }),
    decreases owned.len(),
{
    if owned.len() == 0 {
        assert(owned.push(v)[0] == v);
        assert(owned.push(v).drop_first() =~= Seq::<Seq<char>>::empty());
        assert(destroys_for(Seq::<Seq<char>>::empty(), members, room)
            == Seq::<(usize, MessageView)>::empty());
        assert(destroys_for(owned.push(v), members, room)
            =~= destroys_for(owned, members, room)
                + broadcast_pairs(members, MessageView::Destroy { id: v, scene: room }));
    } else {
        assert(owned.push(v)[0] == owned[0]);
        assert(owned.push(v).drop_first() =~= owned.drop_first().push(v));
        lemma_destroys_for_push(owned.drop_first(), v, members, room);
        assert(destroys_for(owned.push(v), members, room)
            =~= destroys_for(owned, members, room)
                + broadcast_pairs(members, MessageView::Destroy { id: v, scene: room }));
    }
}

} // verus!
