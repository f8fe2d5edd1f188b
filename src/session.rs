//! Peer registry and connection decisions of the relay: which room a
//! connection joins, the capacity limits, the room lifecycle, and what to send
//! in answer to each frame a peer sends.

use vstd::prelude::*;
use vstd::utf8::*;
use crate::crdt::{import_ok, import_pending, merged_text};
use crate::room::{Room, ApplyOutcome, RejectReason, reject_text, not_sender};
use crate::wire::{self, ClientMsg, client_frame, client_encodable, head_with_payload, bin_value, bin_head, error_body, TAG_SYNC, TAG_ERROR, MAX_LEN};

verus! {

broadcast use vstd::string::group_string_axioms;

/// The room that a connection without an explicit room name joins.
pub open spec fn default_room() -> Seq<char> {
    seq!['d', 'e', 'f', 'a', 'u', 'l', 't']
}

/// Whether `p` starts with the route prefix `/ws/`.
pub open spec fn has_route_prefix(p: Seq<char>) -> bool {
    p.len() >= 4 && p[0] == '/' && p[1] == 'w' && p[2] == 's' && p[3] == '/'
}

/// Position of the first `?` in `s`, or its length when there is none.
pub open spec fn query_start(s: Seq<char>) -> int
    decreases s.len(),
{
    if s.len() == 0 {
        0
    } else if s[0] == '?' {
        0
    } else {
        1 + query_start(s.drop_first())
    }
}

/// The room named by a connection's resource path: the path without a leading
/// `/ws/` and without any query string, or the default room when that is empty.
pub open spec fn room_id_of(p: Seq<char>) -> Seq<char> {
    let rest = if has_route_prefix(p) { p.skip(4) } else { p };
    let id = rest.take(query_start(rest));
    if id.len() == 0 { default_room() } else { id }
}

proof fn lemma_query_start_unique(s: Seq<char>, k: int)
    requires
        0 <= k <= s.len(),
        k < s.len() ==> s[k] == '?',
        forall|i: int| 0 <= i < k ==> s[i] != '?',
    ensures
        query_start(s) == k,
    decreases s.len(),
{
    if s.len() > 0 && s[0] != '?' {
        let t = s.drop_first();
        assert forall|i: int| 0 <= i < k - 1 implies t[i] != '?' by {
            assert(t[i] == s[i + 1]);
        }
        lemma_query_start_unique(t, k - 1);
    }
}

/// Extracts the room identifier from a connection's resource path.
pub fn extract_room_id(path: &str) -> (r: String)
    ensures
        r@ == room_id_of(path@),
{
    let chars = crate::text::chars_of(path);
    let n = chars.len();
    let start: usize = if n >= 4 && chars[0] == '/' && chars[1] == 'w' && chars[2] == 's'
        && chars[3] == '/' {
        4
    } else {
        0
    };
    let ghost rest = if has_route_prefix(path@) { path@.skip(4) } else { path@ };
    let mut end: usize = start;
    while end < n && chars[end] != '?'
        invariant
            start <= end <= n,
            n == chars@.len(),
            chars@ == path@,
            rest == path@.skip(start as int),
            forall|i: int| start <= i < end ==> chars@[i] != '?',
        decreases n - end,
    {
        end = end + 1;
    }
    proof {
        lemma_query_start_unique(rest, end - start);
    }
    if end == start {
        let r = String::from_str("default");
        proof {
            reveal_strlit("default");
            assert(r@ =~= default_room());
        }
        r
    } else {
        let r = path.substring_char(start, end).to_owned();
        assert(r@ =~= rest.take(query_start(rest)));
        r
    }
}

proof fn lemma_index_of_unique(s: Seq<Seq<char>>, k: int)
    requires
        s.no_duplicates(),
        0 <= k < s.len(),
    ensures
        s.index_of(s[k]) == k,
{
    assert(s.contains(s[k]));
    let j = s.index_of(s[k]);
    assert(s[j] == s[k]);
}

/// `peers` with `p` added unless it is there already.
pub open spec fn with_peer(peers: Seq<u128>, p: u128) -> Seq<u128> {
    if peers.contains(p) {
        peers
    } else {
        peers.push(p)
    }
}

proof fn lemma_encode_len_bound(s: Seq<char>)
    ensures
        encode_utf8(s).len() <= 4 * s.len(),
    decreases s.len(),
{
    if s.len() > 0 {
        lemma_encode_len_bound(s.drop_first());
    }
}

proof fn lemma_bin_value_len(a: Seq<u8>, b: Seq<u8>)
    requires
        a.len() <= MAX_LEN,
        b.len() <= MAX_LEN,
        bin_value(a).len() == bin_value(b).len(),
    ensures
        a.len() == b.len(),
{
}

/// Two client frames that are equal carry the same kind of message, and an
/// update of the same length.
proof fn lemma_frame_kinds(decoded: ClientMsg, frame: Seq<u8>)
    requires
        client_frame(decoded) == frame,
    ensures
        forall|m: ClientMsg|
            #![trigger client_frame(m)]
            client_encodable(m) && client_frame(m) == frame ==> (m is SyncRequest <==> decoded is SyncRequest)
                && (m is Update <==> decoded is Update) && (m is Awareness <==> decoded is Awareness)
                && (m is Update && client_encodable(decoded) ==> m->Update_0@ == decoded->Update_0@),
{
    assert forall|m: ClientMsg|
        #![trigger client_frame(m)]
        client_encodable(m) && client_frame(m) == frame implies (m is SyncRequest <==> decoded is SyncRequest)
            && (m is Update <==> decoded is Update) && (m is Awareness <==> decoded is Awareness)
            && (m is Update && client_encodable(decoded) ==> m->Update_0@ == decoded->Update_0@) by {
        assert(client_frame(m)[4] == frame[4]);
        match m {
            ClientMsg::SyncRequest => {},
            ClientMsg::Update(u) => {
                match decoded {
                    ClientMsg::Update(w) => {
                        if client_encodable(decoded) {
                            assert(bin_value(u@).len() == frame.len() - 7);
                            assert(bin_value(w@).len() == frame.len() - 7);
                            lemma_bin_value_len(u@, w@);
                            let h = bin_head(u@.len()).len() as int;
                            assert(bin_value(u@).skip(h) =~= u@);
                            assert(bin_value(w@).skip(h) =~= w@);
                            assert(frame.skip(7) =~= bin_value(u@));
                            assert(frame.skip(7) =~= bin_value(w@));
                        }
                    },
                    _ => {},
                }
            },
            ClientMsg::Awareness(v) => {},
        }
    }
}

/// Both registries hold the same rooms, with the same peers and documents,
/// under the same limits.
pub open spec fn same_rooms(a: Registry, b: Registry) -> bool {
    &&& a.room_count() == b.room_count()
    &&& a.max_peers() == b.max_peers()
    &&& a.max_room_count() == b.max_room_count()
    &&& a.max_size() == b.max_size()
    &&& forall|o: Seq<char>| a.has_room(o) == b.has_room(o)
    &&& forall|o: Seq<char>| b.has_room(o) ==> a.room(o) == b.room(o)
}

/// Server limits and listening address.
pub struct Config {
    pub bind_addr: String,
    pub max_peers_per_room: usize,
    pub max_rooms: usize,
    pub max_doc_size: usize,
}

/// The default per-room peer limit.
pub const DEFAULT_MAX_PEERS: usize = 8;
/// The default limit on concurrent rooms.
pub const DEFAULT_MAX_ROOMS: usize = 1_000_000;
/// The default maximum canonical document size in bytes (10 MiB).
pub const DEFAULT_MAX_DOC_SIZE: usize = 10485760;

impl Config {
    /// The default configuration.
    pub fn defaults() -> (r: Config)
        ensures
            r.bind_addr@ == "127.0.0.1:8080"@,
            r.max_peers_per_room == 8,
            r.max_rooms == 1_000_000,
            r.max_doc_size == 10 * 1024 * 1024,
    {
        Config {
            bind_addr: String::from_str("127.0.0.1:8080"),
            max_peers_per_room: DEFAULT_MAX_PEERS,
            max_rooms: DEFAULT_MAX_ROOMS,
            max_doc_size: DEFAULT_MAX_DOC_SIZE,
        }
    }
}

/// Why a connection was turned away.
#[derive(Debug, Clone, Copy, PartialEq, Eq, Structural)]
pub enum JoinError {
    /// The room would be new and the room limit is reached.
    RoomLimit,
    /// The room's peer limit is reached.
    RoomFull,
}

/// What the connection's handler sends after a frame.
#[derive(Debug)]
pub enum Reply {
    /// Nothing to send.
    Nothing,
    /// Bytes for the sending peer alone.
    Unicast(Vec<u8>),
    /// Bytes for every other peer of the room.
    Broadcast(Vec<u8>),
}

/// Whether a broadcast from `sender` goes out to `receiver`: never back to its
/// originator.
pub fn should_deliver(sender: u128, receiver: u128) -> (r: bool)
    ensures
        r == (sender != receiver),
{
    sender != receiver
}

/// The rooms of a server, each present exactly while it has a peer.
pub struct Registry {
    names: Vec<String>,
    rooms: Vec<Room>,
    max_peers_per_room: usize,
    max_rooms: usize,
    max_doc_size: usize,
}

/// The code of the error that a rejected update brings back.
pub open spec fn rejected_code() -> Seq<char> {
    "UPDATE_REJECTED"@
}

/// The frame that tells a peer its update was rejected for `reason`.
pub open spec fn rejection_frame(reason: RejectReason) -> Seq<u8> {
    head_with_payload(TAG_ERROR) + error_body(
        encode_utf8(rejected_code()),
        encode_utf8(reject_text(reason)),
    )
}

impl Registry {
    /// The room names, in order of creation.
    pub closed spec fn names(&self) -> Seq<Seq<char>> {
        self.names@.map_values(|n: String| n@)
    }

    /// Whether a room of this name exists.
    pub open spec fn has_room(&self, name: Seq<char>) -> bool {
        self.names().contains(name)
    }

    /// The room of this name, where it exists.
    pub closed spec fn room(&self, name: Seq<char>) -> Room {
        self.rooms@[self.names().index_of(name)]
    }

    /// The number of rooms.
    pub closed spec fn room_count(&self) -> nat {
        self.rooms@.len()
    }

    pub closed spec fn max_peers(&self) -> nat {
        self.max_peers_per_room as nat
    }

    pub closed spec fn max_room_count(&self) -> nat {
        self.max_rooms as nat
    }

    pub closed spec fn max_size(&self) -> nat {
        self.max_doc_size as nat
    }

    /// Names are unique, and every room is well formed and has a peer.
    pub closed spec fn wf(&self) -> bool {
        &&& self.names@.len() == self.rooms@.len()
        &&& self.names().no_duplicates()
        &&& forall|i: int| 0 <= i < self.rooms@.len() ==> #[trigger] self.rooms@[i].wf()
            && self.rooms@[i].peers().len() > 0
    }

    /// An empty registry with the given limits.
    pub fn new(config: &Config) -> (r: Registry)
        ensures
            r.wf(),
            r.room_count() == 0,
            forall|n: Seq<char>| !r.has_room(n),
            r.max_peers() == config.max_peers_per_room,
            r.max_room_count() == config.max_rooms,
            r.max_size() == config.max_doc_size,
    {
        let r = Registry {
            names: Vec::new(),
            rooms: Vec::new(),
            max_peers_per_room: config.max_peers_per_room,
            max_rooms: config.max_rooms,
            max_doc_size: config.max_doc_size,
        };
        assert(r.names() =~= Seq::<Seq<char>>::empty());
        r
    }

    /// The number of rooms.
    pub fn len(&self) -> (r: usize)
        ensures
            r == self.room_count(),
    {
        self.rooms.len()
    }

    fn find(&self, name: &String) -> (r: Option<usize>)
        requires
            self.wf(),
        ensures
            r matches Some(i) ==> i < self.rooms@.len() && self.names().index_of(name@) == i
                && self.has_room(name@),
            r is None ==> !self.has_room(name@),
    {
        let mut i: usize = 0;
        while i < self.names.len()
            invariant
                i <= self.names@.len(),
                self.wf(),
                forall|k: int| 0 <= k < i ==> self.names()[k] != name@,
            decreases self.names@.len() - i,
        {
            if self.names[i] == *name {
                proof {
                    assert(self.names()[i as int] == name@);
                    assert(self.has_room(name@));
                    let j = self.names().index_of(name@);
                    assert(self.names()[j] == name@);
                }
                return Some(i);
            }
            i = i + 1;
        }
        proof {
            if self.has_room(name@) {
                let j = self.names().index_of(name@);
                assert(self.names()[j] == name@);
            }
        }
        None
    }

    /// Admits `peer` to the named room, creating the room when it does not
    /// exist. Both limits are checked before anything changes: a new room is
    /// refused at the room limit, and any room at its peer limit.
    pub fn join(&mut self, name: &str, peer: u128) -> (r: Result<usize, JoinError>)
        requires
            old(self).wf(),
        ensures
            final(self).wf(),
            final(self).max_peers() == old(self).max_peers(),
            final(self).max_room_count() == old(self).max_room_count(),
            final(self).max_size() == old(self).max_size(),
            r == Err::<usize, JoinError>(JoinError::RoomLimit) <==> (!old(self).has_room(name@)
                && old(self).room_count() >= old(self).max_room_count()),
            r == Err::<usize, JoinError>(JoinError::RoomFull) <==> ((old(self).has_room(name@)
                && old(self).room(name@).peers().len() >= old(self).max_peers()) || (!old(self).has_room(name@) && old(self).room_count() < old(self).max_room_count() && old(self).max_peers() == 0)),
            r is Err ==> same_rooms(*final(self), *old(self)),
            r matches Ok(n) ==> final(self).has_room(name@) && n == final(self).room(
                name@,
            ).peers().len(),
            r is Ok && old(self).has_room(name@) ==> final(self).room(name@).peers() == with_peer(
                old(self).room(name@).peers(),
                peer,
            ) && final(self).room(name@).doc() == old(self).room(name@).doc()
                && final(self).room_count() == old(self).room_count(),
            r is Ok && !old(self).has_room(name@) ==> final(self).room(name@).peers() == seq![peer]
                && final(self).room(name@).text() == Seq::<char>::empty() && final(self).room_count() == old(self).room_count() + 1,
            forall|o: Seq<char>|
                o != name@ ==> (final(self).has_room(o) == old(self).has_room(o) && (old(self).has_room(o) ==> final(self).room(o) == old(self).room(o))),
    {
        let key = name.to_owned();
        match self.find(&key) {
            Some(i) => {
                if self.rooms[i].peer_count() >= self.max_peers_per_room {
                    return Err(JoinError::RoomFull);
                }
                let ghost before = self.rooms@;
                let ghost nm = self.names();
                let mut room = self.rooms.remove(i);
                let n = room.add_peer(peer);
                self.rooms.insert(i, room);
                proof {
                    assert(self.rooms@ =~= before.update(i as int, room));
                    assert(self.names() == nm);
                    assert forall|o: Seq<char>| o != name@ && self.has_room(o) implies self.room(o)
                        == before[nm.index_of(o)] by {
                        let k = nm.index_of(o);
                        assert(nm[k] == o);
                        assert(k != i);
                    }
                    assert forall|j: int| 0 <= j < self.rooms@.len() implies #[trigger] self.rooms@[j].wf()
                        && self.rooms@[j].peers().len() > 0 by {
                        if j != i {
                            assert(self.rooms@[j] == before[j]);
                        }
                    }
                }
                Ok(n)
            },
            None => {
                if self.rooms.len() >= self.max_rooms {
                    return Err(JoinError::RoomLimit);
                }
                if self.max_peers_per_room == 0 {
                    return Err(JoinError::RoomFull);
                }
                let ghost before = self.rooms@;
                let ghost nm = self.names();
                let mut room = Room::new();
                let n = room.add_peer(peer);
                assert(room.peers() =~= seq![peer]);
                self.names.push(key);
                self.rooms.push(room);
                proof {
                    assert(self.names() =~= nm.push(name@));
                    assert(self.names().no_duplicates()) by {
                        assert forall|a: int, b: int| 0 <= a < b < self.names().len() implies self.names()[a]
                            != self.names()[b] by {
                            if b == nm.len() {
                                assert(nm.contains(nm[a]));
                            }
                        }
                    }
                    lemma_index_of_unique(self.names(), nm.len() as int);
                    assert forall|o: Seq<char>| o != name@ && nm.contains(o) implies self.room(o)
                        == before[nm.index_of(o)] by {
                        let k = nm.index_of(o);
                        assert(nm[k] == o);
                        assert(self.names()[k] == o);
                        lemma_index_of_unique(self.names(), k);
                    }
                    assert forall|o: Seq<char>| o != name@ implies (self.has_room(o) == nm.contains(o)) by {
                        if self.has_room(o) {
                            let k = self.names().index_of(o);
                            assert(self.names()[k] == o);
                            assert(k < nm.len());
                            assert(nm[k] == o);
                        }
                        if nm.contains(o) {
                            let k = nm.index_of(o);
                            assert(self.names()[k] == o);
                        }
                    }
                    assert forall|j: int| 0 <= j < self.rooms@.len() implies #[trigger] self.rooms@[j].wf()
                        && self.rooms@[j].peers().len() > 0 by {
                        if j < before.len() {
                            assert(self.rooms@[j] == before[j]);
                        }
                    }
                }
                Ok(n)
            },
        }
    }

    /// Deregisters `peer` from the named room; the room is removed at once when
    /// this leaves it without peers. Returns the number of peers left.
    pub fn leave(&mut self, name: &str, peer: u128) -> (r: usize)
        requires
            old(self).wf(),
        ensures
            final(self).wf(),
            final(self).max_peers() == old(self).max_peers(),
            final(self).max_room_count() == old(self).max_room_count(),
            final(self).max_size() == old(self).max_size(),
            !old(self).has_room(name@) ==> r == 0 && same_rooms(*final(self), *old(self)),
            old(self).has_room(name@) && r == 0 ==> !final(self).has_room(name@)
                && final(self).room_count() == old(self).room_count() - 1,
            old(self).has_room(name@) && r > 0 ==> final(self).has_room(name@) && r == final(self).room(name@).peers().len() && !final(self).room(name@).peers().contains(peer)
                && final(self).room(name@).doc() == old(self).room(name@).doc()
                && final(self).room_count() == old(self).room_count(),
            old(self).has_room(name@) ==> forall|p: u128|
                p != peer ==> (old(self).room(name@).peers().contains(p) <==> (final(self).has_room(name@)
                    && final(self).room(name@).peers().contains(p))),
            forall|o: Seq<char>|
                o != name@ ==> (final(self).has_room(o) == old(self).has_room(o) && (old(self).has_room(o) ==> final(self).room(o) == old(self).room(o))),
    {
        let key = name.to_owned();
        match self.find(&key) {
            None => 0,
            Some(i) => {
                let ghost before = self.rooms@;
                let ghost nm = self.names();
                let mut room = self.rooms.remove(i);
                let left = room.remove_peer(peer);
                if left > 0 {
                    self.rooms.insert(i, room);
                    proof {
                        assert(self.rooms@ =~= before.update(i as int, room));
                        assert(self.names() == nm);
                        assert forall|o: Seq<char>| o != name@ && self.has_room(o) implies self.room(o)
                            == before[nm.index_of(o)] by {
                            let k = nm.index_of(o);
                            assert(nm[k] == o);
                            assert(k != i);
                        }
                        assert forall|j: int| 0 <= j < self.rooms@.len() implies #[trigger] self.rooms@[j].wf()
                            && self.rooms@[j].peers().len() > 0 by {
                            if j != i {
                                assert(self.rooms@[j] == before[j]);
                                assert(old(self).rooms@[j].wf());
                            }
                        }
                    }
                    left
                } else {
                    let ghost names_before = self.names@;
                    self.names.remove(i);
                    proof {
                        assert(self.names@ =~= names_before.remove(i as int));
                        assert(self.names() =~= nm.remove(i as int));
                        assert(self.rooms@ =~= before.remove(i as int));
                        let t = self.names();
                        assert(t.no_duplicates()) by {
                            assert forall|a: int, b: int| 0 <= a < b < t.len() implies t[a] != t[b] by {
                                let sa = if a < i { a } else { a + 1 };
                                let sb = if b < i { b } else { b + 1 };
                                assert(t[a] == nm[sa] && t[b] == nm[sb]);
                            }
                        }
                        assert(!t.contains(name@)) by {
                            if t.contains(name@) {
                                let k = t.index_of(name@);
                                let sk = if k < i { k } else { k + 1 };
                                assert(nm[sk] == name@);
                                assert(nm[i as int] == name@);
                            }
                        }
                        assert forall|o: Seq<char>| o != name@ implies (t.contains(o) == nm.contains(o) && (nm.contains(o) ==> self.room(o) == before[nm.index_of(o)])) by {
                            if nm.contains(o) {
                                let k = nm.index_of(o);
                                assert(nm[k] == o);
                                assert(k != i);
                                let tk = if k < i { k } else { k - 1 };
                                assert(t[tk] == o);
                                lemma_index_of_unique(t, tk);
                                assert(self.rooms@[tk] == before[k]);
                            }
                            if t.contains(o) {
                                let k = t.index_of(o);
                                let sk = if k < i { k } else { k + 1 };
                                assert(nm[sk] == o);
                            }
                        }
                        assert forall|j: int| 0 <= j < self.rooms@.len() implies #[trigger] self.rooms@[j].wf()
                            && self.rooms@[j].peers().len() > 0 by {
                            let sj = if j < i { j } else { j + 1 };
                            assert(self.rooms@[j] == before[sj]);
                            assert(old(self).rooms@[sj].wf());
                        }
                        assert(self.names@.len() == self.rooms@.len());
                        assert(self.wf());
                        assert forall|p: u128| p != peer implies !before[i as int].peers().contains(p) by {
                            if before[i as int].peers().contains(p) {
                                assert(room.peers().contains(p));
                                assert(room.peers().len() == 0);
                            }
                        }
                    }
                    0
                }
            },
        }
    }

    /// Decides what a frame from `peer` in the named room leads to. A sync
    /// request is answered with the room's snapshot; an update goes through
    /// the room authority and, once committed, is relayed to the other peers
    /// unchanged, while a rejected one is answered with an error; awareness is
    /// relayed unchanged; an undecodable frame is dropped.
    pub fn handle_frame(&mut self, name: &str, peer: u128, frame: &[u8]) -> (r: Reply)
        requires
            old(self).wf(),
        ensures
            final(self).wf(),
            final(self).max_peers() == old(self).max_peers(),
            final(self).max_room_count() == old(self).max_room_count(),
            final(self).max_size() == old(self).max_size(),
            forall|o: Seq<char>| final(self).has_room(o) == old(self).has_room(o),
            forall|o: Seq<char>|
                o != name@ && old(self).has_room(o) ==> final(self).room(o) == old(self).room(o),
            old(self).has_room(name@) ==> final(self).room(name@).peers() == old(self).room(name@).peers(),
            (forall|m: ClientMsg| client_encodable(m) ==> client_frame(m) != frame@) ==> r is Nothing
                && same_rooms(*final(self), *old(self)),
            !old(self).has_room(name@) ==> r is Nothing && same_rooms(*final(self), *old(self)),
            frame@ == client_frame(ClientMsg::SyncRequest) && old(self).has_room(name@) ==> same_rooms(*final(self), *old(self))
                && (r matches Reply::Unicast(b) && (old(self).room(name@).snapshot().len() <= MAX_LEN
                ==> b@ == head_with_payload(TAG_SYNC) + bin_value(old(self).room(name@).snapshot()))),
            forall|m: ClientMsg|
                #![trigger client_frame(m)]
                m is Update && client_encodable(m) && client_frame(m) == frame@ && old(self).has_room(name@)
                    ==> {
                    &&& old(self).room(name@).snapshot().len() + m->Update_0@.len() > old(self).max_size()
                        ==> same_rooms(*final(self), *old(self)) && (r matches Reply::Unicast(b) && b@
                        == rejection_frame(RejectReason::SizeLimit))
                    &&& old(self).room(name@).snapshot().len() + m->Update_0@.len() <= old(self).max_size()
                        ==> {
                        let room = old(self).room(name@);
                        let u = m->Update_0@;
                        &&& !import_ok(room.doc(), u) ==> (r matches Reply::Unicast(b) && b@
                            == rejection_frame(RejectReason::Merge))
                        &&& import_ok(room.doc(), u) && (final(self).room(name@).version() != room.version()
                            || import_pending(room.doc(), u)) ==> (r matches Reply::Broadcast(b) && b@ == frame@)
                        &&& import_ok(room.doc(), u) && final(self).room(name@).version() == room.version()
                            && !import_pending(room.doc(), u) ==> r is Nothing
                        &&& import_ok(room.doc(), u) ==> final(self).room(name@).text() == merged_text(room.doc(), u)
                    }
                    &&& r matches Reply::Broadcast(b) ==> b@ == frame@
                    &&& r matches Reply::Unicast(b) ==> b@ == rejection_frame(RejectReason::SizeLimit)
                        || b@ == rejection_frame(RejectReason::Merge)
                    &&& r is Nothing ==> final(self).room(name@).version() == old(self).room(name@).version()
                },
            forall|m: ClientMsg|
                #![trigger client_frame(m)]
                m is Awareness && client_frame(m) == frame@ && old(self).has_room(name@) ==> *final(self)
                    == *old(self) && (r matches Reply::Broadcast(b) && b@ == frame@),
    {
        let msg = match wire::parse_message(frame) {
            Some(m) => m,
            None => {
                return Reply::Nothing;
            },
        };
        let key = name.to_owned();
        let i = match self.find(&key) {
            Some(i) => i,
            None => {
                return Reply::Nothing;
            },
        };
        proof {
            assert(self.rooms@[i as int].wf());
            lemma_frame_kinds(msg, frame@);
        }
        match msg {
            ClientMsg::SyncRequest => {
                let snapshot = self.rooms[i].export_snapshot();
                Reply::Unicast(wire::build_sync_response(snapshot))
            },
            ClientMsg::Update(u) => {
                let ghost before = self.rooms@;
                let mut room = self.rooms.remove(i);
                let outcome = room.apply_update(u.as_slice(), self.max_doc_size);
                self.rooms.insert(i, room);
                proof {
                    assert(self.rooms@ =~= before.update(i as int, room));
                    assert forall|o: Seq<char>| o != name@ && self.has_room(o) implies self.room(o)
                        == before[self.names().index_of(o)] by {
                        let k = self.names().index_of(o);
                        assert(self.names()[k] == o);
                        assert(k != i);
                    }
                    assert forall|j: int| 0 <= j < self.rooms@.len() implies #[trigger] self.rooms@[j].wf()
                        && self.rooms@[j].peers().len() > 0 by {
                        if j != i {
                            assert(self.rooms@[j] == before[j]);
                            assert(old(self).rooms@[j].wf());
                        }
                    }
                    if outcome == ApplyOutcome::Rejected(RejectReason::SizeLimit) {
                        assert(self.rooms@ =~= before);
                        assert(self.names() == old(self).names());
                    }
                }
                match outcome {
                    ApplyOutcome::Applied => {
                        let b = wire::build_update(u.as_slice());
                        assert(b@ == frame@);
                        Reply::Broadcast(b)
                    },
                    ApplyOutcome::Duplicate => Reply::Nothing,
                    ApplyOutcome::Rejected(reason) => {
                        let code = String::from_str("UPDATE_REJECTED");
                        let message = reason.message();
                        proof {
                            reveal_strlit("UPDATE_REJECTED");
                            reveal_strlit("Document size limit exceeded");
                            reveal_strlit("Failed to import update");
                            lemma_encode_len_bound(code@);
                            lemma_encode_len_bound(message@);
                        }
                        let b = wire::build_error(code.as_str(), message.as_str());
                        assert(b@ == rejection_frame(reason));
                        Reply::Unicast(b)
                    },
                }
            },
            ClientMsg::Awareness(v) => Reply::Broadcast(wire::build_awareness(v.as_slice())),
        }
    }

    /// The peers of the named room that a broadcast from `sender` reaches.
    pub fn recipients(&self, name: &str, sender: u128) -> (r: Vec<u128>)
        requires
            self.wf(),
        ensures
            self.has_room(name@) ==> r@ == self.room(name@).peers().filter(not_sender(sender)),
            !self.has_room(name@) ==> r@.len() == 0,
    {
        let key = name.to_owned();
        match self.find(&key) {
            Some(i) => self.rooms[i].recipients(sender),
            None => Vec::new(),
        }
    }

    /// Admits a new connection whose resource path is `path`: the room named
    /// by the path gets a freshly drawn peer id. Returns the room name and the id.
    pub fn connect(&mut self, path: &str) -> (r: Result<(String, u128), JoinError>)
        requires
            old(self).wf(),
        ensures
            final(self).wf(),
            r matches Ok((name, id)) ==> name@ == room_id_of(path@) && final(self).has_room(name@)
                && final(self).room(name@).peers().contains(id),
            r == Err::<(String, u128), JoinError>(JoinError::RoomLimit) <==> (!old(self).has_room(
                room_id_of(path@),
            ) && old(self).room_count() >= old(self).max_room_count()),
            r == Err::<(String, u128), JoinError>(JoinError::RoomFull) <==> ((old(self).has_room(
                room_id_of(path@),
            ) && old(self).room(room_id_of(path@)).peers().len() >= old(self).max_peers()) || (!old(self).has_room(room_id_of(path@)) && old(self).room_count() < old(self).max_room_count()
                && old(self).max_peers() == 0)),
            r is Err ==> same_rooms(*final(self), *old(self)),
            r matches Ok((name, id)) ==> final(self).room(name@).peers() == if old(self).has_room(name@) {
                with_peer(old(self).room(name@).peers(), id)
            } else {
                seq![id]
            },
    {
        let name = extract_room_id(path);
        let id = crate::ids::fresh_id();
        match self.join(name.as_str(), id) {
            Ok(_) => {
                proof {
                    if !old(self).has_room(name@) {
                        assert(seq![id][0] == id);
                    } else if !old(self).room(name@).peers().contains(id) {
                        let p = old(self).room(name@).peers().push(id);
                        assert(p[p.len() - 1] == id);
                    }
                }
                Ok((name, id))
            },
            Err(e) => Err(e),
        }
    }

    /// The number of peers in the named room (zero when there is none).
    pub fn peer_count(&self, name: &str) -> (r: usize)
        requires
            self.wf(),
        ensures
            self.has_room(name@) ==> r == self.room(name@).peers().len(),
            !self.has_room(name@) ==> r == 0,
    {
        let key = name.to_owned();
        match self.find(&key) {
            Some(i) => self.rooms[i].peer_count(),
            None => 0,
        }
    }
}

} // verus!
