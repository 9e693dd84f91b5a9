//! The room registry and the signaling relay.
//!
//! `SimpleSfuManager` owns every room and connection record and dispatches
//! inbound envelopes: it mutates the registry as the message demands and
//! returns the ordered list of outbound envelopes for the transport layer to
//! deliver.

use vstd::prelude::*;

use crate::signaling::{
    DataModel, MessageData, MissingField, MsgModel, SignalingMessage, SignalingMessageType,
    ice_msg, leave_msg, offer_msg,
};

verus! {

/// A room: at most one sender, any number of viewers, and the sender's most
/// recent session description, cached to catch up late-joining viewers.
#[derive(Clone, Debug)]
pub struct SimpleSfuRoom {
    pub id: String,
    pub sender_id: Option<String>,
    pub viewer_ids: Vec<String>,
    pub sender_sdp: Option<String>,
}

/// Mathematical model of a room.
pub ghost struct RoomModel {
    pub id: Seq<char>,
    pub sender_id: Option<Seq<char>>,
    pub viewer_ids: Seq<Seq<char>>,
    pub sender_sdp: Option<Seq<char>>,
}

impl RoomModel {
    /// Viewer ids never repeat within one room.
    pub open spec fn wf(self) -> bool {
        forall|i: int, j: int|
            0 <= i < j < self.viewer_ids.len() ==> self.viewer_ids[i] != self.viewer_ids[j]
    }

    /// A room with no members and no cached description.
    pub open spec fn empty(id: Seq<char>) -> RoomModel {
        RoomModel { id, sender_id: None, viewer_ids: Seq::empty(), sender_sdp: None }
    }
}

impl View for SimpleSfuRoom {
    type V = RoomModel;

    open spec fn view(&self) -> RoomModel {
        RoomModel {
            id: self.id@,
            sender_id: self.sender_id.deep_view(),
            viewer_ids: self.viewer_ids.deep_view(),
            sender_sdp: self.sender_sdp.deep_view(),
        }
    }
}

/// A connection: its role is fixed at creation; the most recent offer and
/// answer seen for it are cached so the surrounding system can retrieve them.
#[derive(Clone, Debug)]
pub struct SimpleSfuConnection {
    pub id: String,
    pub is_sender: bool,
    pub sdp_offer: Option<String>,
    pub sdp_answer: Option<String>,
}

/// Mathematical model of a connection.
pub ghost struct ConnModel {
    pub id: Seq<char>,
    pub is_sender: bool,
    pub sdp_offer: Option<Seq<char>>,
    pub sdp_answer: Option<Seq<char>>,
}

impl View for SimpleSfuConnection {
    type V = ConnModel;

    open spec fn view(&self) -> ConnModel {
        ConnModel {
            id: self.id@,
            is_sender: self.is_sender,
            sdp_offer: self.sdp_offer.deep_view(),
            sdp_answer: self.sdp_answer.deep_view(),
        }
    }
}

/// Relies on `uuid::Uuid::new_v4` and `Uuid`'s `Display` impl: a freshly
/// generated version-4 identifier rendered in the hyphenated form, which is
/// always 36 characters long.  The value itself is random, so nothing more is
/// promised of it.
#[verifier::external_body]
fn fresh_offer_id() -> (r: String)
    ensures
        r@.len() == 36,
{
    uuid::Uuid::new_v4().to_string()
}

/// Whether `v` holds a string whose characters are `x`'s.
fn vec_contains_string(v: &Vec<String>, x: &String) -> (r: bool)
    ensures
        r == v.deep_view().contains(x@),
{
    let n = v.len();
    let mut i: usize = 0;
    while i < n
        invariant
            i <= n,
            n == v@.len(),
            forall|j: int| 0 <= j < i ==> v.deep_view()[j] != x@,
        decreases n - i,
    {
        if v[i] == *x {
            proof {
                assert(v.deep_view()[i as int] == x@);
            }
            return true;
        }
        i += 1;
    }
    proof {
        assert forall|j: int| 0 <= j < v.deep_view().len() implies v.deep_view()[j] != x@ by {}
    }
    false
}

/// The registry and relay: the one source of truth for rooms and connections.
pub struct SimpleSfuManager {
    rooms: Vec<SimpleSfuRoom>,
    connections: Vec<SimpleSfuConnection>,
}

impl SimpleSfuManager {
    /// There is a room under this id.
    pub closed spec fn has_room(self, id: Seq<char>) -> bool {
        exists|i: int| 0 <= i < self.rooms@.len() && self.rooms@[i]@.id == id
    }

    /// The index of the room under this id (meaningful when `has_room`).
    pub closed spec fn room_idx(self, id: Seq<char>) -> int {
        choose|i: int| 0 <= i < self.rooms@.len() && self.rooms@[i]@.id == id
    }

    /// The room under this id (meaningful when `has_room`).
    pub closed spec fn room(self, id: Seq<char>) -> RoomModel {
        self.rooms@[self.room_idx(id)]@
    }

    /// There is a connection record under this id.
    pub closed spec fn has_conn(self, id: Seq<char>) -> bool {
        exists|i: int| 0 <= i < self.connections@.len() && self.connections@[i]@.id == id
    }

    /// The index of the connection under this id (meaningful when `has_conn`).
    pub closed spec fn conn_idx(self, id: Seq<char>) -> int {
        choose|i: int| 0 <= i < self.connections@.len() && self.connections@[i]@.id == id
    }

    /// The connection record under this id (meaningful when `has_conn`).
    pub closed spec fn conn(self, id: Seq<char>) -> ConnModel {
        self.connections@[self.conn_idx(id)]@
    }

    /// Well-formed registry: room ids are unique, connection ids are unique,
    /// and each room is itself well-formed.
    pub closed spec fn wf(self) -> bool {
        &&& forall|i: int, j: int|
            0 <= i < j < self.rooms@.len() ==> self.rooms@[i]@.id != self.rooms@[j]@.id
        &&& forall|i: int, j: int|
            0 <= i < j < self.connections@.len()
                ==> self.connections@[i]@.id != self.connections@[j]@.id
        &&& forall|i: int| 0 <= i < self.rooms@.len() ==> (#[trigger] self.rooms@[i]@).wf()
    }

    /// Rooms agree between `self` and `other` on every id.
    pub open spec fn rooms_unchanged(self, other: Self) -> bool {
        &&& forall|k: Seq<char>| #[trigger] self.has_room(k) == other.has_room(k)
        &&& forall|k: Seq<char>| other.has_room(k) ==> #[trigger] self.room(k) == other.room(k)
    }

    /// Rooms agree between `self` and `other` on every id but `except`.
    pub open spec fn rooms_unchanged_except(self, other: Self, except: Seq<char>) -> bool {
        &&& forall|k: Seq<char>| k != except ==> #[trigger] self.has_room(k) == other.has_room(k)
        &&& forall|k: Seq<char>|
            k != except && other.has_room(k) ==> #[trigger] self.room(k) == other.room(k)
    }

    /// Connection records agree between `self` and `other` on every id.
    pub open spec fn conns_unchanged(self, other: Self) -> bool {
        &&& forall|k: Seq<char>| #[trigger] self.has_conn(k) == other.has_conn(k)
        &&& forall|k: Seq<char>| other.has_conn(k) ==> #[trigger] self.conn(k) == other.conn(k)
    }

    /// Connection records agree between `self` and `other` on every id but
    /// `except`.
    pub open spec fn conns_unchanged_except(self, other: Self, except: Seq<char>) -> bool {
        &&& forall|k: Seq<char>| k != except ==> #[trigger] self.has_conn(k) == other.has_conn(k)
        &&& forall|k: Seq<char>|
            k != except && other.has_conn(k) ==> #[trigger] self.conn(k) == other.conn(k)
    }

    /// In a well-formed registry the room at index `i` is the room found
    /// under its own id.
    proof fn lemma_room_at(self, i: int)
        requires
            self.wf(),
            0 <= i < self.rooms@.len(),
        ensures
            self.has_room(self.rooms@[i]@.id),
            self.room_idx(self.rooms@[i]@.id) == i,
            self.room(self.rooms@[i]@.id) == self.rooms@[i]@,
    {
        let id = self.rooms@[i]@.id;
        assert(self.has_room(id));
        let j = self.room_idx(id);
        assert(0 <= j < self.rooms@.len() && self.rooms@[j]@.id == id);
        if i < j {
            assert(self.rooms@[i]@.id != self.rooms@[j]@.id);
        } else if j < i {
            assert(self.rooms@[j]@.id != self.rooms@[i]@.id);
        }
    }

    /// In a well-formed registry the connection at index `i` is the record
    /// found under its own id.
    proof fn lemma_conn_at(self, i: int)
        requires
            self.wf(),
            0 <= i < self.connections@.len(),
        ensures
            self.has_conn(self.connections@[i]@.id),
            self.conn_idx(self.connections@[i]@.id) == i,
            self.conn(self.connections@[i]@.id) == self.connections@[i]@,
    {
        let id = self.connections@[i]@.id;
        assert(self.has_conn(id));
        let j = self.conn_idx(id);
        assert(0 <= j < self.connections@.len() && self.connections@[j]@.id == id);
        if i < j {
            assert(self.connections@[i]@.id != self.connections@[j]@.id);
        } else if j < i {
            assert(self.connections@[j]@.id != self.connections@[i]@.id);
        }
    }

    /// Two well-formed registries with the same room vector agree on every
    /// room.
    proof fn lemma_same_rooms(pre: Self, post: Self)
        requires
            pre.wf(),
            post.wf(),
            post.rooms@ == pre.rooms@,
        ensures
            post.rooms_unchanged(pre),
    {
        assert forall|k: Seq<char>| #[trigger] post.has_room(k) == pre.has_room(k) by {
            if pre.has_room(k) {
                let i = choose|i: int| 0 <= i < pre.rooms@.len() && pre.rooms@[i]@.id == k;
                assert(post.rooms@[i]@.id == k);
            }
            if post.has_room(k) {
                let i = choose|i: int| 0 <= i < post.rooms@.len() && post.rooms@[i]@.id == k;
                assert(pre.rooms@[i]@.id == k);
            }
        }
        assert forall|k: Seq<char>| pre.has_room(k) implies #[trigger] post.room(k) == pre.room(k) by {
            let i = pre.room_idx(k);
            pre.lemma_room_at(i);
            post.lemma_room_at(i);
        }
    }

    /// Two well-formed registries with the same connection vector agree on
    /// every connection record.
    proof fn lemma_same_conns(pre: Self, post: Self)
        requires
            pre.wf(),
            post.wf(),
            post.connections@ == pre.connections@,
        ensures
            post.conns_unchanged(pre),
    {
        assert forall|k: Seq<char>| #[trigger] post.has_conn(k) == pre.has_conn(k) by {
            if pre.has_conn(k) {
                let i = choose|i: int|
                    0 <= i < pre.connections@.len() && pre.connections@[i]@.id == k;
                assert(post.connections@[i]@.id == k);
            }
            if post.has_conn(k) {
                let i = choose|i: int|
                    0 <= i < post.connections@.len() && post.connections@[i]@.id == k;
                assert(pre.connections@[i]@.id == k);
            }
        }
        assert forall|k: Seq<char>| pre.has_conn(k) implies #[trigger] post.conn(k) == pre.conn(k) by {
            let i = pre.conn_idx(k);
            pre.lemma_conn_at(i);
            post.lemma_conn_at(i);
        }
    }

    /// Replacing the room at index `i` by one with the same id touches no
    /// other room and no connection record.
    proof fn lemma_room_update(pre: Self, post: Self, i: int)
        requires
            pre.wf(),
            0 <= i < pre.rooms@.len(),
            post.rooms@ == pre.rooms@.update(i, post.rooms@[i]),
            post.rooms@[i]@.id == pre.rooms@[i]@.id,
            post.rooms@[i]@.wf(),
            post.connections@ == pre.connections@,
        ensures
            post.wf(),
            post.has_room(pre.rooms@[i]@.id),
            post.room_idx(pre.rooms@[i]@.id) == i,
            post.room(pre.rooms@[i]@.id) == post.rooms@[i]@,
            post.rooms_unchanged_except(pre, pre.rooms@[i]@.id),
            post.conns_unchanged(pre),
    {
        let id = pre.rooms@[i]@.id;
        assert(post.rooms@.len() == pre.rooms@.len());
        assert forall|j: int| 0 <= j < post.rooms@.len() implies (#[trigger] post.rooms@[j])@.id
            == pre.rooms@[j]@.id by {
            if j != i {
                assert(post.rooms@[j] == pre.rooms@[j]);
            }
        }
        assert forall|j: int| 0 <= j < post.rooms@.len() implies (#[trigger] post.rooms@[j]@).wf() by {
            if j != i {
                assert(post.rooms@[j] == pre.rooms@[j]);
                assert(pre.rooms@[j]@.wf());
            }
        }
        assert(post.wf());
        post.lemma_room_at(i);
        assert forall|k: Seq<char>| k != id implies #[trigger] post.has_room(k) == pre.has_room(
            k,
        ) by {
            if pre.has_room(k) {
                let j = choose|j: int| 0 <= j < pre.rooms@.len() && pre.rooms@[j]@.id == k;
                assert(post.rooms@[j]@.id == k);
            }
            if post.has_room(k) {
                let j = choose|j: int| 0 <= j < post.rooms@.len() && post.rooms@[j]@.id == k;
                assert(pre.rooms@[j]@.id == k);
            }
        }
        assert forall|k: Seq<char>| k != id && pre.has_room(k) implies #[trigger] post.room(k)
            == pre.room(k) by {
            let j = pre.room_idx(k);
            pre.lemma_room_at(j);
            assert(j != i);
            assert(post.rooms@[j] == pre.rooms@[j]);
            post.lemma_room_at(j);
        }
        Self::lemma_same_conns(pre, post);
    }

    /// Appending a room under a fresh id touches no other room and no
    /// connection record.
    proof fn lemma_room_push(pre: Self, post: Self, r: SimpleSfuRoom)
        requires
            pre.wf(),
            post.rooms@ == pre.rooms@.push(r),
            !pre.has_room(r@.id),
            r@.wf(),
            post.connections@ == pre.connections@,
        ensures
            post.wf(),
            post.has_room(r@.id),
            post.room(r@.id) == r@,
            post.rooms_unchanged_except(pre, r@.id),
            post.conns_unchanged(pre),
    {
        let n = pre.rooms@.len() as int;
        assert(post.rooms@[n] == r);
        assert forall|j: int| 0 <= j < n implies post.rooms@[j] == pre.rooms@[j] by {}
        assert forall|j: int| 0 <= j < n implies (#[trigger] pre.rooms@[j]@).id != r@.id by {
            if pre.rooms@[j]@.id == r@.id {
                assert(pre.has_room(r@.id));
            }
        }
        assert(post.wf());
        post.lemma_room_at(n);
        assert forall|k: Seq<char>| k != r@.id implies #[trigger] post.has_room(k) == pre.has_room(
            k,
        ) by {
            if pre.has_room(k) {
                let j = choose|j: int| 0 <= j < pre.rooms@.len() && pre.rooms@[j]@.id == k;
                assert(post.rooms@[j]@.id == k);
            }
            if post.has_room(k) {
                let j = choose|j: int| 0 <= j < post.rooms@.len() && post.rooms@[j]@.id == k;
                assert(j < n);
                assert(pre.rooms@[j]@.id == k);
            }
        }
        assert forall|k: Seq<char>| k != r@.id && pre.has_room(k) implies #[trigger] post.room(k)
            == pre.room(k) by {
            let j = pre.room_idx(k);
            pre.lemma_room_at(j);
            post.lemma_room_at(j);
        }
        Self::lemma_same_conns(pre, post);
    }

    /// Replacing the connection at index `i` by one with the same id touches
    /// no other record and no room.
    proof fn lemma_conn_update(pre: Self, post: Self, i: int)
        requires
            pre.wf(),
            0 <= i < pre.connections@.len(),
            post.connections@ == pre.connections@.update(i, post.connections@[i]),
            post.connections@[i]@.id == pre.connections@[i]@.id,
            post.rooms@ == pre.rooms@,
        ensures
            post.wf(),
            post.has_conn(pre.connections@[i]@.id),
            post.conn_idx(pre.connections@[i]@.id) == i,
            post.conn(pre.connections@[i]@.id) == post.connections@[i]@,
            post.conns_unchanged_except(pre, pre.connections@[i]@.id),
            post.rooms_unchanged(pre),
    {
        let id = pre.connections@[i]@.id;
        assert forall|j: int| 0 <= j < post.connections@.len() implies (#[trigger] post
            .connections@[j])@.id == pre.connections@[j]@.id by {
            if j != i {
                assert(post.connections@[j] == pre.connections@[j]);
            }
        }
        assert forall|j: int| 0 <= j < post.rooms@.len() implies (#[trigger] post.rooms@[j]@).wf() by {
            assert(post.rooms@[j] == pre.rooms@[j]);
            assert(pre.rooms@[j]@.wf());
        }
        assert(post.wf());
        post.lemma_conn_at(i);
        assert forall|k: Seq<char>| k != id implies #[trigger] post.has_conn(k) == pre.has_conn(
            k,
        ) by {
            if pre.has_conn(k) {
                let j = choose|j: int|
                    0 <= j < pre.connections@.len() && pre.connections@[j]@.id == k;
                assert(post.connections@[j]@.id == k);
            }
            if post.has_conn(k) {
                let j = choose|j: int|
                    0 <= j < post.connections@.len() && post.connections@[j]@.id == k;
                assert(pre.connections@[j]@.id == k);
            }
        }
        assert forall|k: Seq<char>| k != id && pre.has_conn(k) implies #[trigger] post.conn(k)
            == pre.conn(k) by {
            let j = pre.conn_idx(k);
            pre.lemma_conn_at(j);
            assert(j != i);
            assert(post.connections@[j] == pre.connections@[j]);
            post.lemma_conn_at(j);
        }
        Self::lemma_same_rooms(pre, post);
    }

    /// Appending a connection record under a fresh id touches no other record
    /// and no room.
    proof fn lemma_conn_push(pre: Self, post: Self, c: SimpleSfuConnection)
        requires
            pre.wf(),
            post.connections@ == pre.connections@.push(c),
            !pre.has_conn(c@.id),
            post.rooms@ == pre.rooms@,
        ensures
            post.wf(),
            post.has_conn(c@.id),
            post.conn(c@.id) == c@,
            post.conns_unchanged_except(pre, c@.id),
            post.rooms_unchanged(pre),
    {
        let n = pre.connections@.len() as int;
        assert(post.connections@[n] == c);
        assert forall|j: int| 0 <= j < n implies post.connections@[j] == pre.connections@[j] by {}
        assert forall|j: int| 0 <= j < n implies (#[trigger] pre.connections@[j]@).id != c@.id by {
            if pre.connections@[j]@.id == c@.id {
                assert(pre.has_conn(c@.id));
            }
        }
        assert forall|j: int| 0 <= j < post.rooms@.len() implies (#[trigger] post.rooms@[j]@).wf() by {
            assert(post.rooms@[j] == pre.rooms@[j]);
            assert(pre.rooms@[j]@.wf());
        }
        assert(post.wf());
        post.lemma_conn_at(n);
        assert forall|k: Seq<char>| k != c@.id implies #[trigger] post.has_conn(k) == pre.has_conn(
            k,
        ) by {
            if pre.has_conn(k) {
                let j = choose|j: int|
                    0 <= j < pre.connections@.len() && pre.connections@[j]@.id == k;
                assert(post.connections@[j]@.id == k);
            }
            if post.has_conn(k) {
                let j = choose|j: int|
                    0 <= j < post.connections@.len() && post.connections@[j]@.id == k;
                assert(j < n);
                assert(pre.connections@[j]@.id == k);
            }
        }
        assert forall|k: Seq<char>| k != c@.id && pre.has_conn(k) implies #[trigger] post.conn(k)
            == pre.conn(k) by {
            let j = pre.conn_idx(k);
            pre.lemma_conn_at(j);
            post.lemma_conn_at(j);
        }
        Self::lemma_same_rooms(pre, post);
    }

    /// Removing the connection at index `i` erases exactly that id and
    /// touches no room.
    proof fn lemma_conn_remove(pre: Self, post: Self, i: int)
        requires
            pre.wf(),
            0 <= i < pre.connections@.len(),
            post.connections@ == pre.connections@.remove(i),
            post.rooms@ == pre.rooms@,
        ensures
            post.wf(),
            !post.has_conn(pre.connections@[i]@.id),
            post.conns_unchanged_except(pre, pre.connections@[i]@.id),
            post.rooms_unchanged(pre),
    {
        let id = pre.connections@[i]@.id;
        let n = pre.connections@.len() as int;
        assert(post.connections@.len() == n - 1);
        assert forall|j: int| 0 <= j < n - 1 implies #[trigger] post.connections@[j] == (if j < i {
            pre.connections@[j]
        } else {
            pre.connections@[j + 1]
        }) by {}
        assert forall|j: int| 0 <= j < post.rooms@.len() implies (#[trigger] post.rooms@[j]@).wf() by {
            assert(post.rooms@[j] == pre.rooms@[j]);
            assert(pre.rooms@[j]@.wf());
        }
        assert(post.wf());
        assert(!post.has_conn(id)) by {
            if post.has_conn(id) {
                let j = choose|j: int|
                    0 <= j < post.connections@.len() && post.connections@[j]@.id == id;
                if j < i {
                    assert(pre.connections@[j]@.id == id);
                    assert(pre.connections@[j]@.id != pre.connections@[i]@.id);
                } else {
                    assert(pre.connections@[j + 1]@.id == id);
                    assert(pre.connections@[i]@.id != pre.connections@[j + 1]@.id);
                }
            }
        }
        assert forall|k: Seq<char>| k != id implies #[trigger] post.has_conn(k) == pre.has_conn(
            k,
        ) by {
            if pre.has_conn(k) {
                let j = choose|j: int|
                    0 <= j < pre.connections@.len() && pre.connections@[j]@.id == k;
                assert(j != i);
                if j < i {
                    assert(post.connections@[j]@.id == k);
                } else {
                    assert(post.connections@[j - 1]@.id == k);
                }
            }
            if post.has_conn(k) {
                let j = choose|j: int|
                    0 <= j < post.connections@.len() && post.connections@[j]@.id == k;
                if j < i {
                    assert(pre.connections@[j]@.id == k);
                } else {
                    assert(pre.connections@[j + 1]@.id == k);
                }
            }
        }
        assert forall|k: Seq<char>| k != id && pre.has_conn(k) implies #[trigger] post.conn(k)
            == pre.conn(k) by {
            let j = pre.conn_idx(k);
            pre.lemma_conn_at(j);
            assert(j != i);
            if j < i {
                assert(post.connections@[j]@.id == k);
                post.lemma_conn_at(j);
            } else {
                assert(post.connections@[j - 1]@.id == k);
                post.lemma_conn_at(j - 1);
            }
        }
        Self::lemma_same_rooms(pre, post);
    }

    /// An empty registry: no rooms, no connections.
    pub fn new() -> (r: Self)
        ensures
            r.wf(),
            forall|k: Seq<char>| !r.has_room(k),
            forall|k: Seq<char>| !r.has_conn(k),
    {
        SimpleSfuManager { rooms: Vec::new(), connections: Vec::new() }
    }

    /// The index of the room under `room_id`, if any.
    fn find_room(&self, room_id: &String) -> (r: Option<usize>)
        ensures
            match r {
                Some(i) => i < self.rooms@.len() && self.rooms@[i as int]@.id == room_id@,
                None => !self.has_room(room_id@),
            },
    {
        let n = self.rooms.len();
        let mut i: usize = 0;
        while i < n
            invariant
                i <= n,
                n == self.rooms@.len(),
                forall|j: int| 0 <= j < i ==> self.rooms@[j]@.id != room_id@,
            decreases n - i,
        {
            if self.rooms[i].id == *room_id {
                return Some(i);
            }
            i += 1;
        }
        None
    }

    /// The index of the connection under `connection_id`, if any.
    fn find_conn(&self, connection_id: &String) -> (r: Option<usize>)
        ensures
            match r {
                Some(i) => i < self.connections@.len() && self.connections@[i as int]@.id
                    == connection_id@,
                None => !self.has_conn(connection_id@),
            },
    {
        let n = self.connections.len();
        let mut i: usize = 0;
        while i < n
            invariant
                i <= n,
                n == self.connections@.len(),
                forall|j: int| 0 <= j < i ==> self.connections@[j]@.id != connection_id@,
            decreases n - i,
        {
            if self.connections[i].id == *connection_id {
                return Some(i);
            }
            i += 1;
        }
        None
    }

    /// What a `Join` does: the connection record is created (overwriting any
    /// record under the same id); if the room exists the connection is
    /// attached to it, as sender or as viewer; and a viewer joining a room
    /// that already caches a sender description receives exactly one
    /// synthesized catch-up `Offer` (attributed to the sender seat as it
    /// stands), while every other join produces no outbound message.
    pub open spec fn join_post(
        pre: Self,
        post: Self,
        rid: Seq<char>,
        cid: Seq<char>,
        is_sender: bool,
        out: Seq<MsgModel>,
    ) -> bool {
        &&& post.has_conn(cid)
        &&& post.conn(cid) == (ConnModel { id: cid, is_sender, sdp_offer: None, sdp_answer: None })
        &&& post.conns_unchanged_except(pre, cid)
        &&& (!pre.has_room(rid) ==> post.rooms_unchanged(pre))
        &&& (pre.has_room(rid) ==> {
            &&& post.rooms_unchanged_except(pre, rid)
            &&& post.has_room(rid)
            &&& (is_sender ==> post.room(rid) == (RoomModel {
                sender_id: Some(cid),
                ..pre.room(rid)
            }))
            &&& (!is_sender ==> post.room(rid) == (RoomModel {
                viewer_ids: if pre.room(rid).viewer_ids.contains(cid) {
                    pre.room(rid).viewer_ids
                } else {
                    pre.room(rid).viewer_ids.push(cid)
                },
                ..pre.room(rid)
            }))
        })
        &&& ({
            let catch_up = !is_sender && pre.has_room(rid) && pre.room(rid).sender_sdp is Some;
            if catch_up {
                &&& out.len() == 1
                &&& out[0] == (MsgModel {
                    message_type: SignalingMessageType::Offer,
                    connection_id: Some(cid),
                    sender_id: pre.room(rid).sender_id,
                    offer_id: out[0].offer_id,
                    data: Some(DataModel::Sdp { sdp: pre.room(rid).sender_sdp->0 }),
                    is_sender: Some(false),
                })
                &&& out[0].offer_id is Some
                &&& out[0].offer_id->0.len() == 36
            } else {
                out.len() == 0
            }
        })
    }

    /// Register a connection and, if the room exists, attach it: a sender
    /// takes the room's sender seat, a viewer is appended to the viewer list
    /// (once).  If the room does not exist the connection is still created
    /// but stays unattached: callers must create rooms before admitting
    /// connections, or the connection is orphaned.  A viewer joining a room
    /// that already caches a sender description receives one synthesized
    /// catch-up `Offer`: the cached description alone decides, whether or not
    /// the sender seat is currently occupied.
    pub fn add_connection(&mut self, room_id: &str, connection_id: String, is_sender: bool) -> (r:
        Vec<SignalingMessage>)
        requires
            old(self).wf(),
        ensures
            final(self).wf(),
            Self::join_post(
                *old(self),
                *final(self),
                room_id@,
                connection_id@,
                is_sender,
                r.deep_view(),
            ),
    {
        let ghost pre = *self;
        let cid_key = connection_id.clone();
        let connection = SimpleSfuConnection {
            id: connection_id.clone(),
            is_sender,
            sdp_offer: None,
            sdp_answer: None,
        };
        match self.find_conn(&cid_key) {
            Some(i) => {
                self.connections[i] = connection;
                proof {
                    assert(self.connections@ == pre.connections@.update(
                        i as int,
                        self.connections@[i as int],
                    ));
                    Self::lemma_conn_update(pre, *self, i as int);
                }
            },
            None => {
                self.connections.push(connection);
                proof {
                    Self::lemma_conn_push(pre, *self, self.connections@.last());
                }
            },
        }
        let ghost mid = *self;
        let rid_key = room_id.to_owned();
        let found = self.find_room(&rid_key);
        match found {
            Some(ri) => {
                proof {
                    mid.lemma_room_at(ri as int);
                }
                if is_sender {
                    self.rooms[ri].sender_id = Some(connection_id.clone());
                    proof {
                        assert(self.rooms@ == mid.rooms@.update(ri as int, self.rooms@[ri as int]));
                        Self::lemma_room_update(mid, *self, ri as int);
                    }
                } else {
                    if !vec_contains_string(&self.rooms[ri].viewer_ids, &cid_key) {
                        self.rooms[ri].viewer_ids.push(connection_id.clone());
                        proof {
                            assert(self.rooms@ == mid.rooms@.update(
                                ri as int,
                                self.rooms@[ri as int],
                            ));
                            let vs0 = mid.rooms@[ri as int]@.viewer_ids;
                            let vs1 = self.rooms@[ri as int]@.viewer_ids;
                            assert(vs1 =~= vs0.push(connection_id@));
                            assert forall|a: int, b: int| 0 <= a < b < vs1.len() implies vs1[a]
                                != vs1[b] by {
                                if b < vs0.len() as int {
                                    assert(mid.rooms@[ri as int]@.wf());
                                } else {
                                    assert(vs1[b] == connection_id@);
                                    assert(!vs0.contains(connection_id@));
                                    assert(vs0[a] != connection_id@);
                                }
                            }
                            Self::lemma_room_update(mid, *self, ri as int);
                        }
                    } else {
                        proof {
                            Self::lemma_same_rooms(mid, *self);
                            Self::lemma_same_conns(mid, *self);
                        }
                    }
                }
            },
            None => {},
        }
        let ghost post = *self;
        proof {
            assert(post.conns_unchanged(mid));
            assert(post.conns_unchanged_except(pre, connection_id@));
            assert(post.has_conn(connection_id@) && post.conn(connection_id@) == mid.conn(
                connection_id@,
            ));
        }
        let mut responses: Vec<SignalingMessage> = Vec::new();
        if !is_sender {
            if let Some(ri) = self.find_room(&rid_key) {
                proof {
                    post.lemma_room_at(ri as int);
                    assert(post.room(rid_key@) == post.rooms@[ri as int]@);
                }
                let room = &self.rooms[ri];
                match &room.sender_sdp {
                    Some(sdp) => {
                        let sender = match &room.sender_id {
                            Some(s) => Some(s.clone()),
                            None => None,
                        };
                        let oid = fresh_offer_id();
                        responses.push(SignalingMessage {
                            message_type: SignalingMessageType::Offer,
                            connection_id: Some(connection_id),
                            sender_id: sender,
                            offer_id: Some(oid),
                            data: Some(MessageData::Sdp { sdp: sdp.clone() }),
                            is_sender: Some(false),
                        });
                    },
                    None => {},
                }
            }
        }
        responses
    }

    /// Insert an empty room under `room_id`.  Calling this again for an id
    /// that already has a room leaves the registry exactly as it was: the
    /// operation never duplicates or corrupts existing membership state.
    pub fn create_room(&mut self, room_id: String)
        requires
            old(self).wf(),
        ensures
            final(self).wf(),
            old(self).has_room(room_id@) ==> *final(self) == *old(self),
            !old(self).has_room(room_id@) ==> {
                &&& final(self).has_room(room_id@)
                &&& final(self).room(room_id@) == RoomModel::empty(room_id@)
                &&& final(self).rooms_unchanged_except(*old(self), room_id@)
                &&& final(self).conns_unchanged(*old(self))
            },
    {
        if self.find_room(&room_id).is_none() {
            let ghost pre = *self;
            let ghost rid = room_id@;
            let room = SimpleSfuRoom {
                id: room_id,
                sender_id: None,
                viewer_ids: Vec::new(),
                sender_sdp: None,
            };
            self.rooms.push(room);
            proof {
                assert(room@.viewer_ids =~= Seq::<Seq<char>>::empty());
                assert(room@ == RoomModel::empty(rid));
                Self::lemma_room_push(pre, *self, room);
            }
        }
    }

    /// A view of the room under `room_id`, if any.
    pub fn get_room(&self, room_id: &str) -> (r: Option<&SimpleSfuRoom>)
        requires
            self.wf(),
        ensures
            r is Some <==> self.has_room(room_id@),
            r matches Some(room) ==> room@ == self.room(room_id@),
    {
        let key = room_id.to_owned();
        match self.find_room(&key) {
            Some(i) => {
                proof {
                    self.lemma_room_at(i as int);
                }
                Some(&self.rooms[i])
            },
            None => None,
        }
    }

    /// A view of the connection record under `connection_id`, if any.  The
    /// cached offer and answer are exposed here so the surrounding system can
    /// retrieve a stored answer and complete the handshake.
    pub fn get_connection(&self, connection_id: &str) -> (r: Option<&SimpleSfuConnection>)
        requires
            self.wf(),
        ensures
            r is Some <==> self.has_conn(connection_id@),
            r matches Some(c) ==> c@ == self.conn(connection_id@),
    {
        let key = connection_id.to_owned();
        match self.find_conn(&key) {
            Some(i) => {
                proof {
                    self.lemma_conn_at(i as int);
                }
                Some(&self.connections[i])
            },
            None => None,
        }
    }

    /// Cache `sdp` as the room's current sender description.  A missing room
    /// degrades to a no-op.
    pub fn set_sender_sdp(&mut self, room_id: &str, sdp: &str)
        requires
            old(self).wf(),
        ensures
            final(self).wf(),
            !old(self).has_room(room_id@) ==> *final(self) == *old(self),
            old(self).has_room(room_id@) ==> {
                &&& final(self).has_room(room_id@)
                &&& final(self).room(room_id@) == (RoomModel {
                    sender_sdp: Some(sdp@),
                    ..old(self).room(room_id@)
                })
                &&& final(self).rooms_unchanged_except(*old(self), room_id@)
                &&& final(self).conns_unchanged(*old(self))
            },
    {
        let key = room_id.to_owned();
        let ghost pre = *self;
        match self.find_room(&key) {
            Some(i) => {
                self.rooms[i].sender_sdp = Some(sdp.to_owned());
                proof {
                    Self::lemma_room_update(pre, *self, i as int);
                    pre.lemma_room_at(i as int);
                }
            },
            None => {},
        }
    }

    /// Cache `sdp` as the connection's most recent offer.  A missing
    /// connection degrades to a no-op.
    pub fn set_connection_offer(&mut self, connection_id: &str, sdp: &str)
        requires
            old(self).wf(),
        ensures
            final(self).wf(),
            !old(self).has_conn(connection_id@) ==> *final(self) == *old(self),
            old(self).has_conn(connection_id@) ==> {
                &&& final(self).has_conn(connection_id@)
                &&& final(self).conn(connection_id@) == (ConnModel {
                    sdp_offer: Some(sdp@),
                    ..old(self).conn(connection_id@)
                })
                &&& final(self).conns_unchanged_except(*old(self), connection_id@)
                &&& final(self).rooms_unchanged(*old(self))
            },
    {
        let key = connection_id.to_owned();
        let ghost pre = *self;
        match self.find_conn(&key) {
            Some(i) => {
                self.connections[i].sdp_offer = Some(sdp.to_owned());
                proof {
                    Self::lemma_conn_update(pre, *self, i as int);
                    pre.lemma_conn_at(i as int);
                }
            },
            None => {},
        }
    }

    /// Cache `sdp` as the connection's most recent answer.  A missing
    /// connection degrades to a no-op.
    pub fn set_connection_answer(&mut self, connection_id: &str, sdp: &str)
        requires
            old(self).wf(),
        ensures
            final(self).wf(),
            !old(self).has_conn(connection_id@) ==> *final(self) == *old(self),
            old(self).has_conn(connection_id@) ==> {
                &&& final(self).has_conn(connection_id@)
                &&& final(self).conn(connection_id@) == (ConnModel {
                    sdp_answer: Some(sdp@),
                    ..old(self).conn(connection_id@)
                })
                &&& final(self).conns_unchanged_except(*old(self), connection_id@)
                &&& final(self).rooms_unchanged(*old(self))
            },
    {
        let key = connection_id.to_owned();
        let ghost pre = *self;
        match self.find_conn(&key) {
            Some(i) => {
                self.connections[i].sdp_answer = Some(sdp.to_owned());
                proof {
                    Self::lemma_conn_update(pre, *self, i as int);
                    pre.lemma_conn_at(i as int);
                }
            },
            None => {},
        }
    }

    /// The viewer sequence with every occurrence of `cid` dropped.
    pub open spec fn drop_id(vs: Seq<Seq<char>>, cid: Seq<char>) -> Seq<Seq<char>> {
        vs.filter(|v: Seq<char>| v != cid)
    }

    /// What an `Offer` does: the description is cached on the submitting
    /// connection and on the room (the submitter's role is not validated),
    /// and one copy is fanned out per current viewer, each under its own
    /// correlation id, all carrying the same description.
    pub open spec fn offer_post(
        pre: Self,
        post: Self,
        rid: Seq<char>,
        cid: Seq<char>,
        sdp: Seq<char>,
        out: Seq<MsgModel>,
    ) -> bool {
        &&& (!pre.has_conn(cid) ==> post.conns_unchanged(pre))
        &&& (pre.has_conn(cid) ==> {
            &&& post.has_conn(cid)
            &&& post.conn(cid) == (ConnModel { sdp_offer: Some(sdp), ..pre.conn(cid) })
            &&& post.conns_unchanged_except(pre, cid)
        })
        &&& (!pre.has_room(rid) ==> post.rooms_unchanged(pre))
        &&& (pre.has_room(rid) ==> {
            &&& post.has_room(rid)
            &&& post.room(rid) == (RoomModel { sender_sdp: Some(sdp), ..pre.room(rid) })
            &&& post.rooms_unchanged_except(pre, rid)
        })
        &&& ({
            let viewers = if pre.has_room(rid) {
                pre.room(rid).viewer_ids
            } else {
                Seq::<Seq<char>>::empty()
            };
            &&& out.len() == viewers.len()
            &&& forall|i: int|
                0 <= i < out.len() ==> (#[trigger] out[i]).offer_id is Some
                    && out[i].offer_id->0.len() == 36
            &&& forall|i: int|
                0 <= i < out.len() ==> #[trigger] out[i] == offer_msg(
                    viewers[i],
                    cid,
                    sdp,
                    out[i].offer_id->0,
                )
        })
    }

    /// What an `Answer` does: the description is cached on the submitting
    /// connection only; no outbound message is produced.
    pub open spec fn answer_post(
        pre: Self,
        post: Self,
        cid: Seq<char>,
        sdp: Seq<char>,
        out: Seq<MsgModel>,
    ) -> bool {
        &&& (!pre.has_conn(cid) ==> post == pre)
        &&& (pre.has_conn(cid) ==> {
            &&& post.has_conn(cid)
            &&& post.conn(cid) == (ConnModel { sdp_answer: Some(sdp), ..pre.conn(cid) })
            &&& post.conns_unchanged_except(pre, cid)
            &&& post.rooms_unchanged(pre)
        })
        &&& out.len() == 0
    }

    /// Cache a session description and, for an offer, fan it out to every
    /// viewer of the room.  An offer is stored on the submitting connection
    /// and as the room's sender description, whoever submitted it; an answer
    /// is stored on the connection alone and answers are never forwarded.
    /// Missing rooms or connections degrade to no-ops.
    pub fn handle_sdp(
        &mut self,
        room_id: &str,
        connection_id: &str,
        sdp: &str,
        is_offer: bool,
    ) -> (r: Vec<SignalingMessage>)
        requires
            old(self).wf(),
        ensures
            final(self).wf(),
            is_offer ==> Self::offer_post(
                *old(self),
                *final(self),
                room_id@,
                connection_id@,
                sdp@,
                r.deep_view(),
            ),
            !is_offer ==> Self::answer_post(
                *old(self),
                *final(self),
                connection_id@,
                sdp@,
                r.deep_view(),
            ),
    {
        let mut responses: Vec<SignalingMessage> = Vec::new();
        if is_offer {
            let ghost pre = *self;
            self.set_connection_offer(connection_id, sdp);
            let ghost mid = *self;
            self.set_sender_sdp(room_id, sdp);
            let ghost post = *self;
            proof {
                assert(mid.rooms_unchanged(pre));
                assert(post.conns_unchanged(mid));
                assert(post.conns_unchanged_except(pre, connection_id@));
                assert(post.rooms_unchanged_except(pre, room_id@));
                assert(pre.has_room(room_id@) ==> post.room(room_id@) == (RoomModel {
                    sender_sdp: Some(sdp@),
                    ..pre.room(room_id@)
                }));
            }
            let rid_key = room_id.to_owned();
            let cid_owned = connection_id.to_owned();
            let sdp_owned = sdp.to_owned();
            if let Some(ri) = self.find_room(&rid_key) {
                proof {
                    post.lemma_room_at(ri as int);
                }
                let ghost viewers = self.rooms@[ri as int]@.viewer_ids;
                let n = self.rooms[ri].viewer_ids.len();
                let mut k: usize = 0;
                while k < n
                    invariant
                        *self == post,
                        post.wf(),
                        ri < self.rooms@.len(),
                        n == self.rooms@[ri as int]@.viewer_ids.len(),
                        viewers == self.rooms@[ri as int]@.viewer_ids,
                        k <= n,
                        cid_owned@ == connection_id@,
                        sdp_owned@ == sdp@,
                        responses.deep_view().len() == k,
                        forall|j: int|
                            0 <= j < k ==> (#[trigger] responses.deep_view()[j]).offer_id is Some
                                && responses.deep_view()[j].offer_id->0.len() == 36,
                        forall|j: int|
                            0 <= j < k ==> #[trigger] responses.deep_view()[j] == offer_msg(
                                viewers[j],
                                connection_id@,
                                sdp@,
                                responses.deep_view()[j].offer_id->0,
                            ),
                    decreases n - k,
                {
                    let ghost out0 = responses.deep_view();
                    let viewer = self.rooms[ri].viewer_ids[k].clone();
                    let oid = fresh_offer_id();
                    responses.push(SignalingMessage {
                        message_type: SignalingMessageType::Offer,
                        connection_id: Some(viewer),
                        sender_id: Some(cid_owned.clone()),
                        offer_id: Some(oid),
                        data: Some(MessageData::Sdp { sdp: sdp_owned.clone() }),
                        is_sender: Some(false),
                    });
                    proof {
                        assert(responses.deep_view() =~= out0.push(
                            responses.deep_view()[k as int],
                        ));
                    }
                    k += 1;
                }
            }
        } else {
            self.set_connection_answer(connection_id, sdp);
        }
        responses
    }

    /// Where a candidate goes: from the room's current sender it is broadcast
    /// to every viewer; from anyone else it is forwarded to the sender alone,
    /// and dropped when the room has no sender or does not exist.
    pub open spec fn ice_out(
        self,
        rid: Seq<char>,
        cid: Seq<char>,
        cand: Seq<char>,
        out: Seq<MsgModel>,
    ) -> bool {
        if !self.has_room(rid) {
            out.len() == 0
        } else {
            let room = self.room(rid);
            if room.sender_id == Some(cid) {
                &&& out.len() == room.viewer_ids.len()
                &&& forall|i: int|
                    0 <= i < out.len() ==> #[trigger] out[i] == ice_msg(
                        room.viewer_ids[i],
                        cid,
                        cand,
                    )
            } else if room.sender_id is Some {
                &&& out.len() == 1
                &&& out[0] == ice_msg(room.sender_id->0, cid, cand)
            } else {
                out.len() == 0
            }
        }
    }

    /// Route a connectivity candidate by room membership: the current sender's
    /// candidates are broadcast to every viewer, anyone else's candidate goes
    /// to the sender alone, and a room with no sender (or no room at all)
    /// yields nothing.
    pub fn handle_ice_candidate(&self, room_id: &str, connection_id: &str, candidate: &str) -> (r:
        Vec<SignalingMessage>)
        requires
            self.wf(),
        ensures
            self.ice_out(room_id@, connection_id@, candidate@, r.deep_view()),
    {
        let mut responses: Vec<SignalingMessage> = Vec::new();
        let rid_key = room_id.to_owned();
        let cid_key = connection_id.to_owned();
        if let Some(ri) = self.find_room(&rid_key) {
            proof {
                self.lemma_room_at(ri as int);
            }
            let from_sender = match &self.rooms[ri].sender_id {
                Some(s) => *s == cid_key,
                None => false,
            };
            if from_sender {
                let ghost viewers = self.rooms@[ri as int]@.viewer_ids;
                let n = self.rooms[ri].viewer_ids.len();
                let mut k: usize = 0;
                while k < n
                    invariant
                        ri < self.rooms@.len(),
                        n == self.rooms@[ri as int]@.viewer_ids.len(),
                        viewers == self.rooms@[ri as int]@.viewer_ids,
                        k <= n,
                        cid_key@ == connection_id@,
                        responses.deep_view().len() == k,
                        forall|j: int|
                            0 <= j < k ==> #[trigger] responses.deep_view()[j] == ice_msg(
                                viewers[j],
                                connection_id@,
                                candidate@,
                            ),
                    decreases n - k,
                {
                    let ghost out0 = responses.deep_view();
                    let viewer = self.rooms[ri].viewer_ids[k].clone();
                    responses.push(SignalingMessage {
                        message_type: SignalingMessageType::IceCandidate,
                        connection_id: Some(viewer),
                        sender_id: Some(cid_key.clone()),
                        offer_id: None,
                        data: Some(MessageData::Candidate { candidate: candidate.to_owned() }),
                        is_sender: None,
                    });
                    proof {
                        assert(responses.deep_view() =~= out0.push(
                            responses.deep_view()[k as int],
                        ));
                    }
                    k += 1;
                }
            } else {
                match &self.rooms[ri].sender_id {
                    Some(s) => {
                        responses.push(SignalingMessage {
                            message_type: SignalingMessageType::IceCandidate,
                            connection_id: Some(s.clone()),
                            sender_id: Some(cid_key.clone()),
                            offer_id: None,
                            data: Some(MessageData::Candidate { candidate: candidate.to_owned() }),
                            is_sender: None,
                        });
                    },
                    None => {},
                }
            }
        }
        responses
    }

    /// What a `Leave` does: the connection record is deleted; if the departed
    /// connection held the room's sender seat, the seat and the cached
    /// description are cleared in the same operation; the departed id is
    /// dropped from the viewer list; and every remaining participant (viewers
    /// first, then the sender) is notified with the departed id and the
    /// post-removal participant count.
    pub open spec fn leave_post(
        pre: Self,
        post: Self,
        rid: Seq<char>,
        cid: Seq<char>,
        out: Seq<MsgModel>,
    ) -> bool {
        &&& !post.has_conn(cid)
        &&& post.conns_unchanged_except(pre, cid)
        &&& (!pre.has_room(rid) ==> post.rooms_unchanged(pre) && out.len() == 0)
        &&& (pre.has_room(rid) ==> {
            let pre_room = pre.room(rid);
            let was_sender = pre_room.sender_id == Some(cid);
            let post_room = post.room(rid);
            &&& post.rooms_unchanged_except(pre, rid)
            &&& post.has_room(rid)
            &&& post_room.id == pre_room.id
            &&& post_room.sender_id == (if was_sender {
                None::<Seq<char>>
            } else {
                pre_room.sender_id
            })
            &&& post_room.sender_sdp == (if was_sender {
                None::<Seq<char>>
            } else {
                pre_room.sender_sdp
            })
            &&& post_room.viewer_ids == Self::drop_id(pre_room.viewer_ids, cid)
            &&& ({
                let parts = if post_room.sender_id is Some {
                    post_room.viewer_ids.push(post_room.sender_id->0)
                } else {
                    post_room.viewer_ids
                };
                &&& out.len() == parts.len()
                &&& forall|i: int|
                    0 <= i < out.len() ==> #[trigger] out[i] == leave_msg(
                        parts[i],
                        cid,
                        parts.len() as usize,
                    )
            })
        })
    }

    /// Delete a connection and detach it from the room: a departing sender
    /// gives up the seat and the cached description in the same operation, a
    /// departing viewer is dropped from the viewer list, and every remaining
    /// participant is notified with the departed id and the remaining count.
    /// A missing room degrades to a silent deletion with no notifications.
    pub fn remove_connection(&mut self, room_id: &str, connection_id: &str) -> (r: Vec<
        SignalingMessage,
    >)
        requires
            old(self).wf(),
        ensures
            final(self).wf(),
            Self::leave_post(*old(self), *final(self), room_id@, connection_id@, r.deep_view()),
    {
        let ghost pre = *self;
        let cid_key = connection_id.to_owned();
        let rid_key = room_id.to_owned();
        match self.find_conn(&cid_key) {
            Some(i) => {
                let _removed = self.connections.remove(i);
                proof {
                    pre.lemma_conn_at(i as int);
                    Self::lemma_conn_remove(pre, *self, i as int);
                }
            },
            None => {},
        }
        let ghost mid = *self;
        proof {
            assert(!mid.has_conn(connection_id@));
            assert(mid.conns_unchanged_except(pre, connection_id@));
            assert(mid.rooms_unchanged(pre));
        }
        let mut responses: Vec<SignalingMessage> = Vec::new();
        let found = self.find_room(&rid_key);
        match found {
            Some(ri) => {
                proof {
                    mid.lemma_room_at(ri as int);
                }
                let ghost room0 = mid.rooms@[ri as int]@;
                let was_sender = match &self.rooms[ri].sender_id {
                    Some(s) => *s == cid_key,
                    None => false,
                };
                if was_sender {
                    self.rooms[ri].sender_id = None;
                    self.rooms[ri].sender_sdp = None;
                }
                let ghost vs = self.rooms@[ri as int]@.viewer_ids;
                proof {
                    assert(vs == room0.viewer_ids);
                    assert(room0.wf());
                }
                let n = self.rooms[ri].viewer_ids.len();
                let mut kept: Vec<String> = Vec::new();
                let ghost snap = *self;
                let mut k: usize = 0;
                while k < n
                    invariant
                        *self == snap,
                        ri < self.rooms@.len(),
                        n == self.rooms@[ri as int]@.viewer_ids.len(),
                        vs == self.rooms@[ri as int]@.viewer_ids,
                        forall|a: int, b: int| 0 <= a < b < vs.len() ==> vs[a] != vs[b],
                        k <= n,
                        cid_key@ == connection_id@,
                        kept.deep_view() == Self::drop_id(vs.subrange(0, k as int), connection_id@),
                        forall|t: int|
                            0 <= t < kept.deep_view().len() ==> vs.subrange(0, k as int).contains(
                                #[trigger] kept.deep_view()[t],
                            ),
                        forall|a: int, b: int|
                            0 <= a < b < kept.deep_view().len() ==> kept.deep_view()[a]
                                != kept.deep_view()[b],
                    decreases n - k,
                {
                    let ghost kept0 = kept.deep_view();
                    let ghost s0 = vs.subrange(0, k as int);
                    let keep_it = !(self.rooms[ri].viewer_ids[k] == cid_key);
                    if keep_it {
                        kept.push(self.rooms[ri].viewer_ids[k].clone());
                    }
                    proof {
                        reveal(Seq::filter);
                        let s1 = vs.subrange(0, (k + 1) as int);
                        assert(s1.drop_last() =~= s0);
                        assert(s1.last() == vs[k as int]);
                        if keep_it {
                            assert(kept.deep_view() =~= kept0.push(vs[k as int]));
                            assert forall|t: int| 0 <= t < kept0.len() implies kept0[t] != vs[k as int] by {
                                assert(s0.contains(kept0[t]));
                                let u = choose|u: int| 0 <= u < s0.len() && s0[u] == kept0[t];
                                assert(vs[u] == kept0[t]);
                            }
                            assert(Self::drop_id(s1, connection_id@) == Self::drop_id(
                                s0,
                                connection_id@,
                            ).push(vs[k as int]));
                        } else {
                            assert(Self::drop_id(s1, connection_id@) == Self::drop_id(
                                s0,
                                connection_id@,
                            ));
                        }
                        assert forall|t: int| 0 <= t < kept.deep_view().len() implies s1.contains(
                            kept.deep_view()[t],
                        ) by {
                            if t < kept0.len() {
                                assert(s0.contains(kept0[t]));
                                let u = choose|u: int| 0 <= u < s0.len() && s0[u] == kept0[t];
                                assert(s1[u] == kept0[t]);
                            } else {
                                assert(s1[k as int] == vs[k as int]);
                            }
                        }
                    }
                    k += 1;
                }
                proof {
                    assert(vs.subrange(0, n as int) =~= vs);
                }
                self.rooms[ri].viewer_ids = kept;
                proof {
                    assert(self.rooms@ =~= mid.rooms@.update(ri as int, self.rooms@[ri as int]));
                    assert(self.rooms@[ri as int]@.wf());
                    Self::lemma_room_update(mid, *self, ri as int);
                }
                let ghost post = *self;
                let ghost snap2 = *self;
                let mut participants: Vec<String> = Vec::new();
                let m = self.rooms[ri].viewer_ids.len();
                let mut k2: usize = 0;
                while k2 < m
                    invariant
                        *self == snap2,
                        ri < self.rooms@.len(),
                        m == self.rooms@[ri as int]@.viewer_ids.len(),
                        k2 <= m,
                        participants.deep_view() == self.rooms@[ri as int]@.viewer_ids.subrange(
                            0,
                            k2 as int,
                        ),
                    decreases m - k2,
                {
                    let ghost p0 = participants.deep_view();
                    participants.push(self.rooms[ri].viewer_ids[k2].clone());
                    proof {
                        assert(participants.deep_view() =~= p0.push(
                            self.rooms@[ri as int]@.viewer_ids[k2 as int],
                        ));
                        assert(participants.deep_view() =~= self.rooms@[ri as int]@.viewer_ids
                            .subrange(0, (k2 + 1) as int));
                    }
                    k2 += 1;
                }
                proof {
                    assert(self.rooms@[ri as int]@.viewer_ids.subrange(0, m as int)
                        =~= self.rooms@[ri as int]@.viewer_ids);
                }
                match &self.rooms[ri].sender_id {
                    Some(s) => {
                        participants.push(s.clone());
                        proof {
                            assert(participants.deep_view() =~= post.rooms@[ri as int]@.viewer_ids
                                .push(post.rooms@[ri as int]@.sender_id->0));
                        }
                    },
                    None => {},
                }
                let count = participants.len();
                let ghost parts = participants.deep_view();
                let mut k3: usize = 0;
                while k3 < count
                    invariant
                        count == participants@.len(),
                        parts == participants.deep_view(),
                        k3 <= count,
                        cid_key@ == connection_id@,
                        responses.deep_view().len() == k3,
                        forall|j: int|
                            0 <= j < k3 ==> #[trigger] responses.deep_view()[j] == leave_msg(
                                parts[j],
                                connection_id@,
                                count,
                            ),
                    decreases count - k3,
                {
                    let ghost out0 = responses.deep_view();
                    responses.push(SignalingMessage {
                        message_type: SignalingMessageType::Leave,
                        connection_id: Some(participants[k3].clone()),
                        sender_id: None,
                        offer_id: None,
                        data: Some(MessageData::LeaveInfo {
                            connection_id: cid_key.clone(),
                            connection_count: count,
                        }),
                        is_sender: None,
                    });
                    proof {
                        assert(responses.deep_view() =~= out0.push(
                            responses.deep_view()[k3 as int],
                        ));
                    }
                    k3 += 1;
                }
            },
            None => {},
        }
        responses
    }

    /// Dispatch one inbound envelope.  `Join`, `Offer`, `Answer`,
    /// `IceCandidate` and `Leave` are handled as the corresponding operation;
    /// a message that lacks a required field for its type is rejected with
    /// `MissingField` before any state mutation.
    pub fn handle_message(&mut self, room_id: &str, message: &SignalingMessage) -> (r: Result<
        Vec<SignalingMessage>,
        MissingField,
    >)
        requires
            old(self).wf(),
        ensures
            final(self).wf(),
            r is Err ==> *final(self) == *old(self),
            match r {
                Ok(out) => match message@.message_type {
                    SignalingMessageType::Join => message@.connection_id is Some
                        && Self::join_post(
                        *old(self),
                        *final(self),
                        room_id@,
                        message@.connection_id->0,
                        message@.is_sender == Some(true),
                        out.deep_view(),
                    ),
                    SignalingMessageType::Offer => message@.connection_id is Some && (
                    message@.data matches Some(DataModel::Sdp { sdp }) && Self::offer_post(
                        *old(self),
                        *final(self),
                        room_id@,
                        message@.connection_id->0,
                        sdp,
                        out.deep_view(),
                    )),
                    SignalingMessageType::Answer => message@.connection_id is Some && (
                    message@.data matches Some(DataModel::Sdp { sdp }) && Self::answer_post(
                        *old(self),
                        *final(self),
                        message@.connection_id->0,
                        sdp,
                        out.deep_view(),
                    )),
                    SignalingMessageType::IceCandidate => message@.connection_id is Some && (
                    message@.data matches Some(DataModel::Candidate { candidate })
                        && *final(self) == *old(self) && old(self).ice_out(
                        room_id@,
                        message@.connection_id->0,
                        candidate,
                        out.deep_view(),
                    )),
                    SignalingMessageType::Leave => message@.connection_id is Some
                        && Self::leave_post(
                        *old(self),
                        *final(self),
                        room_id@,
                        message@.connection_id->0,
                        out.deep_view(),
                    ),
                },
                Err(e) => match message@.message_type {
                    SignalingMessageType::Join => message@.connection_id is None && e
                        == MissingField::ConnectionId,
                    SignalingMessageType::Offer => if message@.connection_id is None {
                        e == MissingField::ConnectionId
                    } else {
                        !(message@.data matches Some(DataModel::Sdp { .. })) && e
                            == MissingField::Sdp
                    },
                    SignalingMessageType::Answer => if message@.connection_id is None {
                        e == MissingField::ConnectionId
                    } else {
                        !(message@.data matches Some(DataModel::Sdp { .. })) && e
                            == MissingField::Sdp
                    },
                    SignalingMessageType::IceCandidate => if message@.connection_id is None {
                        e == MissingField::ConnectionId
                    } else {
                        !(message@.data matches Some(DataModel::Candidate { .. })) && e
                            == MissingField::Candidate
                    },
                    SignalingMessageType::Leave => message@.connection_id is None && e
                        == MissingField::ConnectionId,
                },
            },
    {
        match message.message_type {
            SignalingMessageType::Join => {
                match &message.connection_id {
                    None => Err(MissingField::ConnectionId),
                    Some(cid) => {
                        let is_sender = match message.is_sender {
                            Some(b) => b,
                            None => false,
                        };
                        Ok(self.add_connection(room_id, cid.clone(), is_sender))
                    },
                }
            },
            SignalingMessageType::Offer => {
                match &message.connection_id {
                    None => Err(MissingField::ConnectionId),
                    Some(cid) => {
                        match &message.data {
                            Some(MessageData::Sdp { sdp }) => {
                                Ok(self.handle_sdp(room_id, cid.as_str(), sdp.as_str(), true))
                            },
                            _ => Err(MissingField::Sdp),
                        }
                    },
                }
            },
            SignalingMessageType::Answer => {
                match &message.connection_id {
                    None => Err(MissingField::ConnectionId),
                    Some(cid) => {
                        match &message.data {
                            Some(MessageData::Sdp { sdp }) => {
                                Ok(self.handle_sdp(room_id, cid.as_str(), sdp.as_str(), false))
                            },
                            _ => Err(MissingField::Sdp),
                        }
                    },
                }
            },
            SignalingMessageType::IceCandidate => {
                match &message.connection_id {
                    None => Err(MissingField::ConnectionId),
                    Some(cid) => {
                        match &message.data {
                            Some(MessageData::Candidate { candidate }) => {
                                Ok(self.handle_ice_candidate(
                                    room_id,
                                    cid.as_str(),
                                    candidate.as_str(),
                                ))
                            },
                            _ => Err(MissingField::Candidate),
                        }
                    },
                }
            },
            SignalingMessageType::Leave => {
                match &message.connection_id {
                    None => Err(MissingField::ConnectionId),
                    Some(cid) => Ok(self.remove_connection(room_id, cid.as_str())),
                }
            },
        }
    }

    /// Law: a well-formed registry keeps every room well-formed; in
    /// particular the viewer ids of any room it holds are pairwise distinct.
    pub proof fn lemma_room_viewers_distinct(self, id: Seq<char>)
        requires
            self.wf(),
            self.has_room(id),
        ensures
            self.room(id).wf(),
    {
        let i = self.room_idx(id);
        assert(0 <= i < self.rooms@.len() && self.rooms@[i]@.id == id);
        assert(self.rooms@[i]@.wf());
    }

    /// Every id that `drop_id` keeps differs from the dropped id and occurs
    /// in the original sequence.
    proof fn lemma_drop_id_props(vs: Seq<Seq<char>>, cid: Seq<char>)
        ensures
            forall|t: int|
                0 <= t < Self::drop_id(vs, cid).len() ==> #[trigger] Self::drop_id(vs, cid)[t]
                    != cid,
            forall|t: int|
                0 <= t < Self::drop_id(vs, cid).len() ==> vs.contains(
                    #[trigger] Self::drop_id(vs, cid)[t],
                ),
        decreases vs.len(),
    {
        reveal(Seq::filter);
        let out = Self::drop_id(vs, cid);
        if vs.len() == 0 {
            assert(out.len() == 0);
        } else {
            let sub = vs.drop_last();
            Self::lemma_drop_id_props(sub, cid);
            let sout = Self::drop_id(sub, cid);
            if vs.last() != cid {
                assert(out == sout.push(vs.last()));
            } else {
                assert(out == sout);
            }
            assert forall|t: int| 0 <= t < out.len() implies #[trigger] out[t] != cid
                && vs.contains(out[t]) by {
                if t < sout.len() {
                    assert(out[t] == sout[t]);
                    assert(sub.contains(sout[t]));
                    let u = choose|u: int| 0 <= u < sub.len() && sub[u] == sout[t];
                    assert(vs[u] == sout[t]);
                } else {
                    assert(out[t] == vs.last());
                    assert(vs[vs.len() - 1] == vs.last());
                }
            }
        }
    }

    /// Law: the `Leave` notifications of a removal address each remaining
    /// participant exactly once — never the departed connection — and every
    /// one carries the departed id and the remaining participant count.  The
    /// one state left out by the premise is a room whose sender id also
    /// occupies a viewer slot (reachable by rejoining under the other role);
    /// there that participant is notified twice, as in the behaviour the
    /// relay keeps.
    pub proof fn lemma_leave_notified_once(
        pre: Self,
        post: Self,
        rid: Seq<char>,
        cid: Seq<char>,
        out: Seq<MsgModel>,
    )
        requires
            pre.wf(),
            post.wf(),
            pre.has_room(rid),
            Self::leave_post(pre, post, rid, cid, out),
            pre.room(rid).sender_id matches Some(s) ==> !pre.room(rid).viewer_ids.contains(s),
        ensures
            forall|i: int|
                0 <= i < out.len() ==> (#[trigger] out[i]).message_type
                    == SignalingMessageType::Leave,
            forall|i: int|
                0 <= i < out.len() ==> (#[trigger] out[i]).data == Some(DataModel::LeaveInfo {
                    connection_id: cid,
                    connection_count: out.len() as usize,
                }),
            forall|i: int| 0 <= i < out.len() ==> (#[trigger] out[i]).connection_id != Some(cid),
            forall|i: int, j: int|
                0 <= i < j < out.len() ==> out[i].connection_id != out[j].connection_id,
    {
        let pre_room = pre.room(rid);
        let post_room = post.room(rid);
        let vs = post_room.viewer_ids;
        let parts = if post_room.sender_id is Some {
            vs.push(post_room.sender_id->0)
        } else {
            vs
        };
        Self::lemma_drop_id_props(pre_room.viewer_ids, cid);
        post.lemma_room_viewers_distinct(rid);
        if post_room.sender_id is Some {
            let s = post_room.sender_id->0;
            // the seat survives only when the departed id did not hold it
            assert(pre_room.sender_id == Some(s));
            assert(s != cid);
            assert(!pre_room.viewer_ids.contains(s));
            assert forall|t: int| 0 <= t < vs.len() implies vs[t] != s by {
                assert(pre_room.viewer_ids.contains(vs[t]));
            }
        }
        assert forall|i: int| 0 <= i < parts.len() implies parts[i] != cid by {
            if i < vs.len() {
                assert(vs[i] != cid);
            }
        }
        assert forall|i: int, j: int| 0 <= i < j < parts.len() implies parts[i] != parts[j] by {
            if j < vs.len() {
                assert(post_room.wf());
            } else {
                assert(parts[j] == post_room.sender_id->0);
                assert(parts[i] == vs[i]);
            }
        }
        assert forall|i: int, j: int| 0 <= i < j < out.len() implies out[i].connection_id != out[
            j
        ].connection_id by {
            assert(out[i].connection_id == Some(parts[i]));
            assert(out[j].connection_id == Some(parts[j]));
        }
    }
}

/// Law: in one fan-out batch every copy is addressed to its own viewer and
/// carries the same session description, and when the correlation ids handed
/// to the batch are pairwise distinct, the outbound envelopes carry pairwise
/// distinct `offer_id`s.  The correlation ids themselves come from a random
/// generator, so their distinctness is a premise here, not a conclusion.
pub proof fn lemma_offer_fanout(
    viewers: Seq<Seq<char>>,
    sender: Seq<char>,
    sdp: Seq<char>,
    oids: Seq<Seq<char>>,
    out: Seq<MsgModel>,
)
    requires
        out.len() == viewers.len(),
        oids.len() == viewers.len(),
        forall|i: int| 0 <= i < out.len() ==> #[trigger] out[i] == offer_msg(
            viewers[i],
            sender,
            sdp,
            oids[i],
        ),
        forall|i: int, j: int| 0 <= i < j < oids.len() ==> oids[i] != oids[j],
    ensures
        forall|i: int| 0 <= i < out.len() ==> (#[trigger] out[i]).connection_id == Some(viewers[i]),
        forall|i: int| 0 <= i < out.len() ==> (#[trigger] out[i]).data == Some(DataModel::Sdp {
            sdp,
        }),
        forall|i: int, j: int| 0 <= i < j < out.len() ==> out[i].offer_id != out[j].offer_id,
{
    assert forall|i: int, j: int| 0 <= i < j < out.len() implies out[i].offer_id != out[j].offer_id by {
        assert(out[i].offer_id == Some(oids[i]));
        assert(out[j].offer_id == Some(oids[j]));
    }
}

} // verus!
