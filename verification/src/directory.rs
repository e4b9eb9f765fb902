//! Persisted rooms: display name, creator and member name set.
//!
//! This set is deliberately decoupled from the live connection registry:
//! a user can be added to a room without ever opening a connection, and a
//! connection can join a room it was never added to.

use vstd::prelude::*;

use crate::message::RoomId;

verus! {

/// Why a directory operation failed.
#[derive(Clone, Copy, PartialEq, Eq, Structural, Debug)]
pub enum DirectoryError {
    /// No room with the given identifier exists.
    RoomNotFound,
}

/// A persisted room.
#[derive(Debug)]
pub struct Room {
    pub id: RoomId,
    pub name: String,
    pub creator: String,
    pub users: Vec<String>,
}

/// Mathematical model of a [`Room`].
pub ghost struct RoomModel {
    pub id: u128,
    pub name: Seq<char>,
    pub creator: Seq<char>,
    pub users: Seq<Seq<char>>,
}

impl View for Room {
    type V = RoomModel;

    open spec fn view(&self) -> RoomModel {
        RoomModel {
            id: self.id.raw,
            name: self.name@,
            creator: self.creator@,
            users: self.users.deep_view(),
        }
    }
}

/// No name is listed twice.
pub open spec fn names_distinct(s: Seq<Seq<char>>) -> bool {
    forall|i: int, j: int| 0 <= i < j < s.len() ==> s[i] != s[j]
}

/// A room model is well formed when its member names are unique and its
/// creator is among them (the creator is a member from creation on).
pub open spec fn room_wf(m: RoomModel) -> bool {
    names_distinct(m.users) && m.users.contains(m.creator)
}

/// The model after adding one member name: appended if new, unchanged if
/// already listed (the name set never holds duplicates).
pub open spec fn with_user(m: RoomModel, u: Seq<char>) -> RoomModel {
    if m.users.contains(u) {
        m
    } else {
        RoomModel { users: m.users.push(u), ..m }
    }
}

// an owned copy of the member name list
fn clone_names(v: &Vec<String>) -> (out: Vec<String>)
    ensures
        out.deep_view() == v.deep_view(),
        out@.len() == v@.len(),
{
    let n = v.len();
    let mut out: Vec<String> = Vec::new();
    let mut i: usize = 0;
    while i < n
        invariant
            n == v@.len(),
            i <= n,
            out@.len() == i,
            forall|j: int| 0 <= j < i ==> #[trigger] out@[j]@ == v@[j]@,
        decreases n - i,
    {
        out.push(v[i].clone());
        i += 1;
    }
    proof {
        assert(out.deep_view() =~= v.deep_view());
    }
    out
}

// whether the name is already listed
fn contains_name(v: &Vec<String>, s: &String) -> (r: bool)
    ensures
        r == v.deep_view().contains(s@),
{
    let n = v.len();
    let mut i: usize = 0;
    while i < n
        invariant
            n == v@.len(),
            i <= n,
            forall|j: int| 0 <= j < i ==> #[trigger] v.deep_view()[j] != s@,
        decreases n - i,
    {
        if v[i] == *s {
            proof {
                assert(v.deep_view()[i as int] == s@);
            }
            return true;
        }
        i += 1;
    }
    proof {
        assert(!v.deep_view().contains(s@)) by {
            if v.deep_view().contains(s@) {
                let j = choose|j: int| 0 <= j < v.deep_view().len() && v.deep_view()[j] == s@;
                assert(v.deep_view()[j] != s@);
            }
        }
    }
    false
}

impl Clone for Room {
    fn clone(&self) -> (r: Room)
        ensures
            r@ == self@,
    {
        Room {
            id: self.id,
            name: self.name.clone(),
            creator: self.creator.clone(),
            users: clone_names(&self.users),
        }
    }
}

/// The persisted room set, keyed by room identifier.
pub struct RoomDirectory {
    rooms: Vec<Room>,
}

impl RoomDirectory {
    spec fn has_at(self, id: u128) -> bool {
        exists|i: int| 0 <= i < self.rooms@.len() && self.rooms@[i].id.raw == id
    }

    spec fn idx_of(self, id: u128) -> int {
        choose|i: int| 0 <= i < self.rooms@.len() && self.rooms@[i].id.raw == id
    }

    /// Whether a room with this identifier exists.
    pub closed spec fn has_room(self, id: u128) -> bool {
        self.has_at(id)
    }

    /// The model of the room with this identifier (a room with empty
    /// fields for an absent identifier).
    pub closed spec fn spec_room(self, id: u128) -> RoomModel {
        if self.has_at(id) {
            self.rooms@[self.idx_of(id)]@
        } else {
            RoomModel { id: 0, name: Seq::empty(), creator: Seq::empty(), users: Seq::empty() }
        }
    }

    /// The models of all rooms, in insertion order.
    pub closed spec fn spec_rooms(self) -> Seq<RoomModel> {
        self.rooms@.map_values(|r: Room| r@)
    }

    /// Well-formedness: identifiers are unique and every room is well
    /// formed.
    pub closed spec fn wf(self) -> bool {
        (forall|i: int, j: int|
            0 <= i < j < self.rooms@.len() ==> self.rooms@[i].id.raw != self.rooms@[j].id.raw)
            && (forall|i: int| 0 <= i < self.rooms@.len() ==> room_wf(#[trigger] self.rooms@[i]@))
    }

    /// Every room of a well-formed directory satisfies [`room_wf`]; in
    /// particular the creator is always a member.
    pub proof fn lemma_room_wf(self, id: u128)
        requires
            self.wf(),
            self.has_room(id),
        ensures
            room_wf(self.spec_room(id)),
    {
        let i = self.idx_of(id);
        assert(room_wf(self.rooms@[i]@));
    }

    proof fn lemma_idx(self, id: u128, i: int)
        requires
            forall|a: int, b: int|
                0 <= a < b < self.rooms@.len() ==> self.rooms@[a].id.raw != self.rooms@[b].id.raw,
            0 <= i < self.rooms@.len(),
            self.rooms@[i].id.raw == id,
        ensures
            self.has_room(id),
            self.idx_of(id) == i,
            self.spec_room(id) == self.rooms@[i]@,
    {
        let j = self.idx_of(id);
        assert(0 <= j < self.rooms@.len() && self.rooms@[j].id.raw == id);
        if i < j {
            assert(self.rooms@[i].id.raw != self.rooms@[j].id.raw);
        } else if j < i {
            assert(self.rooms@[j].id.raw != self.rooms@[i].id.raw);
        }
    }

    /// An empty directory.
    pub fn new() -> (r: RoomDirectory)
        ensures
            r.wf(),
            forall|id: u128| !(#[trigger] r.has_room(id)),
            r.spec_rooms() == Seq::<RoomModel>::empty(),
    {
        let r = RoomDirectory { rooms: Vec::new() };
        proof {
            assert(r.spec_rooms() =~= Seq::<RoomModel>::empty());
        }
        r
    }

    fn find_room(&self, id: u128) -> (r: Option<usize>)
        requires
            self.wf(),
        ensures
            match r {
                Some(i) => i < self.rooms@.len() && self.rooms@[i as int].id.raw == id
                    && self.has_room(id) && self.idx_of(id) == i,
                None => !self.has_room(id),
            },
    {
        let n = self.rooms.len();
        let mut i: usize = 0;
        while i < n
            invariant
                n == self.rooms@.len(),
                i <= n,
                self.wf(),
                forall|j: int| 0 <= j < i ==> self.rooms@[j].id.raw != id,
            decreases n - i,
        {
            if self.rooms[i].id.raw == id {
                proof {
                    self.lemma_idx(id, i as int);
                }
                return Some(i);
            }
            i += 1;
        }
        None
    }

    /// Create (or replace) the room with this identifier. The creator is
    /// its first member. Returns a copy of the stored room.
    pub fn create_room(&mut self, id: RoomId, name: String, creator: String) -> (r: Room)
        requires
            old(self).wf(),
        ensures
            final (self).wf(),
            r@ == (RoomModel {
                id: id.raw,
                name: name@,
                creator: creator@,
                users: seq![creator@],
            }),
            final (self).has_room(id.raw),
            final (self).spec_room(id.raw) == r@,
            forall|x: u128|
                x != id.raw ==> #[trigger] final (self).has_room(x) == old(self).has_room(x),
            forall|x: u128|
                x != id.raw ==> #[trigger] final (self).spec_room(x) == old(self).spec_room(x),
    {
        let ghost pre = *self;
        let mut users: Vec<String> = Vec::new();
        users.push(creator.clone());
        let room = Room { id, name, creator, users };
        proof {
            assert(room@.users =~= seq![room@.creator]);
            assert(room@.users[0] == room@.creator);
            assert(room@.users.contains(room@.creator));
            assert(room_wf(room@));
        }
        let copy = room.clone();
        match self.find_room(id.raw) {
            Some(i) => {
                self.rooms.remove(i);
                self.rooms.insert(i, room);
                proof {
                    let new = *self;
                    assert(new.rooms@ =~= pre.rooms@.update(i as int, new.rooms@[i as int]));
                    assert(new.rooms@[i as int]@ == copy@);
                    assert(forall|j: int|
                        0 <= j < new.rooms@.len() ==> #[trigger] new.rooms@[j].id.raw
                            == pre.rooms@[j].id.raw);
                    new.lemma_idx(id.raw, i as int);
                    assert forall|x: u128|
                        #![trigger new.has_room(x)]
                        #![trigger new.spec_room(x)]
                        x != id.raw implies new.has_room(x) == pre.has_room(x)
                        && new.spec_room(x) == pre.spec_room(x) by {
                        if pre.has_room(x) {
                            let j = pre.idx_of(x);
                            pre.lemma_idx(x, j);
                            assert(j != i as int);
                            assert(new.rooms@[j] == pre.rooms@[j]);
                            new.lemma_idx(x, j);
                        } else {
                            assert(!new.has_room(x)) by {
                                if new.has_room(x) {
                                    let j = new.idx_of(x);
                                    assert(pre.rooms@[j].id.raw == x);
                                }
                            }
                        }
                    }
                    assert(new.wf()) by {
                        assert forall|ix: int|
                            0 <= ix < new.rooms@.len() implies room_wf(
                            #[trigger] new.rooms@[ix]@,
                        ) by {
                            if ix != i as int {
                                assert(new.rooms@[ix] == pre.rooms@[ix]);
                                assert(room_wf(pre.rooms@[ix]@));
                            }
                        }
                    }
                }
            },
            None => {
                self.rooms.push(room);
                proof {
                    let new = *self;
                    let n = pre.rooms@.len();
                    assert(new.rooms@ == pre.rooms@.push(new.rooms@[n as int]));
                    assert(new.rooms@[n as int]@ == copy@);
                    assert(forall|j: int|
                        0 <= j < n ==> #[trigger] new.rooms@[j] == pre.rooms@[j]);
                    assert(forall|j: int|
                        0 <= j < n ==> #[trigger] pre.rooms@[j].id.raw != id.raw);
                    new.lemma_idx(id.raw, n as int);
                    assert forall|x: u128|
                        #![trigger new.has_room(x)]
                        #![trigger new.spec_room(x)]
                        x != id.raw implies new.has_room(x) == pre.has_room(x)
                        && new.spec_room(x) == pre.spec_room(x) by {
                        if pre.has_room(x) {
                            let j = pre.idx_of(x);
                            pre.lemma_idx(x, j);
                            new.lemma_idx(x, j);
                        } else {
                            assert(!new.has_room(x)) by {
                                if new.has_room(x) {
                                    let j = new.idx_of(x);
                                    assert(j != n as int);
                                    assert(pre.rooms@[j].id.raw == x);
                                }
                            }
                        }
                    }
                    assert(new.wf()) by {
                        assert forall|ix: int|
                            0 <= ix < new.rooms@.len() implies room_wf(
                            #[trigger] new.rooms@[ix]@,
                        ) by {
                            if ix < n {
                                assert(new.rooms@[ix] == pre.rooms@[ix]);
                                assert(room_wf(pre.rooms@[ix]@));
                            }
                        }
                    }
                }
            },
        }
        copy
    }

    /// Create a room under a freshly drawn identifier. The identifier is
    /// random, so the contract only relates the new state to whatever
    /// identifier came back (an existing room under the same identifier
    /// would be replaced).
    pub fn create_room_fresh(&mut self, name: String, creator: String) -> (r: Room)
        requires
            old(self).wf(),
        ensures
            final (self).wf(),
            r@ == (RoomModel {
                id: r@.id,
                name: name@,
                creator: creator@,
                users: seq![creator@],
            }),
            final (self).has_room(r@.id),
            final (self).spec_room(r@.id) == r@,
            forall|x: u128|
                x != r@.id ==> #[trigger] final (self).has_room(x) == old(self).has_room(x),
            forall|x: u128|
                x != r@.id ==> #[trigger] final (self).spec_room(x) == old(self).spec_room(x),
    {
        let raw = fresh_uuid();
        self.create_room(RoomId { raw }, name, creator)
    }

    /// Add a member name to the room. Succeeds exactly when the room
    /// exists; the name set never holds duplicates. Returns a copy of the
    /// updated room, or reports the unknown identifier.
    pub fn add_user(&mut self, id: RoomId, username: String) -> (r: Result<Room, DirectoryError>)
        requires
            old(self).wf(),
        ensures
            final (self).wf(),
            r is Ok <==> old(self).has_room(id.raw),
            r is Err ==> r == Result::<Room, DirectoryError>::Err(DirectoryError::RoomNotFound)
                && *final (self) == *old(self),
            r matches Ok(room) ==> room@ == with_user(old(self).spec_room(id.raw), username@)
                && final (self).has_room(id.raw) && final (self).spec_room(id.raw) == room@,
            r is Ok ==> forall|x: u128|
                x != id.raw ==> #[trigger] final (self).has_room(x) == old(self).has_room(x),
            r is Ok ==> forall|x: u128|
                x != id.raw ==> #[trigger] final (self).spec_room(x) == old(self).spec_room(x),
    {
        let ghost pre = *self;
        match self.find_room(id.raw) {
            Some(i) => {
                let mut room = self.rooms.remove(i);
                let ghost old_model = room@;
                if !contains_name(&room.users, &username) {
                    room.users.push(username);
                    proof {
                        assert(room@.users =~= old_model.users.push(room@.users.last()));
                        assert(room@ == with_user(old_model, room@.users.last()));
                    }
                }
                let copy = room.clone();
                self.rooms.insert(i, room);
                proof {
                    let new = *self;
                    assert(new.rooms@ =~= pre.rooms@.update(i as int, new.rooms@[i as int]));
                    assert(forall|j: int|
                        0 <= j < new.rooms@.len() ==> #[trigger] new.rooms@[j].id.raw
                            == pre.rooms@[j].id.raw);
                    pre.lemma_idx(id.raw, i as int);
                    new.lemma_idx(id.raw, i as int);
                    assert(copy@ == with_user(pre.spec_room(id.raw), username@));
                    assert forall|x: u128|
                        #![trigger new.has_room(x)]
                        #![trigger new.spec_room(x)]
                        x != id.raw implies new.has_room(x) == pre.has_room(x)
                        && new.spec_room(x) == pre.spec_room(x) by {
                        if pre.has_room(x) {
                            let j = pre.idx_of(x);
                            pre.lemma_idx(x, j);
                            assert(j != i as int);
                            assert(new.rooms@[j] == pre.rooms@[j]);
                            new.lemma_idx(x, j);
                        } else {
                            assert(!new.has_room(x)) by {
                                if new.has_room(x) {
                                    let j = new.idx_of(x);
                                    assert(pre.rooms@[j].id.raw == x);
                                }
                            }
                        }
                    }
                    assert(new.wf()) by {
                        broadcast use vstd::seq_lib::lemma_seq_contains_after_push;

                        assert forall|ix: int|
                            0 <= ix < new.rooms@.len() implies room_wf(
                            #[trigger] new.rooms@[ix]@,
                        ) by {
                            if ix == i as int {
                                assert(room_wf(old_model));
                                let m = new.rooms@[ix]@;
                                if !old_model.users.contains(username@) {
                                    assert(m.users == old_model.users.push(username@));
                                    assert forall|a: int, b: int|
                                        0 <= a < b < m.users.len() implies m.users[a]
                                        != m.users[b] by {
                                        if b < old_model.users.len() {
                                        } else {
                                            assert(m.users[a] == old_model.users[a]);
                                            assert(old_model.users.contains(
                                                old_model.users[a],
                                            ));
                                        }
                                    }
                                    assert(m.users.contains(m.creator));
                                }
                            } else {
                                assert(new.rooms@[ix] == pre.rooms@[ix]);
                                assert(room_wf(pre.rooms@[ix]@));
                            }
                        }
                    }
                }
                Ok(copy)
            },
            None => Err(DirectoryError::RoomNotFound),
        }
    }

    /// Copies of all rooms, in insertion order.
    pub fn list_rooms(&self) -> (r: Vec<Room>)
        requires
            self.wf(),
        ensures
            r@.map_values(|x: Room| x@) == self.spec_rooms(),
    {
        let n = self.rooms.len();
        let mut out: Vec<Room> = Vec::new();
        let mut i: usize = 0;
        while i < n
            invariant
                n == self.rooms@.len(),
                i <= n,
                out@.len() == i,
                forall|j: int| 0 <= j < i ==> #[trigger] out@[j]@ == self.rooms@[j]@,
            decreases n - i,
        {
            out.push(self.rooms[i].clone());
            i += 1;
        }
        proof {
            assert(out@.map_values(|x: Room| x@) =~= self.spec_rooms());
        }
        out
    }
}

/// Relies on `uuid::Uuid::new_v4` and `Uuid::as_u128` to draw a fresh
/// random room identifier. The result is random, so nothing is promised
/// of its value.
#[verifier::external_body]
fn fresh_uuid() -> (r: u128) {
    uuid::Uuid::new_v4().as_u128()
}

} // verus!
