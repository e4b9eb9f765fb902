//! Room registry: which live connections belong to which room.
//!
//! Connections are identified by a stable generated id (`u64`), rooms by
//! their 128-bit identifier. The registry keeps, per room, the member ids
//! in insertion order. Its contracts speak through [`Registry::spec_members`],
//! the member sequence of each room (empty for a room with no entry).
//!
//! A connection is registered in at most one room at a time: registering it
//! in a room first withdraws it from every room, so joining a second room
//! without leaving the first moves the connection (the latter room wins).

use vstd::prelude::*;

verus! {

/// The member sequence with every occurrence of `c` removed.
pub open spec fn without(s: Seq<u64>, c: u64) -> Seq<u64> {
    s.filter(|x: u64| x != c)
}

/// A sequence with no repeated element.
pub open spec fn distinct(s: Seq<u64>) -> bool {
    forall|i: int, j: int| 0 <= i < j < s.len() ==> s[i] != s[j]
}

/// `without` keeps exactly the elements other than the removed one.
pub proof fn lemma_without_membership(s: Seq<u64>, c: u64)
    ensures
        forall|x: u64| #[trigger] without(s, c).contains(x) <==> (s.contains(x) && x != c),
    decreases s.len(),
{
    reveal(Seq::filter);
    broadcast use vstd::seq_lib::lemma_seq_contains_after_push;

    if s.len() == 0 {
        assert(without(s, c) =~= Seq::<u64>::empty());
    } else {
        let d = s.drop_last();
        lemma_without_membership(d, c);
        assert(s =~= d.push(s.last()));
        assert forall|x: u64| #[trigger] without(s, c).contains(x) <==> (s.contains(x) && x
            != c) by {
            if s.last() != c {
                assert(without(s, c) == without(d, c).push(s.last()));
            } else {
                assert(without(s, c) == without(d, c));
            }
        }
    }
}

/// Removing an element that is not there changes nothing.
pub proof fn lemma_without_absent(s: Seq<u64>, c: u64)
    requires
        !s.contains(c),
    ensures
        without(s, c) == s,
    decreases s.len(),
{
    reveal(Seq::filter);
    if s.len() == 0 {
        assert(without(s, c) =~= s);
    } else {
        let d = s.drop_last();
        assert(!d.contains(c)) by {
            if d.contains(c) {
                let i = choose|i: int| 0 <= i < d.len() && d[i] == c;
                assert(s[i] == c);
                assert(s.contains(c));
            }
        }
        lemma_without_absent(d, c);
        assert(s.last() != c) by {
            if s.last() == c {
                assert(s[s.len() - 1] == c);
                assert(s.contains(c));
            }
        }
        assert(without(s, c) == without(d, c).push(s.last()));
        assert(without(s, c) =~= s);
    }
}

/// Removing the same element twice is the same as removing it once.
pub proof fn lemma_without_idempotent(s: Seq<u64>, c: u64)
    ensures
        without(without(s, c), c) == without(s, c),
{
    lemma_without_membership(s, c);
    lemma_without_absent(without(s, c), c);
}

/// `without` preserves distinctness.
pub proof fn lemma_without_distinct(s: Seq<u64>, c: u64)
    requires
        distinct(s),
    ensures
        distinct(without(s, c)),
    decreases s.len(),
{
    reveal(Seq::filter);
    broadcast use vstd::seq_lib::lemma_seq_contains_after_push;

    if s.len() > 0 {
        let d = s.drop_last();
        assert(distinct(d)) by {
            assert(forall|i: int, j: int| 0 <= i < j < d.len() ==> d[i] == s[i] && d[j] == s[j]);
        }
        lemma_without_distinct(d, c);
        if s.last() != c {
            assert(!d.contains(s.last())) by {
                if d.contains(s.last()) {
                    let i = choose|i: int| 0 <= i < d.len() && d[i] == s.last();
                    assert(s[i] == s[s.len() - 1]);
                }
            }
            lemma_without_membership(d, c);
            let w = without(d, c);
            assert(without(s, c) == w.push(s.last()));
            assert forall|i: int, j: int|
                0 <= i < j < w.push(s.last()).len() implies w.push(s.last())[i] != w.push(
                s.last(),
            )[j] by {
                if j < w.len() {
                } else {
                    assert(w.push(s.last())[j] == s.last());
                    assert(w.push(s.last())[i] == w[i]);
                    assert(w.contains(w[i]));
                }
            }
        } else {
            assert(without(s, c) == without(d, c));
        }
    }
}

struct RoomEntry {
    room: u128,
    members: Vec<u64>,
}

/// The room-to-members mapping. All mutation of live membership funnels
/// through [`Registry::register`] and [`Registry::deregister`].
pub struct Registry {
    entries: Vec<RoomEntry>,
}

impl Registry {
    spec fn has_room(self, room: u128) -> bool {
        exists|i: int| 0 <= i < self.entries@.len() && self.entries@[i].room == room
    }

    spec fn idx_of(self, room: u128) -> int {
        choose|i: int| 0 <= i < self.entries@.len() && self.entries@[i].room == room
    }

    /// The live member sequence of a room; empty when the room has no entry.
    pub closed spec fn spec_members(self, room: u128) -> Seq<u64> {
        if self.has_room(room) {
            self.entries@[self.idx_of(room)].members@
        } else {
            Seq::empty()
        }
    }

    spec fn rooms_distinct(self) -> bool {
        forall|i: int, j: int|
            0 <= i < j < self.entries@.len() ==> self.entries@[i].room != self.entries@[j].room
    }

    spec fn entries_distinct(self) -> bool {
        forall|i: int| 0 <= i < self.entries@.len() ==> distinct(#[trigger] self.entries@[i].members@)
    }

    spec fn entries_disjoint(self) -> bool {
        forall|i: int, j: int, c: u64|
            0 <= i < self.entries@.len() && 0 <= j < self.entries@.len() && i != j && #[trigger] self.entries@[i].members@.contains(c) ==> !(#[trigger] self.entries@[j].members@.contains(
                c,
            ))
    }

    /// Well-formedness: room keys are unique, no member is listed twice in
    /// a room, and no connection is a member of two rooms.
    pub closed spec fn wf(self) -> bool {
        self.rooms_distinct() && self.entries_distinct() && self.entries_disjoint()
    }

    proof fn lemma_idx(self, room: u128, i: int)
        requires
            self.rooms_distinct(),
            0 <= i < self.entries@.len(),
            self.entries@[i].room == room,
        ensures
            self.has_room(room),
            self.idx_of(room) == i,
            self.spec_members(room) == self.entries@[i].members@,
    {
        assert(self.has_room(room));
        let j = self.idx_of(room);
        assert(0 <= j < self.entries@.len() && self.entries@[j].room == room);
        if i < j {
            assert(self.entries@[i].room != self.entries@[j].room);
        } else if j < i {
            assert(self.entries@[j].room != self.entries@[i].room);
        }
    }

    // after a connection was withdrawn from every room, no entry holds it
    proof fn lemma_clean(mid: Registry, prev: Registry, conn: u64, jx: int)
        requires
            mid.wf(),
            0 <= jx < mid.entries@.len(),
            forall|r: u128|
                #[trigger] mid.spec_members(r) == without(prev.spec_members(r), conn),
        ensures
            !mid.entries@[jx].members@.contains(conn),
    {
        let rj = mid.entries@[jx].room;
        mid.lemma_idx(rj, jx);
        assert(mid.spec_members(rj) == without(prev.spec_members(rj), conn));
        lemma_without_membership(prev.spec_members(rj), conn);
    }

    /// A room's member list never repeats a connection.
    pub proof fn lemma_members_distinct(self, room: u128)
        requires
            self.wf(),
        ensures
            distinct(self.spec_members(room)),
    {
        if self.has_room(room) {
            let i = self.idx_of(room);
            assert(distinct(self.entries@[i].members@));
        }
    }

    /// A connection is a member of at most one room.
    pub proof fn lemma_one_room(self, r1: u128, r2: u128, c: u64)
        requires
            self.wf(),
            r1 != r2,
            self.spec_members(r1).contains(c),
        ensures
            !self.spec_members(r2).contains(c),
    {
        assert(self.has_room(r1));
        let i = self.idx_of(r1);
        if self.has_room(r2) {
            let j = self.idx_of(r2);
            assert(i != j);
            assert(self.entries@[i].members@.contains(c));
        }
    }

    /// An empty registry: every room's member sequence is empty.
    pub fn new() -> (r: Registry)
        ensures
            r.wf(),
            forall|room: u128| r.spec_members(room) == Seq::<u64>::empty(),
    {
        let r = Registry { entries: Vec::new() };
        proof {
            assert(forall|room: u128| !r.has_room(room));
        }
        r
    }

    fn find_room(&self, room: u128) -> (r: Option<usize>)
        requires
            self.rooms_distinct(),
        ensures
            match r {
                Some(i) => i < self.entries@.len() && self.entries@[i as int].room == room
                    && self.has_room(room) && self.idx_of(room) == i && self.spec_members(room)
                    == self.entries@[i as int].members@,
                None => !self.has_room(room) && self.spec_members(room) == Seq::<u64>::empty(),
            },
    {
        let n = self.entries.len();
        let mut i: usize = 0;
        while i < n
            invariant
                n == self.entries@.len(),
                i <= n,
                self.rooms_distinct(),
                forall|j: int| 0 <= j < i ==> self.entries@[j].room != room,
            decreases n - i,
        {
            if self.entries[i].room == room {
                proof {
                    self.lemma_idx(room, i as int);
                }
                return Some(i);
            }
            i += 1;
        }
        proof {
            assert(!self.has_room(room));
        }
        None
    }

    /// Snapshot of the current members of a room: a copy, never a live view,
    /// so fanout iteration is not invalidated by later joins or leaves.
    pub fn members_of(&self, room: u128) -> (r: Vec<u64>)
        requires
            self.wf(),
        ensures
            r@ == self.spec_members(room),
    {
        match self.find_room(room) {
            Some(i) => {
                let m = self.entries[i].members.clone();
                proof {
                    assert(m@ =~= self.entries@[i as int].members@);
                }
                m
            },
            None => Vec::new(),
        }
    }

    /// Remove the connection from every room's member list (used when the
    /// connection disconnects, and to move it on a second register).
    pub(crate) fn withdraw(&mut self, conn: u64)
        requires
            old(self).wf(),
        ensures
            final (self).wf(),
            forall|r: u128|
                #[trigger] final (self).spec_members(r) == without(old(self).spec_members(r), conn),
    {
        let ghost old_entries = self.entries@;
        let n = self.entries.len();
        let mut out: Vec<RoomEntry> = Vec::new();
        let mut i: usize = 0;
        while i < n
            invariant
                n == self.entries@.len(),
                self.entries@ == old_entries,
                i <= n,
                out@.len() == i,
                forall|j: int| 0 <= j < i ==> #[trigger] out@[j].room == old_entries[j].room,
                forall|j: int|
                    0 <= j < i ==> #[trigger] out@[j].members@ == without(
                        old_entries[j].members@,
                        conn,
                    ),
            decreases n - i,
        {
            let m = vec_without(&self.entries[i].members, conn);
            let room_i = self.entries[i].room;
            out.push(RoomEntry { room: room_i, members: m });
            i += 1;
        }
        self.entries = out;
        proof {
            let new = *self;
            // room keys are unchanged, so lookup lands on the same index
            assert(new.rooms_distinct());
            assert forall|r: u128|
                #[trigger] new.spec_members(r) == without(
                    old(self).spec_members(r),
                    conn,
                ) by {
                if old(self).has_room(r) {
                    let ix = old(self).idx_of(r);
                    assert(old_entries[ix].room == r);
                    assert(new.entries@[ix].room == r);
                    new.lemma_idx(r, ix);
                    old(self).lemma_idx(r, ix);
                } else {
                    assert(!new.has_room(r)) by {
                        if new.has_room(r) {
                            let ix = new.idx_of(r);
                            assert(old_entries[ix].room == r);
                            assert(old(self).has_room(r));
                        }
                    }
                    assert(without(Seq::<u64>::empty(), conn) =~= Seq::<u64>::empty()) by {
                        reveal(Seq::filter);
                    }
                }
            }
            assert(new.entries_distinct()) by {
                assert forall|ix: int|
                    0 <= ix < new.entries@.len() implies distinct(
                    #[trigger] new.entries@[ix].members@,
                ) by {
                    lemma_without_distinct(old_entries[ix].members@, conn);
                }
            }
            assert(new.entries_disjoint()) by {
                assert forall|ix: int, jx: int, c: u64|
                    0 <= ix < new.entries@.len() && 0 <= jx < new.entries@.len() && ix != jx
                        && #[trigger] new.entries@[ix].members@.contains(c) implies !(
                #[trigger] new.entries@[jx].members@.contains(c)) by {
                    lemma_without_membership(old_entries[ix].members@, conn);
                    lemma_without_membership(old_entries[jx].members@, conn);
                }
            }
        }
    }

    /// Add the connection to the room's member list, first withdrawing it
    /// from every room. Registering twice never duplicates delivery, and a
    /// second room replaces the first.
    pub fn register(&mut self, room: u128, conn: u64)
        requires
            old(self).wf(),
        ensures
            final (self).wf(),
            final (self).spec_members(room) == without(old(self).spec_members(room), conn).push(
                conn,
            ),
            forall|r: u128|
                r != room ==> #[trigger] final (self).spec_members(r) == without(
                    old(self).spec_members(r),
                    conn,
                ),
    {
        self.withdraw(conn);
        let ghost mid = *self;
        match self.find_room(room) {
            Some(i) => {
                let mut entry = self.entries.remove(i);
                entry.members.push(conn);
                self.entries.insert(i, entry);
                proof {
                    let new = *self;
                    assert(new.entries@ =~= mid.entries@.update(
                        i as int,
                        new.entries@[i as int],
                    ));
                    assert(new.entries@[i as int].room == room);
                    assert(new.entries@[i as int].members@ == mid.entries@[i as int].members@.push(
                        conn,
                    ));
                    assert(new.rooms_distinct()) by {
                        assert(forall|j: int|
                            0 <= j < new.entries@.len() ==> #[trigger] new.entries@[j].room
                                == mid.entries@[j].room);
                    }
                    new.lemma_idx(room, i as int);
                    assert(new.spec_members(room) == without(
                        old(self).spec_members(room),
                        conn,
                    ).push(conn));
                    assert forall|r: u128|
                        r != room implies #[trigger] new.spec_members(r) == without(
                        old(self).spec_members(r),
                        conn,
                    ) by {
                        assert(mid.spec_members(r) == without(old(self).spec_members(r), conn));
                        if mid.has_room(r) {
                            let ix = mid.idx_of(r);
                            assert(mid.entries@[ix].room == r);
                            assert(ix != i as int);
                            mid.lemma_idx(r, ix);
                            assert(new.entries@[ix].members@ == mid.entries@[ix].members@);
                            assert(new.entries@[ix].room == r);
                            new.lemma_idx(r, ix);
                        } else {
                            assert(!new.has_room(r)) by {
                                if new.has_room(r) {
                                    let ix = new.idx_of(r);
                                    assert(mid.entries@[ix].room == r);
                                    assert(mid.has_room(r));
                                }
                            }
                        }
                    }
                    assert(new.entries_distinct()) by {
                        lemma_without_membership(old(self).spec_members(room), conn);
                        mid.lemma_idx(room, i as int);
                        let w = mid.entries@[i as int].members@;
                        assert(!w.contains(conn));
                        assert(distinct(w));
                        assert forall|ix: int|
                            0 <= ix < new.entries@.len() implies distinct(
                            #[trigger] new.entries@[ix].members@,
                        ) by {
                            if ix == i as int {
                                broadcast use vstd::seq_lib::lemma_seq_contains_after_push;

                                assert forall|a: int, b: int|
                                    0 <= a < b < w.push(conn).len() implies w.push(conn)[a]
                                    != w.push(conn)[b] by {
                                    if b < w.len() {
                                    } else {
                                        assert(w.push(conn)[a] == w[a]);
                                        assert(w.contains(w[a]));
                                    }
                                }
                            } else {
                                assert(distinct(mid.entries@[ix].members@));
                            }
                        }
                    }
                    assert(new.entries_disjoint()) by {
                        broadcast use vstd::seq_lib::lemma_seq_contains_after_push;

                        let w = mid.entries@[i as int].members@;
                        assert forall|ix: int, jx: int, c: u64|
                            0 <= ix < new.entries@.len() && 0 <= jx < new.entries@.len() && ix
                                != jx && #[trigger] new.entries@[ix].members@.contains(c) implies !(
                        #[trigger] new.entries@[jx].members@.contains(c)) by {
                            if ix == i as int {
                                assert(new.entries@[jx].members@ == mid.entries@[jx].members@);
                                if c == conn {
                                    // conn was withdrawn from every room, so no
                                    // other entry can still hold it
                                    Self::lemma_clean(mid, *old(self), conn, jx);
                                } else {
                                    assert(w.contains(c));
                                    assert(mid.entries@[i as int].members@.contains(c));
                                }
                            } else if jx == i as int {
                                assert(new.entries@[ix].members@ == mid.entries@[ix].members@);
                                assert(mid.entries@[ix].members@.contains(c));
                                assert(c != conn) by {
                                    Self::lemma_clean(mid, *old(self), conn, ix);
                                }
                                assert(!mid.entries@[i as int].members@.contains(c));
                                assert(!w.push(conn).contains(c));
                            } else {
                                assert(new.entries@[ix].members@ == mid.entries@[ix].members@);
                                assert(new.entries@[jx].members@ == mid.entries@[jx].members@);
                                assert(mid.entries@[ix].members@.contains(c));
                            }
                        }
                    }
                }
            },
            None => {
                let mut members: Vec<u64> = Vec::new();
                members.push(conn);
                self.entries.push(RoomEntry { room, members });
                proof {
                    let new = *self;
                    let n = mid.entries@.len();
                    assert(new.entries@.len() == n + 1);
                    assert(new.entries@[n as int].room == room);
                    assert(new.rooms_distinct()) by {
                        assert(forall|j: int|
                            0 <= j < n ==> #[trigger] new.entries@[j].room == mid.entries@[j].room);
                        assert(forall|j: int|
                            0 <= j < n ==> #[trigger] mid.entries@[j].room != room);
                    }
                    new.lemma_idx(room, n as int);
                    assert(mid.spec_members(room) == Seq::<u64>::empty());
                    assert(new.spec_members(room) =~= without(
                        old(self).spec_members(room),
                        conn,
                    ).push(conn));
                    assert forall|r: u128|
                        r != room implies #[trigger] new.spec_members(r) == without(
                        old(self).spec_members(r),
                        conn,
                    ) by {
                        assert(mid.spec_members(r) == without(old(self).spec_members(r), conn));
                        if mid.has_room(r) {
                            let ix = mid.idx_of(r);
                            assert(mid.entries@[ix].room == r);
                            mid.lemma_idx(r, ix);
                            assert(new.entries@[ix].members@ == mid.entries@[ix].members@);
                            assert(new.entries@[ix].room == r);
                            new.lemma_idx(r, ix);
                        } else {
                            assert(!new.has_room(r)) by {
                                if new.has_room(r) {
                                    let ix = new.idx_of(r);
                                    if ix < n {
                                        assert(mid.entries@[ix].room == r);
                                        assert(mid.has_room(r));
                                    }
                                }
                            }
                        }
                    }
                    assert(new.entries_distinct()) by {
                        assert forall|ix: int|
                            0 <= ix < new.entries@.len() implies distinct(
                            #[trigger] new.entries@[ix].members@,
                        ) by {
                            if ix < n {
                                assert(distinct(mid.entries@[ix].members@));
                            } else {
                                assert(new.entries@[ix].members@ =~= Seq::empty().push(conn));
                            }
                        }
                    }
                    assert(new.entries_disjoint()) by {
                        broadcast use vstd::seq_lib::lemma_seq_contains_after_push;

                        assert(forall|j: int|
                            0 <= j < n ==> #[trigger] new.entries@[j] == mid.entries@[j]);
                        assert forall|ix: int, jx: int, c: u64|
                            0 <= ix < new.entries@.len() && 0 <= jx < new.entries@.len() && ix
                                != jx && #[trigger] new.entries@[ix].members@.contains(c) implies !(
                        #[trigger] new.entries@[jx].members@.contains(c)) by {
                            if ix == n as int {
                                assert(new.entries@[ix].members@ =~= Seq::<u64>::empty().push(
                                    conn,
                                ));
                                assert(c == conn);
                                assert(new.entries@[jx].members@ == mid.entries@[jx].members@);
                                Self::lemma_clean(mid, *old(self), conn, jx);
                            } else if jx == n as int {
                                assert(new.entries@[ix].members@ == mid.entries@[ix].members@);
                                assert(mid.entries@[ix].members@.contains(c));
                                assert(c != conn) by {
                                    Self::lemma_clean(mid, *old(self), conn, ix);
                                }
                                assert(new.entries@[jx].members@ =~= Seq::<u64>::empty().push(
                                    conn,
                                ));
                            } else {
                                assert(new.entries@[ix].members@ == mid.entries@[ix].members@);
                                assert(new.entries@[jx].members@ == mid.entries@[jx].members@);
                                assert(mid.entries@[ix].members@.contains(c));
                            }
                        }
                    }
                }
            },
        }
    }

    // the member view of the entry at a concrete index, for proofs that
    // relate entries to `spec_members`
    spec fn spec_members_at(self, i: int) -> Seq<u64> {
        self.entries@[i].members@
    }

    /// Remove the connection from the room's member list; a no-op when it
    /// is not a member (deregistering never errors).
    pub fn deregister(&mut self, room: u128, conn: u64)
        requires
            old(self).wf(),
        ensures
            final (self).wf(),
            final (self).spec_members(room) == without(old(self).spec_members(room), conn),
            forall|r: u128|
                r != room ==> #[trigger] final (self).spec_members(r) == old(self).spec_members(r),
    {
        match self.find_room(room) {
            Some(i) => {
                let ghost pre = *self;
                let mut entry = self.entries.remove(i);
                let m = vec_without(&entry.members, conn);
                entry.members = m;
                self.entries.insert(i, entry);
                proof {
                    let new = *self;
                    assert(new.entries@ =~= pre.entries@.update(i as int, new.entries@[i as int]));
                    assert(new.entries@[i as int].room == room);
                    assert(new.entries@[i as int].members@ == without(
                        pre.entries@[i as int].members@,
                        conn,
                    ));
                    assert(new.rooms_distinct()) by {
                        assert(forall|j: int|
                            0 <= j < new.entries@.len() ==> #[trigger] new.entries@[j].room
                                == pre.entries@[j].room);
                    }
                    new.lemma_idx(room, i as int);
                    assert forall|r: u128|
                        r != room implies #[trigger] new.spec_members(r) == pre.spec_members(
                        r,
                    ) by {
                        if pre.has_room(r) {
                            let ix = pre.idx_of(r);
                            assert(ix != i as int);
                            pre.lemma_idx(r, ix);
                            new.lemma_idx(r, ix);
                        } else {
                            assert(!new.has_room(r)) by {
                                if new.has_room(r) {
                                    let ix = new.idx_of(r);
                                    assert(pre.entries@[ix].room == r);
                                    assert(pre.has_room(r));
                                }
                            }
                        }
                    }
                    assert(new.entries_distinct()) by {
                        assert forall|ix: int|
                            0 <= ix < new.entries@.len() implies distinct(
                            #[trigger] new.entries@[ix].members@,
                        ) by {
                            if ix == i as int {
                                lemma_without_distinct(pre.entries@[ix].members@, conn);
                            } else {
                                assert(distinct(pre.entries@[ix].members@));
                            }
                        }
                    }
                    assert(new.entries_disjoint()) by {
                        assert forall|ix: int, jx: int, c: u64|
                            0 <= ix < new.entries@.len() && 0 <= jx < new.entries@.len() && ix
                                != jx && #[trigger] new.entries@[ix].members@.contains(c) implies !(
                        #[trigger] new.entries@[jx].members@.contains(c)) by {
                            lemma_without_membership(pre.spec_members_at(i as int), conn);
                            if ix == i as int {
                                assert(pre.entries@[ix].members@.contains(c));
                            } else if jx == i as int {
                            } else {
                            }
                        }
                    }
                }
            },
            None => {
                proof {
                    assert(without(Seq::<u64>::empty(), conn) =~= Seq::<u64>::empty()) by {
                        reveal(Seq::filter);
                    }
                }
            },
        }
    }
}

/// Copy of the vector with every occurrence of `c` removed, order kept.
fn vec_without(v: &Vec<u64>, c: u64) -> (out: Vec<u64>)
    ensures
        out@ == without(v@, c),
{
    let n = v.len();
    let mut out: Vec<u64> = Vec::new();
    let mut i: usize = 0;
    proof {
        reveal(Seq::filter);
        assert(out@ =~= without(v@.subrange(0, 0), c));
    }
    while i < n
        invariant
            n == v@.len(),
            i <= n,
            out@ == without(v@.subrange(0, i as int), c),
        decreases n - i,
    {
        let x = v[i];
        proof {
            reveal(Seq::filter);
            let pre = v@.subrange(0, i as int);
            let cur = v@.subrange(0, i as int + 1);
            assert(cur.drop_last() =~= pre);
            assert(cur.last() == v@[i as int]);
        }
        if x != c {
            out.push(x);
        }
        i += 1;
    }
    proof {
        assert(v@.subrange(0, n as int) =~= v@);
    }
    out
}

} // verus!
