//! Broadcast hub: join, leave, disconnect and message fanout.
//!
//! The hub owns the room [`Registry`] and one record per live connection:
//! its display name, whether its outbound path still accepts payloads, and
//! a bounded outbound queue (the mailbox the surrounding transport loop
//! drains with [`Hub::take_outbound`]).
//!
//! Delivery is fire-and-forget with a drop-newest overflow policy: a
//! payload offered to a full or closed outbound queue is dropped for that
//! recipient alone; the broadcast goes on to the other members and never
//! reports an error to the sender.
//!
//! Whether a sender receives its own broadcast is a configuration choice
//! made at construction ([`Hub::new`]); the documented default is to
//! exclude the sender.

use vstd::prelude::*;

use crate::message::Envelope;
use crate::message::EnvelopeModel;
use crate::message::RoomId;
use crate::registry::distinct;
use crate::registry::without;
use crate::registry::Registry;
use vstd::string::StringExecFns;

verus! {

struct ConnRec {
    id: u64,
    name: String,
    open: bool,
    cap: usize,
    queue: Vec<Envelope>,
}

/// The fanout engine: room registry plus per-connection outbound queues.
pub struct Hub {
    registry: Registry,
    conns: Vec<ConnRec>,
    next_id: u64,
    echo: bool,
}

/// What one delivery attempt does to a recipient's outbound queue: the
/// payload is appended if the path is open and the queue has room, and
/// dropped (drop-newest) otherwise.
pub open spec fn spec_deliver(
    q: Seq<EnvelopeModel>,
    cap: nat,
    open: bool,
    e: EnvelopeModel,
) -> Seq<EnvelopeModel> {
    if open && q.len() < cap {
        q.push(e)
    } else {
        q
    }
}

/// The connection `c` has the same presence, openness, name, capacity and
/// outbound queue in `post` as in `pre`.
pub open spec fn conn_same(pre: Hub, post: Hub, c: u64) -> bool {
    &&& post.has_conn(c) == pre.has_conn(c)
    &&& post.conn_open(c) == pre.conn_open(c)
    &&& post.conn_name(c) == pre.conn_name(c)
    &&& post.conn_cap(c) == pre.conn_cap(c)
    &&& post.outbox(c) == pre.outbox(c)
}

/// A delivery never reorders or rewrites what is already queued: it
/// either leaves the queue as it was or appends the new payload at the
/// tail. Together with [`Hub::take_outbound`], which pops the head, a
/// recipient's queue is first-in first-out: of two broadcasts emitted by
/// one sender with no step in between, the first is never observed after
/// the second.
pub proof fn lemma_fifo_order(q: Seq<EnvelopeModel>, cap: nat, open: bool, e: EnvelopeModel)
    ensures
        forall|i: int| 0 <= i < q.len() ==> #[trigger] spec_deliver(q, cap, open, e)[i] == q[i],
        spec_deliver(q, cap, open, e) == q || spec_deliver(q, cap, open, e) == q.push(e),
{
}

/// Order preservation for two accepted deliveries: when a recipient's
/// queue accepts `e1` and then `e2`, the queue holds them in that order,
/// after everything that was queued before.
pub proof fn lemma_sender_order(q: Seq<EnvelopeModel>, cap: nat, open: bool, e1: EnvelopeModel, e2: EnvelopeModel)
    requires
        open,
        q.len() + 1 < cap,
    ensures
        spec_deliver(spec_deliver(q, cap, open, e1), cap, open, e2) == q + seq![e1, e2],
        (q + seq![e1, e2])[q.len() as int] == e1,
        (q + seq![e1, e2])[q.len() as int + 1] == e2,
{
    assert(spec_deliver(spec_deliver(q, cap, open, e1), cap, open, e2) =~= q + seq![e1, e2]);
}

/// Leaving twice is safe: one leave already removes the connection from
/// the member view, so a second leave of the same pair yields the very
/// same view — a no-op, not an error.
pub proof fn lemma_leave_idempotent(m: Seq<u64>, c: u64)
    ensures
        !without(m, c).contains(c),
        without(without(m, c), c) == without(m, c),
{
    crate::registry::lemma_without_membership(m, c);
    crate::registry::lemma_without_idempotent(m, c);
}

impl Hub {
    spec fn conns_distinct(self) -> bool {
        forall|i: int, j: int|
            0 <= i < j < self.conns@.len() ==> self.conns@[i].id != self.conns@[j].id
    }

    spec fn ids_bounded(self) -> bool {
        forall|i: int| 0 <= i < self.conns@.len() ==> #[trigger] self.conns@[i].id < self.next_id
    }

    spec fn members_present(self) -> bool {
        forall|r: u128, c: u64|
            #[trigger] self.registry.spec_members(r).contains(c) ==> self.has_conn(c)
    }

    /// Well-formedness: the registry is well-formed, connection ids are
    /// unique, and every registered member is a present connection.
    pub closed spec fn wf(self) -> bool {
        self.registry.wf() && self.conns_distinct() && self.ids_bounded()
            && self.members_present()
    }

    /// Whether a sender receives its own broadcasts.
    pub closed spec fn echo_policy(self) -> bool {
        self.echo
    }

    /// The live member sequence of a room.
    pub closed spec fn members(self, room: u128) -> Seq<u64> {
        self.registry.spec_members(room)
    }

    spec fn conn_idx(self, c: u64) -> int {
        choose|i: int| 0 <= i < self.conns@.len() && self.conns@[i].id == c
    }

    /// Whether a connection with this id is present (connected, not yet
    /// disconnected).
    pub closed spec fn has_conn(self, c: u64) -> bool {
        exists|i: int| 0 <= i < self.conns@.len() && self.conns@[i].id == c
    }

    /// Whether the connection's outbound path still accepts payloads
    /// (`false` for an absent connection).
    pub closed spec fn conn_open(self, c: u64) -> bool {
        self.has_conn(c) && self.conns@[self.conn_idx(c)].open
    }

    /// The connection's display name (empty for an absent connection).
    pub closed spec fn conn_name(self, c: u64) -> Seq<char> {
        if self.has_conn(c) {
            self.conns@[self.conn_idx(c)].name@
        } else {
            Seq::empty()
        }
    }

    /// The connection's outbound queue bound (zero for an absent one).
    pub closed spec fn conn_cap(self, c: u64) -> nat {
        if self.has_conn(c) {
            self.conns@[self.conn_idx(c)].cap as nat
        } else {
            0
        }
    }

    /// The connection's pending outbound payloads, oldest first (empty for
    /// an absent connection).
    pub closed spec fn outbox(self, c: u64) -> Seq<EnvelopeModel> {
        if self.has_conn(c) {
            self.conns@[self.conn_idx(c)].queue@.map_values(|e: Envelope| e@)
        } else {
            Seq::empty()
        }
    }

    /// Whether the hub can still hand out a fresh connection id.
    pub closed spec fn can_accept(self) -> bool {
        self.next_id < u64::MAX
    }

    proof fn lemma_cidx(self, c: u64, i: int)
        requires
            self.conns_distinct(),
            0 <= i < self.conns@.len(),
            self.conns@[i].id == c,
        ensures
            self.has_conn(c),
            self.conn_idx(c) == i,
            self.conn_open(c) == self.conns@[i].open,
            self.conn_name(c) == self.conns@[i].name@,
            self.conn_cap(c) == self.conns@[i].cap as nat,
            self.outbox(c) == self.conns@[i].queue@.map_values(|e: Envelope| e@),
    {
        assert(self.has_conn(c));
        let j = self.conn_idx(c);
        assert(0 <= j < self.conns@.len() && self.conns@[j].id == c);
        if i < j {
            assert(self.conns@[i].id != self.conns@[j].id);
        } else if j < i {
            assert(self.conns@[j].id != self.conns@[i].id);
        }
    }

    /// Every member of a room is a present connection: a connection whose
    /// session has closed was disconnected first, so `members` never holds
    /// a closed connection.
    pub proof fn lemma_members_present(self, room: u128, c: u64)
        requires
            self.wf(),
            self.members(room).contains(c),
        ensures
            self.has_conn(c),
    {
    }

    /// A connection is a member of at most one room.
    pub proof fn lemma_one_room(self, r1: u128, r2: u128, c: u64)
        requires
            self.wf(),
            r1 != r2,
            self.members(r1).contains(c),
        ensures
            !self.members(r2).contains(c),
    {
        self.registry.lemma_one_room(r1, r2, c);
    }

    /// A room's member list never repeats a connection, so a broadcast
    /// reaches each recipient at most once.
    pub proof fn lemma_members_distinct(self, room: u128)
        requires
            self.wf(),
        ensures
            distinct(self.members(room)),
    {
        self.registry.lemma_members_distinct(room);
    }

    /// A fresh hub: no rooms, no connections. `echo` picks whether a
    /// sender receives its own broadcasts (the documented default is
    /// `false`: the sender is excluded).
    pub fn new(echo: bool) -> (r: Hub)
        ensures
            r.wf(),
            r.can_accept(),
            r.echo_policy() == echo,
            forall|c: u64| !(#[trigger] r.has_conn(c)),
            forall|room: u128| #[trigger] r.members(room) == Seq::<u64>::empty(),
    {
        let h = Hub { registry: Registry::new(), conns: Vec::new(), next_id: 0, echo };
        proof {
            assert(forall|c: u64| !(#[trigger] h.has_conn(c)));
        }
        h
    }

    fn find_conn(&self, c: u64) -> (r: Option<usize>)
        requires
            self.conns_distinct(),
        ensures
            match r {
                Some(i) => i < self.conns@.len() && self.conns@[i as int].id == c && self.has_conn(
                    c,
                ) && self.conn_idx(c) == i,
                None => !self.has_conn(c),
            },
    {
        let n = self.conns.len();
        let mut i: usize = 0;
        while i < n
            invariant
                n == self.conns@.len(),
                i <= n,
                self.conns_distinct(),
                forall|j: int| 0 <= j < i ==> self.conns@[j].id != c,
            decreases n - i,
        {
            if self.conns[i].id == c {
                proof {
                    self.lemma_cidx(c, i as int);
                }
                return Some(i);
            }
            i += 1;
        }
        None
    }

    /// Admit a new connection with the given display name and outbound
    /// queue bound, and hand back its generated id. Returns `None` only
    /// when the id space is exhausted.
    pub fn connect(&mut self, name: String, cap: usize) -> (r: Option<u64>)
        requires
            old(self).wf(),
        ensures
            final (self).wf(),
            final (self).echo_policy() == old(self).echo_policy(),
            r is Some <==> old(self).can_accept(),
            match r {
                Some(id) => !old(self).has_conn(id) && final (self).has_conn(id) && final (
                self).conn_open(id) && final (self).conn_name(id) == name@ && final (
                self).conn_cap(id) == cap as nat && final (self).outbox(id) == Seq::<
                    EnvelopeModel,
                >::empty() && (forall|c: u64| c != id ==> conn_same(*old(self), *final (self), c))
                    && (forall|room: u128|
                    #[trigger] final (self).members(room) == old(self).members(room)),
                None => *final (self) == *old(self),
            },
    {
        if self.next_id == u64::MAX {
            return None;
        }
        let id = self.next_id;
        self.next_id = self.next_id + 1;
        let ghost pre = *old(self);
        self.conns.push(ConnRec { id, name, open: true, cap, queue: Vec::new() });
        proof {
            let new = *self;
            let n = pre.conns@.len();
            assert(new.conns@ == pre.conns@.push(new.conns@[n as int]));
            assert(!pre.has_conn(id)) by {
                if pre.has_conn(id) {
                    let i = pre.conn_idx(id);
                    assert(pre.conns@[i].id < pre.next_id);
                }
            }
            assert(new.conns_distinct()) by {
                assert(forall|j: int| 0 <= j < n ==> #[trigger] new.conns@[j].id == pre.conns@[j].id);
                assert(forall|j: int| 0 <= j < n ==> #[trigger] pre.conns@[j].id < id);
            }
            new.lemma_cidx(id, n as int);
            assert(new.outbox(id) =~= Seq::<EnvelopeModel>::empty());
            assert forall|c: u64| c != id implies conn_same(pre, new, c) by {
                if pre.has_conn(c) {
                    let i = pre.conn_idx(c);
                    assert(pre.conns@[i].id == c);
                    new.lemma_cidx(c, i);
                    pre.lemma_cidx(c, i);
                } else {
                    assert(!new.has_conn(c)) by {
                        if new.has_conn(c) {
                            let i = new.conn_idx(c);
                            assert(i != n as int);
                            assert(pre.conns@[i].id == c);
                            assert(pre.has_conn(c));
                        }
                    }
                }
            }
            assert(new.members_present()) by {
                assert forall|room: u128, c: u64|
                    #[trigger] new.registry.spec_members(room).contains(c) implies new.has_conn(
                    c,
                ) by {
                    assert(pre.registry.spec_members(room).contains(c));
                    assert(pre.has_conn(c));
                    assert(conn_same(pre, new, c) || c == id);
                }
            }
        }
        Some(id)
    }

    /// Join the room: the connection is withdrawn from any other room
    /// (joining a second room replaces the first) and appended to this
    /// room's member list, deduplicated. A join for an absent connection
    /// is ignored.
    pub fn join(&mut self, room: RoomId, conn: u64)
        requires
            old(self).wf(),
        ensures
            final (self).wf(),
            final (self).echo_policy() == old(self).echo_policy(),
            forall|c: u64| conn_same(*old(self), *final (self), c),
            old(self).has_conn(conn) ==> final (self).members(room.raw) == without(
                old(self).members(room.raw),
                conn,
            ).push(conn) && (forall|r: u128|
                r != room.raw ==> #[trigger] final (self).members(r) == without(
                    old(self).members(r),
                    conn,
                )),
            !old(self).has_conn(conn) ==> forall|r: u128|
                #[trigger] final (self).members(r) == old(self).members(r),
    {
        let ghost pre = *old(self);
        match self.find_conn(conn) {
            Some(_) => {
                self.registry.register(room.raw, conn);
                proof {
                    let new = *self;
                    assert(new.conns@ == pre.conns@);
                    assert(forall|c: u64| conn_same(pre, new, c));
                    assert(new.members_present()) by {
                        broadcast use vstd::seq_lib::lemma_seq_contains_after_push;

                        assert forall|r: u128, c: u64|
                            #[trigger] new.registry.spec_members(r).contains(c) implies new.has_conn(
                            c,
                        ) by {
                            crate::registry::lemma_without_membership(
                                pre.registry.spec_members(r),
                                conn,
                            );
                            if c == conn {
                                assert(pre.has_conn(c));
                            } else {
                                assert(pre.registry.spec_members(r).contains(c));
                            }
                        }
                    }
                }
            },
            None => {},
        }
    }

    /// Leave the room: the connection is removed from this room's member
    /// list if present; a no-op, not an error, otherwise. A second leave
    /// for the same pair changes nothing.
    pub fn leave(&mut self, room: RoomId, conn: u64)
        requires
            old(self).wf(),
        ensures
            final (self).wf(),
            final (self).echo_policy() == old(self).echo_policy(),
            forall|c: u64| conn_same(*old(self), *final (self), c),
            final (self).members(room.raw) == without(old(self).members(room.raw), conn),
            forall|r: u128|
                r != room.raw ==> #[trigger] final (self).members(r) == old(self).members(r),
    {
        let ghost pre = *old(self);
        self.registry.deregister(room.raw, conn);
        proof {
            let new = *self;
            assert(new.conns@ == pre.conns@);
            assert(forall|c: u64| conn_same(pre, new, c));
            assert(new.members_present()) by {
                assert forall|r: u128, c: u64|
                    #[trigger] new.registry.spec_members(r).contains(c) implies new.has_conn(
                    c,
                ) by {
                    crate::registry::lemma_without_membership(
                        pre.registry.spec_members(room.raw),
                        conn,
                    );
                    assert(pre.registry.spec_members(r).contains(c));
                }
            }
        }
    }

    /// Disconnect the connection: it is withdrawn from every room and its
    /// record and pending outbound payloads are discarded. Disconnecting a
    /// connection that never joined a room leaves every member list as it
    /// was (removing an absent member changes nothing).
    pub fn disconnect(&mut self, conn: u64)
        requires
            old(self).wf(),
        ensures
            final (self).wf(),
            final (self).echo_policy() == old(self).echo_policy(),
            !final (self).has_conn(conn),
            forall|c: u64| c != conn ==> conn_same(*old(self), *final (self), c),
            forall|r: u128|
                #[trigger] final (self).members(r) == without(old(self).members(r), conn),
    {
        let ghost pre = *old(self);
        self.registry.withdraw(conn);
        let ghost mid = *self;
        match self.find_conn(conn) {
            Some(i) => {
                self.conns.remove(i);
                proof {
                    let new = *self;
                    assert(new.conns@ == mid.conns@.remove(i as int));
                    assert(new.conns_distinct()) by {
                        assert forall|a: int, b: int|
                            0 <= a < b < new.conns@.len() implies new.conns@[a].id
                            != new.conns@[b].id by {
                            let a0 = if a < i as int {
                                a
                            } else {
                                a + 1
                            };
                            let b0 = if b < i as int {
                                b
                            } else {
                                b + 1
                            };
                            assert(new.conns@[a] == mid.conns@[a0]);
                            assert(new.conns@[b] == mid.conns@[b0]);
                        }
                    }
                    assert(!new.has_conn(conn)) by {
                        if new.has_conn(conn) {
                            let j = new.conn_idx(conn);
                            let j0 = if j < i as int {
                                j
                            } else {
                                j + 1
                            };
                            assert(new.conns@[j] == mid.conns@[j0]);
                            assert(mid.conns@[j0].id == conn);
                            assert(mid.conns@[i as int].id == conn);
                        }
                    }
                    assert forall|c: u64| c != conn implies conn_same(pre, new, c) by {
                        if pre.has_conn(c) {
                            let j = pre.conn_idx(c);
                            pre.lemma_cidx(c, j);
                            let j1 = if j < i as int {
                                j
                            } else {
                                j - 1
                            };
                            assert(new.conns@[j1] == mid.conns@[j]);
                            new.lemma_cidx(c, j1);
                        } else {
                            assert(!new.has_conn(c)) by {
                                if new.has_conn(c) {
                                    let j = new.conn_idx(c);
                                    let j0 = if j < i as int {
                                        j
                                    } else {
                                        j + 1
                                    };
                                    assert(new.conns@[j] == mid.conns@[j0]);
                                    assert(pre.has_conn(c));
                                }
                            }
                        }
                    }
                    assert(new.members_present()) by {
                        assert forall|r: u128, c: u64|
                            #[trigger] new.registry.spec_members(r).contains(c) implies new.has_conn(
                            c,
                        ) by {
                            crate::registry::lemma_without_membership(
                                pre.registry.spec_members(r),
                                conn,
                            );
                            assert(pre.registry.spec_members(r).contains(c));
                            assert(c != conn);
                            assert(conn_same(pre, new, c));
                        }
                    }
                }
            },
            None => {
                proof {
                    let new = *self;
                    assert(forall|c: u64| conn_same(pre, new, c));
                    assert(new.members_present()) by {
                        assert forall|r: u128, c: u64|
                            #[trigger] new.registry.spec_members(r).contains(c) implies new.has_conn(
                            c,
                        ) by {
                            crate::registry::lemma_without_membership(
                                pre.registry.spec_members(r),
                                conn,
                            );
                            assert(pre.registry.spec_members(r).contains(c));
                        }
                    }
                }
            },
        }
    }

    /// Mark the connection's outbound path closed (its transport write
    /// side failed). Later deliveries to it are dropped; everything else
    /// is untouched.
    pub fn close_outbound(&mut self, conn: u64)
        requires
            old(self).wf(),
        ensures
            final (self).wf(),
            final (self).echo_policy() == old(self).echo_policy(),
            forall|c: u64| c != conn ==> conn_same(*old(self), *final (self), c),
            final (self).has_conn(conn) == old(self).has_conn(conn),
            !final (self).conn_open(conn),
            final (self).conn_name(conn) == old(self).conn_name(conn),
            final (self).conn_cap(conn) == old(self).conn_cap(conn),
            final (self).outbox(conn) == old(self).outbox(conn),
            forall|r: u128| #[trigger] final (self).members(r) == old(self).members(r),
    {
        let ghost pre = *old(self);
        match self.find_conn(conn) {
            Some(i) => {
                let mut rec = self.conns.remove(i);
                rec.open = false;
                self.conns.insert(i, rec);
                proof {
                    let new = *self;
                    assert(new.conns@ =~= pre.conns@.update(i as int, new.conns@[i as int]));
                    assert(new.conns@[i as int].id == conn);
                    assert(new.conns_distinct()) by {
                        assert(forall|j: int|
                            0 <= j < new.conns@.len() ==> #[trigger] new.conns@[j].id
                                == pre.conns@[j].id);
                    }
                    new.lemma_cidx(conn, i as int);
                    pre.lemma_cidx(conn, i as int);
                    assert forall|c: u64| c != conn implies conn_same(pre, new, c) by {
                        if pre.has_conn(c) {
                            let j = pre.conn_idx(c);
                            pre.lemma_cidx(c, j);
                            assert(j != i as int);
                            assert(new.conns@[j] == pre.conns@[j]);
                            new.lemma_cidx(c, j);
                        } else {
                            assert(!new.has_conn(c)) by {
                                if new.has_conn(c) {
                                    let j = new.conn_idx(c);
                                    assert(pre.conns@[j].id == c);
                                }
                            }
                        }
                    }
                    assert(new.members_present()) by {
                        assert forall|r: u128, c: u64|
                            #[trigger] new.registry.spec_members(r).contains(c) implies new.has_conn(
                            c,
                        ) by {
                            assert(pre.registry.spec_members(r).contains(c));
                            assert(pre.has_conn(c));
                            if c != conn {
                                assert(conn_same(pre, new, c));
                            }
                        }
                    }
                }
            },
            None => {},
        }
    }

    /// Snapshot of the current members of a room.
    pub fn members_of(&self, room: RoomId) -> (r: Vec<u64>)
        requires
            self.wf(),
        ensures
            r@ == self.members(room.raw),
    {
        self.registry.members_of(room.raw)
    }

    /// Pop the oldest pending outbound payload of the connection, if any.
    /// The surrounding transport loop drains the queue with this and
    /// writes each payload to the client, oldest first.
    pub fn take_outbound(&mut self, conn: u64) -> (r: Option<Envelope>)
        requires
            old(self).wf(),
        ensures
            final (self).wf(),
            final (self).echo_policy() == old(self).echo_policy(),
            forall|c: u64| c != conn ==> conn_same(*old(self), *final (self), c),
            final (self).has_conn(conn) == old(self).has_conn(conn),
            final (self).conn_open(conn) == old(self).conn_open(conn),
            final (self).conn_name(conn) == old(self).conn_name(conn),
            final (self).conn_cap(conn) == old(self).conn_cap(conn),
            forall|r: u128| #[trigger] final (self).members(r) == old(self).members(r),
            match r {
                Some(env) => old(self).outbox(conn).len() > 0 && env@ == old(self).outbox(conn)[0]
                    && final (self).outbox(conn) == old(self).outbox(conn).drop_first(),
                None => old(self).outbox(conn).len() == 0 && final (self).outbox(conn) == old(
                    self,
                ).outbox(conn),
            },
    {
        let ghost pre = *old(self);
        match self.find_conn(conn) {
            Some(i) => {
                proof {
                    pre.lemma_cidx(conn, i as int);
                }
                if self.conns[i].queue.len() == 0 {
                    proof {
                        assert(pre.outbox(conn) =~= Seq::<EnvelopeModel>::empty());
                    }
                    return None;
                }
                let mut rec = self.conns.remove(i);
                let env = rec.queue.remove(0);
                self.conns.insert(i, rec);
                proof {
                    let new = *self;
                    assert(new.conns@ =~= pre.conns@.update(i as int, new.conns@[i as int]));
                    assert(new.conns@[i as int].id == conn);
                    assert(new.conns@[i as int].queue@ == pre.conns@[i as int].queue@.remove(0));
                    assert(new.conns_distinct()) by {
                        assert(forall|j: int|
                            0 <= j < new.conns@.len() ==> #[trigger] new.conns@[j].id
                                == pre.conns@[j].id);
                    }
                    new.lemma_cidx(conn, i as int);
                    assert(env@ == pre.outbox(conn)[0]);
                    assert(new.outbox(conn) =~= pre.outbox(conn).drop_first());
                    assert forall|c: u64| c != conn implies conn_same(pre, new, c) by {
                        if pre.has_conn(c) {
                            let j = pre.conn_idx(c);
                            pre.lemma_cidx(c, j);
                            assert(j != i as int);
                            assert(new.conns@[j] == pre.conns@[j]);
                            new.lemma_cidx(c, j);
                        } else {
                            assert(!new.has_conn(c)) by {
                                if new.has_conn(c) {
                                    let j = new.conn_idx(c);
                                    assert(pre.conns@[j].id == c);
                                }
                            }
                        }
                    }
                    assert(new.members_present()) by {
                        assert forall|r: u128, c: u64|
                            #[trigger] new.registry.spec_members(r).contains(c) implies new.has_conn(
                            c,
                        ) by {
                            assert(pre.registry.spec_members(r).contains(c));
                            assert(pre.has_conn(c));
                            if c != conn {
                                assert(conn_same(pre, new, c));
                            }
                        }
                    }
                }
                Some(env)
            },
            None => None,
        }
    }

    // deliver one payload to one recipient, fire-and-forget
    fn offer(&mut self, conn: u64, env: Envelope)
        requires
            old(self).wf(),
        ensures
            final (self).wf(),
            final (self).echo_policy() == old(self).echo_policy(),
            forall|c: u64| c != conn ==> conn_same(*old(self), *final (self), c),
            final (self).has_conn(conn) == old(self).has_conn(conn),
            final (self).conn_open(conn) == old(self).conn_open(conn),
            final (self).conn_name(conn) == old(self).conn_name(conn),
            final (self).conn_cap(conn) == old(self).conn_cap(conn),
            final (self).outbox(conn) == spec_deliver(
                old(self).outbox(conn),
                old(self).conn_cap(conn),
                old(self).conn_open(conn),
                env@,
            ),
            forall|r: u128| #[trigger] final (self).members(r) == old(self).members(r),
    {
        let ghost pre = *old(self);
        match self.find_conn(conn) {
            Some(i) => {
                proof {
                    pre.lemma_cidx(conn, i as int);
                }
                let mut rec = self.conns.remove(i);
                let accepted = rec.open && rec.queue.len() < rec.cap;
                if accepted {
                    rec.queue.push(env);
                }
                self.conns.insert(i, rec);
                proof {
                    let new = *self;
                    assert(new.conns@ =~= pre.conns@.update(i as int, new.conns@[i as int]));
                    assert(new.conns@[i as int].id == conn);
                    assert(new.conns_distinct()) by {
                        assert(forall|j: int|
                            0 <= j < new.conns@.len() ==> #[trigger] new.conns@[j].id
                                == pre.conns@[j].id);
                    }
                    new.lemma_cidx(conn, i as int);
                    if accepted {
                        assert(new.conns@[i as int].queue@ == pre.conns@[i as int].queue@.push(
                            env,
                        ));
                        assert(new.outbox(conn) =~= pre.outbox(conn).push(env@));
                    } else {
                        assert(new.outbox(conn) == pre.outbox(conn));
                    }
                    assert forall|c: u64| c != conn implies conn_same(pre, new, c) by {
                        if pre.has_conn(c) {
                            let j = pre.conn_idx(c);
                            pre.lemma_cidx(c, j);
                            assert(j != i as int);
                            assert(new.conns@[j] == pre.conns@[j]);
                            new.lemma_cidx(c, j);
                        } else {
                            assert(!new.has_conn(c)) by {
                                if new.has_conn(c) {
                                    let j = new.conn_idx(c);
                                    assert(pre.conns@[j].id == c);
                                }
                            }
                        }
                    }
                    assert(new.members_present()) by {
                        assert forall|r: u128, c: u64|
                            #[trigger] new.registry.spec_members(r).contains(c) implies new.has_conn(
                            c,
                        ) by {
                            assert(pre.registry.spec_members(r).contains(c));
                            assert(pre.has_conn(c));
                            if c != conn {
                                assert(conn_same(pre, new, c));
                            }
                        }
                    }
                }
            },
            None => {},
        }
    }

    // the connection's display name, for tagging its broadcasts
    fn lookup_name(&self, conn: u64) -> (r: String)
        requires
            self.wf(),
        ensures
            r@ == self.conn_name(conn),
    {
        match self.find_conn(conn) {
            Some(i) => {
                proof {
                    self.lemma_cidx(conn, i as int);
                }
                self.conns[i].name.clone()
            },
            None => String::new(),
        }
    }

    /// Broadcast: deliver the text, tagged with the sender's display name
    /// and the room, to every connection registered in the room at the
    /// time of the call — except the sender itself unless the hub was
    /// built with the echo policy. Each delivery is fire-and-forget
    /// ([`spec_deliver`]): a full or closed recipient queue drops that
    /// copy and that copy alone, and no failure ever reaches the sender.
    /// Broadcasting in a room with no members does nothing.
    pub fn broadcast(&mut self, room: RoomId, sender: u64, text: &str)
        requires
            old(self).wf(),
        ensures
            final (self).wf(),
            final (self).echo_policy() == old(self).echo_policy(),
            forall|r: u128| #[trigger] final (self).members(r) == old(self).members(r),
            forall|c: u64|
                #[trigger] final (self).has_conn(c) == old(self).has_conn(c) && final (
                self).conn_open(c) == old(self).conn_open(c) && final (self).conn_name(c) == old(
                    self,
                ).conn_name(c) && final (self).conn_cap(c) == old(self).conn_cap(c),
            forall|c: u64|
                old(self).members(room.raw).contains(c) && (old(self).echo_policy() || c
                    != sender) ==> #[trigger] final (self).outbox(c) == spec_deliver(
                    old(self).outbox(c),
                    old(self).conn_cap(c),
                    old(self).conn_open(c),
                    EnvelopeModel {
                        room: room.raw,
                        sender: old(self).conn_name(sender),
                        text: text@,
                    },
                ),
            forall|c: u64|
                !(old(self).members(room.raw).contains(c) && (old(self).echo_policy() || c
                    != sender)) ==> #[trigger] final (self).outbox(c) == old(self).outbox(c),
    {
        let ghost pre = *old(self);
        let ghost env_m = EnvelopeModel {
            room: room.raw,
            sender: pre.conn_name(sender),
            text: text@,
        };
        let members = self.registry.members_of(room.raw);
        let name = self.lookup_name(sender);
        let proto = Envelope { room, sender: name, text: String::from_str(text) };
        proof {
            assert(proto@ == env_m);
            pre.lemma_members_distinct(room.raw);
        }
        let echo = self.echo;
        let n = members.len();
        let mut k: usize = 0;
        while k < n
            invariant
                self.wf(),
                n == members@.len(),
                k <= n,
                members@ == pre.members(room.raw),
                distinct(members@),
                proto@ == env_m,
                echo == pre.echo_policy(),
                self.echo_policy() == pre.echo_policy(),
                forall|r: u128| #[trigger] self.members(r) == pre.members(r),
                forall|c: u64|
                    #[trigger] self.has_conn(c) == pre.has_conn(c) && self.conn_open(c)
                        == pre.conn_open(c) && self.conn_name(c) == pre.conn_name(c)
                        && self.conn_cap(c) == pre.conn_cap(c),
                forall|c: u64|
                    members@.take(k as int).contains(c) && (echo || c != sender)
                        ==> #[trigger] self.outbox(c) == spec_deliver(
                        pre.outbox(c),
                        pre.conn_cap(c),
                        pre.conn_open(c),
                        env_m,
                    ),
                forall|c: u64|
                    !(members@.take(k as int).contains(c) && (echo || c != sender))
                        ==> #[trigger] self.outbox(c) == pre.outbox(c),
            decreases n - k,
        {
            broadcast use vstd::seq_lib::lemma_seq_take_contains;

            let c = members[k];
            let ghost before = *self;
            proof {
                assert(!members@.take(k as int).contains(c)) by {
                    if members@.take(k as int).contains(c) {
                        let j = choose|j: int|
                            0 <= j < k as int && members@.take(k as int)[j] == c;
                        assert(members@[j] == members@[k as int]);
                    }
                }
            }
            let offered = echo || c != sender;
            if offered {
                self.offer(c, proto.clone());
                proof {
                    assert(before.outbox(c) == pre.outbox(c));
                    assert(self.outbox(c) == spec_deliver(
                        pre.outbox(c),
                        pre.conn_cap(c),
                        pre.conn_open(c),
                        env_m,
                    ));
                }
            }
            k += 1;
            proof {
                let cur = *self;
                assert forall|x: u64| #[trigger] members@.take(k as int).contains(x) implies (
                members@.take(k as int - 1).contains(x) || x == c) by {
                    let j = choose|j: int| 0 <= j < k as int && members@.take(k as int)[j] == x;
                    if j < k as int - 1 {
                        assert(members@.take(k as int - 1)[j] == x);
                    }
                }
                assert(forall|x: u64|
                    members@.take(k as int - 1).contains(x) ==> #[trigger] members@.take(
                        k as int,
                    ).contains(x));
                assert(members@.take(k as int).contains(c)) by {
                    assert(members@.take(k as int)[k as int - 1] == c);
                }
                if !offered {
                    assert(cur == before);
                }
                assert forall|x: u64|
                    #[trigger] cur.has_conn(x) == pre.has_conn(x) && cur.conn_open(x)
                        == pre.conn_open(x) && cur.conn_name(x) == pre.conn_name(x)
                        && cur.conn_cap(x) == pre.conn_cap(x) by {
                    if offered && x != c {
                        assert(conn_same(before, cur, x));
                    }
                }
                assert forall|x: u64|
                    members@.take(k as int).contains(x) && (echo || x != sender)
                        implies #[trigger] cur.outbox(x) == spec_deliver(
                        pre.outbox(x),
                        pre.conn_cap(x),
                        pre.conn_open(x),
                        env_m,
                    ) by {
                    if x == c {
                        assert(offered);
                    } else {
                        if offered {
                            assert(conn_same(before, cur, x));
                        }
                        assert(members@.take(k as int - 1).contains(x));
                    }
                }
                assert forall|x: u64|
                    !(members@.take(k as int).contains(x) && (echo || x != sender))
                        implies #[trigger] cur.outbox(x) == pre.outbox(x) by {
                    if x == c {
                        assert(!offered);
                    } else {
                        if offered {
                            assert(conn_same(before, cur, x));
                        }
                        assert(!(members@.take(k as int - 1).contains(x) && (echo || x
                            != sender)));
                    }
                }
            }
        }
        proof {
            assert(members@.take(n as int) =~= members@);
        }
    }
}

} // verus!
