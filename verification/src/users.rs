//! Registered users and their credentials.
//!
//! Independent of the live connection registry: registering a user does
//! not open a connection, and a connection may join a room whose name set
//! never listed its user.

use vstd::prelude::*;

verus! {

/// Why a registration was refused.
#[derive(Clone, Copy, PartialEq, Eq, Structural, Debug)]
pub enum UserError {
    /// A user with this name already exists.
    AlreadyExists,
}

/// The persisted user set: display name to password.
pub struct UserStore {
    creds: Vec<(String, String)>,
}

impl UserStore {
    spec fn has_at(self, u: Seq<char>) -> bool {
        exists|i: int| 0 <= i < self.creds@.len() && self.creds@[i].0@ == u
    }

    spec fn idx_of(self, u: Seq<char>) -> int {
        choose|i: int| 0 <= i < self.creds@.len() && self.creds@[i].0@ == u
    }

    /// Whether a user with this name is registered.
    pub closed spec fn has_user(self, u: Seq<char>) -> bool {
        self.has_at(u)
    }

    /// The registered user's password (empty for an unknown name).
    pub closed spec fn pass_of(self, u: Seq<char>) -> Seq<char> {
        if self.has_at(u) {
            self.creds@[self.idx_of(u)].1@
        } else {
            Seq::empty()
        }
    }

    /// Well-formedness: no user name is stored twice.
    pub closed spec fn wf(self) -> bool {
        forall|i: int, j: int|
            0 <= i < j < self.creds@.len() ==> self.creds@[i].0@ != self.creds@[j].0@
    }

    proof fn lemma_idx(self, u: Seq<char>, i: int)
        requires
            self.wf(),
            0 <= i < self.creds@.len(),
            self.creds@[i].0@ == u,
        ensures
            self.has_user(u),
            self.idx_of(u) == i,
            self.pass_of(u) == self.creds@[i].1@,
    {
        let j = self.idx_of(u);
        assert(0 <= j < self.creds@.len() && self.creds@[j].0@ == u);
        if i < j {
            assert(self.creds@[i].0@ != self.creds@[j].0@);
        } else if j < i {
            assert(self.creds@[j].0@ != self.creds@[i].0@);
        }
    }

    /// An empty user set.
    pub fn new() -> (r: UserStore)
        ensures
            r.wf(),
            forall|u: Seq<char>| !(#[trigger] r.has_user(u)),
    {
        UserStore { creds: Vec::new() }
    }

    fn find_user(&self, username: &String) -> (r: Option<usize>)
        requires
            self.wf(),
        ensures
            match r {
                Some(i) => i < self.creds@.len() && self.creds@[i as int].0@ == username@
                    && self.has_user(username@) && self.idx_of(username@) == i,
                None => !self.has_user(username@),
            },
    {
        let n = self.creds.len();
        let mut i: usize = 0;
        while i < n
            invariant
                n == self.creds@.len(),
                i <= n,
                self.wf(),
                forall|j: int| 0 <= j < i ==> self.creds@[j].0@ != username@,
            decreases n - i,
        {
            if self.creds[i].0 == *username {
                proof {
                    self.lemma_idx(username@, i as int);
                }
                return Some(i);
            }
            i += 1;
        }
        None
    }

    /// Register a new user. Succeeds exactly when the name is not taken;
    /// a taken name is reported and nothing changes.
    pub fn register(&mut self, username: String, password: String) -> (r: Result<
        (),
        UserError,
    >)
        requires
            old(self).wf(),
        ensures
            final (self).wf(),
            r is Ok <==> !old(self).has_user(username@),
            r is Ok ==> final (self).has_user(username@) && final (self).pass_of(username@)
                == password@ && (forall|u: Seq<char>|
                u != username@ ==> #[trigger] final (self).has_user(u) == old(self).has_user(u)
                    && final (self).pass_of(u) == old(self).pass_of(u)),
            r is Err ==> r == Result::<(), UserError>::Err(UserError::AlreadyExists) && *final (
            self) == *old(self),
    {
        match self.find_user(&username) {
            Some(_) => Err(UserError::AlreadyExists),
            None => {
                let ghost pre = *self;
                let ghost uname = username@;
                self.creds.push((username, password));
                proof {
                    let new = *self;
                    let n = pre.creds@.len();
                    assert(new.creds@ == pre.creds@.push(new.creds@[n as int]));
                    assert(new.creds@[n as int].0@ == uname);
                    assert(new.wf()) by {
                        assert(forall|j: int|
                            0 <= j < n ==> #[trigger] new.creds@[j] == pre.creds@[j]);
                        assert(forall|j: int| 0 <= j < n ==> #[trigger] pre.creds@[j].0@ != uname);
                    }
                    new.lemma_idx(uname, n as int);
                    assert forall|u: Seq<char>|
                        u != uname implies #[trigger] new.has_user(u) == pre.has_user(u)
                        && new.pass_of(u) == pre.pass_of(u) by {
                        if pre.has_user(u) {
                            let i = pre.idx_of(u);
                            pre.lemma_idx(u, i);
                            assert(new.creds@[i] == pre.creds@[i]);
                            new.lemma_idx(u, i);
                        } else {
                            assert(!new.has_user(u)) by {
                                if new.has_user(u) {
                                    let i = new.idx_of(u);
                                    assert(i != n as int);
                                    assert(pre.creds@[i].0@ == u);
                                }
                            }
                        }
                    }
                }
                Ok(())
            },
        }
    }

    /// Whether this name and password pair matches a registered user.
    pub fn login(&self, username: &String, password: &String) -> (r: bool)
        requires
            self.wf(),
        ensures
            r == (self.has_user(username@) && self.pass_of(username@) == password@),
    {
        match self.find_user(username) {
            Some(i) => self.creds[i].1 == *password,
            None => false,
        }
    }
}

} // verus!
