//! The connection table and the event loop's decisions. Each iteration of
//! the surrounding loop reports one event — the readiness wait elapsed or
//! failed, a connection was accepted (or the accept failed), a request
//! arrived, a connection broke — and `step` turns it into the next state and
//! the one action to carry out. All mutation of the store and of the table
//! happens inside `step`, one whole command at a time, which is what makes
//! every client see one serialized store.

use crate::parse::{lossy_of, request_cmd};
use crate::protocol::{handle_request, keeps, reply_of, store_after};
use crate::store::Store;
use vstd::prelude::*;

verus! {

/// The set of currently accepted client connections, each identified by a
/// stable descriptor.
pub struct ConnTable {
    fds: Vec<i32>,
}

impl View for ConnTable {
    type V = Seq<i32>;

    closed spec fn view(&self) -> Seq<i32> {
        self.fds@
    }
}

/// `post` is `pre` with every occurrence of `fd` gone and nothing else
/// touched.
pub open spec fn dropped_from(pre: Seq<i32>, post: Seq<i32>, fd: i32) -> bool {
    &&& !post.contains(fd)
    &&& forall|x: i32| x != fd ==> post.contains(x) == pre.contains(x)
    &&& pre.contains(fd) ==> post.len() == pre.len() - 1
    &&& !pre.contains(fd) ==> post == pre
}

impl ConnTable {
    /// No two tracked connections share a descriptor.
    pub open spec fn wf(&self) -> bool {
        self@.no_duplicates()
    }

    /// An empty table.
    pub fn new() -> (r: ConnTable)
        ensures
            r.wf(),
            r@ == Seq::<i32>::empty(),
    {
        ConnTable { fds: Vec::new() }
    }

    /// How many connections are tracked.
    pub fn len(&self) -> (r: usize)
        ensures
            r == self@.len(),
    {
        self.fds.len()
    }

    /// Whether a descriptor is tracked.
    pub fn contains(&self, fd: i32) -> (r: bool)
        ensures
            r == self@.contains(fd),
    {
        let mut i: usize = 0;
        while i < self.fds.len()
            invariant
                0 <= i <= self.fds@.len(),
                forall|j: int| 0 <= j < i ==> self.fds@[j] != fd,
            decreases self.fds@.len() - i,
        {
            if self.fds[i] == fd {
                return true;
            }
            i += 1;
        }
        false
    }

    /// The descriptor at one position; with `len`, this walks the table.
    pub fn fd_at(&self, i: usize) -> (r: i32)
        requires
            i < self@.len(),
        ensures
            r == self@[i as int],
    {
        self.fds[i]
    }

    /// Tracks a newly accepted connection. A descriptor already tracked is
    /// left alone; either way every existing connection keeps its place.
    pub fn insert(&mut self, fd: i32)
        requires
            old(self).wf(),
        ensures
            final(self).wf(),
            old(self)@.contains(fd) ==> final(self)@ == old(self)@,
            !old(self)@.contains(fd) ==> final(self)@ == old(self)@.push(fd),
    {
        if !self.contains(fd) {
            let ghost s0 = self.fds@;
            self.fds.push(fd);
            proof {
                assert(forall|j: int| 0 <= j < s0.len() ==> #[trigger] self.fds@[j] == s0[j]);
                assert(self.fds@[s0.len() as int] == fd);
                assert(self.fds@.no_duplicates());
            }
        }
    }

    /// Stops tracking a descriptor; tells whether it was tracked.
    pub fn remove(&mut self, fd: i32) -> (r: bool)
        requires
            old(self).wf(),
        ensures
            final(self).wf(),
            r == old(self)@.contains(fd),
            dropped_from(old(self)@, final(self)@, fd),
    {
        let ghost s0 = self.fds@;
        let mut i: usize = 0;
        while i < self.fds.len()
            invariant
                0 <= i <= self.fds@.len(),
                self.fds@ == s0,
                s0 == old(self)@,
                s0.no_duplicates(),
                forall|j: int| 0 <= j < i ==> s0[j] != fd,
            decreases self.fds@.len() - i,
        {
            if self.fds[i] == fd {
                self.fds.remove(i);
                proof {
                    let s1 = self.fds@;
                    assert(forall|j: int|
                        0 <= j < s1.len() ==> #[trigger] s1[j] == (if j < i {
                            s0[j]
                        } else {
                            s0[j + 1]
                        }));
                    assert(s1.no_duplicates());
                    assert(!s1.contains(fd)) by {
                        if s1.contains(fd) {
                            let j = choose|j: int| 0 <= j < s1.len() && s1[j] == fd;
                            if j < i {
                                assert(s0[j] == fd);
                            } else {
                                assert(s0[j + 1] == fd && s0[i as int] == fd);
                            }
                        }
                    }
                    assert(forall|x: i32| x != fd ==> s1.contains(x) == s0.contains(x)) by {
                        assert forall|x: i32| x != fd && s0.contains(x) implies s1.contains(x) by {
                            let j = choose|j: int| 0 <= j < s0.len() && s0[j] == x;
                            if j < i {
                                assert(s1[j] == x);
                            } else {
                                assert(j != i);
                                assert(s1[j - 1] == x);
                            }
                        };
                        assert forall|x: i32| x != fd && s1.contains(x) implies s0.contains(x) by {
                            let j = choose|j: int| 0 <= j < s1.len() && s1[j] == x;
                            if j < i {
                                assert(s0[j] == x);
                            } else {
                                assert(s0[j + 1] == x);
                            }
                        };
                    }
                }
                return true;
            }
            i += 1;
        }
        proof {
            assert(!s0.contains(fd));
        }
        false
    }

    /// The descriptors to hand to the readiness wait this iteration: the
    /// listener first, then exactly the tracked connections.
    pub fn watch_fds(&self, listener: i32) -> (r: Vec<i32>)
        ensures
            r@ == seq![listener] + self@,
            r@.len() == self@.len() + 1,
    {
        let mut v: Vec<i32> = Vec::new();
        v.push(listener);
        let mut i: usize = 0;
        while i < self.fds.len()
            invariant
                0 <= i <= self.fds@.len(),
                v@ == seq![listener] + self.fds@.take(i as int),
            decreases self.fds@.len() - i,
        {
            let ghost v0 = v@;
            v.push(self.fds[i]);
            proof {
                assert(v@ =~= seq![listener] + self.fds@.take(i as int + 1));
            }
            i += 1;
        }
        proof {
            assert(self.fds@.take(self.fds@.len() as int) =~= self.fds@);
        }
        v
    }
}

/// The address the C boundary receives for an optional argument of the
/// readiness wait: the argument's own address when it is given, the null
/// address otherwise. A raw pointer cannot stand in verified code, so the
/// address is carried as a plain value; the unverified edge takes the
/// addresses and turns the result back into the pointer it passes on.
pub fn to_ptr(addr: Option<usize>) -> (r: usize)
    ensures
        addr matches Some(a) ==> r == a,
        addr is None ==> r == 0,
{
    match addr {
        Option::Some(a) => a,
        Option::None => 0,
    }
}

/// What one iteration of the surrounding loop observed.
pub enum Event {
    /// The readiness wait elapsed with nothing pending: the housekeeping
    /// tick.
    Tick,
    /// The readiness wait itself failed; transient, the loop goes on.
    PollFailed,
    /// The listener was ready but the accept failed; the loop goes on.
    AcceptFailed,
    /// A new connection was accepted under this descriptor.
    Accepted { fd: i32 },
    /// A tracked connection delivered one request's bytes.
    Input { fd: i32, data: Vec<u8> },
    /// A tracked connection broke: read or write failure, or the peer
    /// closed.
    Gone { fd: i32 },
}

/// What the surrounding loop must do next.
pub enum Action {
    /// Nothing: wait again.
    Idle,
    /// Send these bytes on the connection and keep it.
    Reply { fd: i32, data: Vec<u8> },
    /// Tear the connection down; it is no longer tracked.
    Close { fd: i32 },
}

/// The whole state the server owns: the store and the connection table.
pub struct ServerState {
    pub store: Store,
    pub conns: ConnTable,
}

impl ServerState {
    pub open spec fn wf(&self) -> bool {
        self.store.wf() && self.conns.wf()
    }

    /// A fresh server: empty store, no connections.
    pub fn new() -> (r: ServerState)
        ensures
            r.wf(),
            r.store@ == Map::<Seq<u8>, Seq<u8>>::empty(),
            r.conns@ == Seq::<i32>::empty(),
    {
        ServerState { store: Store::new(), conns: ConnTable::new() }
    }

    /// One decision of the event loop. Exactly one event is consumed and one
    /// command applied, whole, before any other connection is looked at; the
    /// store only ever changes under an `Input` event, by `store_after` of
    /// the one command the bytes denote.
    pub fn step(&mut self, ev: Event) -> (a: Action)
        requires
            old(self).wf(),
        ensures
            final(self).wf(),
            match ev {
                Event::Tick | Event::PollFailed | Event::AcceptFailed => *final(self) == *old(self)
                    && a is Idle,
                Event::Accepted { fd } => {
                    &&& final(self).store == old(self).store
                    &&& old(self).conns@.contains(fd) ==> final(self).conns@ == old(self).conns@
                    &&& !old(self).conns@.contains(fd) ==> final(self).conns@ == old(
                        self,
                    ).conns@.push(fd)
                    &&& a is Idle
                },
                Event::Input { fd, data } => {
                    let c = request_cmd(lossy_of(data@));
                    &&& final(self).store@ == store_after(old(self).store@, c)
                    &&& keeps(c) ==> final(self).conns == old(self).conns && (a matches
                        Action::Reply { fd: rfd, data: rd } && rfd == fd && rd@ == reply_of(
                        old(self).store@,
                        c,
                    ))
                    &&& !keeps(c) ==> dropped_from(old(self).conns@, final(self).conns@, fd) && (
                    a matches Action::Close { fd: cfd } && cfd == fd)
                },
                Event::Gone { fd } => {
                    &&& final(self).store == old(self).store
                    &&& dropped_from(old(self).conns@, final(self).conns@, fd)
                    &&& a matches Action::Close { fd: cfd } && cfd == fd
                },
            },
    {
        match ev {
            Event::Tick => Action::Idle,
            Event::PollFailed => Action::Idle,
            Event::AcceptFailed => Action::Idle,
            Event::Accepted { fd } => {
                self.conns.insert(fd);
                Action::Idle
            },
            Event::Input { fd, data } => {
                match handle_request(&mut self.store, data.as_slice()) {
                    Option::Some(resp) => Action::Reply { fd, data: resp },
                    Option::None => {
                        self.conns.remove(fd);
                        Action::Close { fd }
                    },
                }
            },
            Event::Gone { fd } => {
                self.conns.remove(fd);
                Action::Close { fd }
            },
        }
    }
}

} // verus!
