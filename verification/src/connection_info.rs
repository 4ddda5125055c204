//! The choking and interest state of peer connections. Every connection's state lives in
//! one table; a `PeerConnectionInfo` is a handle to one entry, and all clones of a handle
//! read and change that same entry.
use vstd::prelude::*;

verus! {

/// Choking and interest state of one peer connection, on both sides.
#[derive(Debug, Clone, Copy, PartialEq, Eq, Structural)]
pub struct ConnectionFlags {
    pub am_choking: bool,
    pub am_interested: bool,
    pub peer_choking: bool,
    pub peer_interested: bool,
    pub connection_is_active: bool,
}

/// The state of a new connection: both sides choke, neither is interested, nothing active.
pub open spec fn fresh_flags() -> ConnectionFlags {
    ConnectionFlags {
        am_choking: true,
        am_interested: false,
        peer_choking: true,
        peer_interested: false,
        connection_is_active: false,
    }
}

/// The states of all connections, one entry each.
#[derive(Debug)]
pub struct ConnectionInfos {
    entries: Vec<ConnectionFlags>,
}

impl ConnectionInfos {
    pub closed spec fn flags(self) -> Seq<ConnectionFlags> {
        self.entries@
    }

    /// No connection yet.
    pub fn new() -> (r: Self)
        ensures
            r.flags().len() == 0,
    {
        ConnectionInfos { entries: Vec::new() }
    }
}

/// A handle to the state of one peer connection; its clones share that state.
#[derive(Debug, Clone, Copy, PartialEq, Eq, Structural)]
pub struct PeerConnectionInfo {
    idx: usize,
}

impl PeerConnectionInfo {
    /// The entry of the table the handle reads and changes.
    pub closed spec fn index(self) -> usize {
        self.idx
    }

    /// The handle has an entry in `t`.
    pub open spec fn valid_in(self, t: ConnectionInfos) -> bool {
        self.index() < t.flags().len()
    }

    /// The connection's state as `t` holds it.
    pub open spec fn state_in(self, t: ConnectionInfos) -> ConnectionFlags {
        t.flags()[self.index() as int]
    }

    /// A new connection, with its own entry in `t`: both sides choke, neither is interested,
    /// nothing active yet.
    pub fn new(t: &mut ConnectionInfos) -> (r: Self)
        requires
            old(t).flags().len() < usize::MAX,
        ensures
            r.index() == old(t).flags().len(),
            final(t).flags() == old(t).flags().push(fresh_flags()),
    {
        let idx = t.entries.len();
        t.entries.push(
            ConnectionFlags {
                am_choking: true,
                am_interested: false,
                peer_choking: true,
                peer_interested: false,
                connection_is_active: false,
            },
        );
        PeerConnectionInfo { idx }
    }

    pub fn am_choking(&self, t: &ConnectionInfos) -> (r: bool)
        requires
            self.valid_in(*t),
        ensures
            r == self.state_in(*t).am_choking,
    {
        t.entries[self.idx].am_choking
    }

    /// Sets the flag for every handle to this connection; the other flags and the other
    /// connections stay as they are.
    pub fn set_am_choking(&self, t: &mut ConnectionInfos, v: bool)
        requires
            self.valid_in(*old(t)),
        ensures
            final(t).flags() == old(t).flags().update(
                self.index() as int,
                (ConnectionFlags { am_choking: v, ..self.state_in(*old(t)) }),
            ),
    {
        let mut e = t.entries[self.idx];
        e.am_choking = v;
        t.entries.set(self.idx, e);
    }

    pub fn am_interested(&self, t: &ConnectionInfos) -> (r: bool)
        requires
            self.valid_in(*t),
        ensures
            r == self.state_in(*t).am_interested,
    {
        t.entries[self.idx].am_interested
    }

    /// Sets the flag for every handle to this connection; the other flags and the other
    /// connections stay as they are.
    pub fn set_am_interested(&self, t: &mut ConnectionInfos, v: bool)
        requires
            self.valid_in(*old(t)),
        ensures
            final(t).flags() == old(t).flags().update(
                self.index() as int,
                (ConnectionFlags { am_interested: v, ..self.state_in(*old(t)) }),
            ),
    {
        let mut e = t.entries[self.idx];
        e.am_interested = v;
        t.entries.set(self.idx, e);
    }

    pub fn peer_choking(&self, t: &ConnectionInfos) -> (r: bool)
        requires
            self.valid_in(*t),
        ensures
            r == self.state_in(*t).peer_choking,
    {
        t.entries[self.idx].peer_choking
    }

    /// Sets the flag for every handle to this connection; the other flags and the other
    /// connections stay as they are.
    pub fn set_peer_choking(&self, t: &mut ConnectionInfos, v: bool)
        requires
            self.valid_in(*old(t)),
        ensures
            final(t).flags() == old(t).flags().update(
                self.index() as int,
                (ConnectionFlags { peer_choking: v, ..self.state_in(*old(t)) }),
            ),
    {
        let mut e = t.entries[self.idx];
        e.peer_choking = v;
        t.entries.set(self.idx, e);
    }

    pub fn peer_interested(&self, t: &ConnectionInfos) -> (r: bool)
        requires
            self.valid_in(*t),
        ensures
            r == self.state_in(*t).peer_interested,
    {
        t.entries[self.idx].peer_interested
    }

    /// Sets the flag for every handle to this connection; the other flags and the other
    /// connections stay as they are.
    pub fn set_peer_interested(&self, t: &mut ConnectionInfos, v: bool)
        requires
            self.valid_in(*old(t)),
        ensures
            final(t).flags() == old(t).flags().update(
                self.index() as int,
                (ConnectionFlags { peer_interested: v, ..self.state_in(*old(t)) }),
            ),
    {
        let mut e = t.entries[self.idx];
        e.peer_interested = v;
        t.entries.set(self.idx, e);
    }

    pub fn connection_is_active(&self, t: &ConnectionInfos) -> (r: bool)
        requires
            self.valid_in(*t),
        ensures
            r == self.state_in(*t).connection_is_active,
    {
        t.entries[self.idx].connection_is_active
    }

    /// Sets the flag for every handle to this connection; the other flags and the other
    /// connections stay as they are.
    pub fn set_connection_is_active(&self, t: &mut ConnectionInfos, v: bool)
        requires
            self.valid_in(*old(t)),
        ensures
            final(t).flags() == old(t).flags().update(
                self.index() as int,
                (ConnectionFlags { connection_is_active: v, ..self.state_in(*old(t)) }),
            ),
    {
        let mut e = t.entries[self.idx];
        e.connection_is_active = v;
        t.entries.set(self.idx, e);
    }
}

/// A change made through one handle is seen through every handle to the same connection,
/// clones included, and through no handle to another connection.
pub proof fn lemma_handles_share(p: PeerConnectionInfo, q: PeerConnectionInfo, t0: ConnectionInfos, t1: ConnectionInfos, f: ConnectionFlags)
    requires
        q.valid_in(t0),
        p.valid_in(t0),
        t1.flags() == t0.flags().update(q.index() as int, f),
    ensures
        p.valid_in(t1),
        p.index() == q.index() ==> p.state_in(t1) == f,
        p.index() != q.index() ==> p.state_in(t1) == p.state_in(t0),
{
}

} // verus!
