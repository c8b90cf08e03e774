//! Admission, identity, and teardown of client connections.
//!
//! Each admitted client gets an identifier no client of this server ever
//! had before; other components refer to clients only by that identifier.
//! Disconnection is idempotent: tearing down a client that is already gone
//! is a no-op, so peer-initiated close and local detection of a broken
//! pipe can race without harm.

use vstd::prelude::*;

use crate::errors::ProtocolError;

verus! {

/// One connected peer: its identifier and the event-source handle its
/// connection is registered under.
#[derive(Clone, Copy, Debug)]
pub struct ClientRec {
    pub id: u64,
    pub source: u64,
}

/// The set of live clients, the identifier allocator, and the admission
/// ceiling.
pub struct ClientRegistry {
    pub clients: Vec<ClientRec>,
    pub next_id: u64,
    pub max_clients: usize,
}

impl ClientRegistry {
    /// Identifiers are unique and below the allocator's cursor, so a new
    /// admission can never collide with any client, past or present.
    pub open spec fn wf(self) -> bool {
        &&& forall|i: int, j: int|
            0 <= i < j < self.clients@.len() ==> self.clients@[i].id != self.clients@[j].id
        &&& forall|i: int|
            0 <= i < self.clients@.len() ==> (#[trigger] self.clients@[i]).id < self.next_id
    }

    /// Whether this identifier names a live client.
    pub open spec fn is_live(self, client: u64) -> bool {
        exists|i: int| 0 <= i < self.clients@.len() && self.clients@[i].id == client
    }

    /// Index of a live client (meaningful only when `is_live` holds;
    /// unique under `wf`).
    pub open spec fn idx_of(self, client: u64) -> int {
        choose|i: int| 0 <= i < self.clients@.len() && self.clients@[i].id == client
    }

    /// The event source of a live client.
    pub open spec fn source_of(self, client: u64) -> u64 {
        self.clients@[self.idx_of(client)].source
    }

    /// An empty registry with the given admission ceiling.
    pub fn new(max_clients: usize) -> (r: ClientRegistry)
        ensures
            r.wf(),
            r.clients@ =~= Seq::<ClientRec>::empty(),
            r.next_id == 1,
            r.max_clients == max_clients,
    {
        ClientRegistry { clients: Vec::new(), next_id: 1, max_clients }
    }

    /// Find the index of a live client.
    fn find(&self, client: u64) -> (r: Option<usize>)
        ensures
            match r {
                Some(i) => i < self.clients@.len() && self.clients@[i as int].id == client,
                None => !self.is_live(client),
            },
    {
        let mut i: usize = 0;
        while i < self.clients.len()
            invariant
                i <= self.clients@.len(),
                forall|j: int| 0 <= j < i ==> self.clients@[j].id != client,
            decreases self.clients@.len() - i,
        {
            if self.clients[i].id == client {
                return Some(i);
            }
            i += 1;
        }
        None
    }

    /// Exec mirror of `is_live`.
    pub fn contains(&self, client: u64) -> (r: bool)
        ensures
            r == self.is_live(client),
    {
        match self.find(client) {
            Some(_) => true,
            None => false,
        }
    }

    /// The event source a live client's connection is registered under.
    pub fn source(&self, client: u64) -> (r: u64)
        requires
            self.wf(),
            self.is_live(client),
        ensures
            r == self.source_of(client),
    {
        match self.find(client) {
            Some(i) => {
                proof {
                    let j = self.idx_of(client);
                    assert(0 <= j < self.clients@.len() && self.clients@[j].id == client);
                    assert(j == i as int);
                }
                self.clients[i].source
            },
            None => {
                proof {
                    assert(false);
                }
                0
            },
        }
    }

    /// Accept a new client under a fresh identifier. Fails only on resource
    /// exhaustion — the registry at its ceiling, or the identifier space
    /// spent — and then changes nothing.
    pub fn accept(&mut self, source: u64) -> (r: Result<u64, ProtocolError>)
        requires
            old(self).wf(),
        ensures
            final(self).wf(),
            final(self).max_clients == old(self).max_clients,
            r is Ok <==> (old(self).clients@.len() < old(self).max_clients && old(self).next_id
                < u64::MAX),
            r is Err ==> r == Err::<u64, ProtocolError>(ProtocolError::TooManyClients) && *final(self) == *old(self),
            r matches Ok(id) ==> ({
                &&& id == old(self).next_id
                &&& !old(self).is_live(id)
                &&& final(self).clients@ == old(self).clients@.push((ClientRec { id, source }))
                &&& final(self).next_id == old(self).next_id + 1
                &&& final(self).is_live(id)
                &&& final(self).source_of(id) == source
            }),
    {
        if self.clients.len() >= self.max_clients || self.next_id == u64::MAX {
            return Err(ProtocolError::TooManyClients);
        }
        let id = self.next_id;
        self.clients.push(ClientRec { id, source });
        self.next_id = id + 1;
        proof {
            let i = (self.clients@.len() - 1) as int;
            assert(self.clients@[i].id == id);
            let j = self.idx_of(id);
            assert(0 <= j < self.clients@.len() && self.clients@[j].id == id);
        }
        Ok(id)
    }

    /// Tear a client down, reporting whether it was live. Idempotent by
    /// construction: on a client that is already gone (or never existed)
    /// nothing changes, and afterwards the identifier is dead either way.
    /// The identifier is never reissued.
    pub fn remove(&mut self, client: u64) -> (had: bool)
        requires
            old(self).wf(),
        ensures
            final(self).wf(),
            final(self).max_clients == old(self).max_clients,
            final(self).next_id == old(self).next_id,
            had == old(self).is_live(client),
            !had ==> *final(self) == *old(self),
            had ==> final(self).clients@ == old(self).clients@.remove(old(self).idx_of(client)),
            !final(self).is_live(client),
            forall|c: u64|
                c != client ==> (final(self).is_live(c) <==> old(self).is_live(c)),
    {
        match self.find(client) {
            None => false,
            Some(i) => {
                proof {
                    let j = self.idx_of(client);
                    assert(0 <= j < self.clients@.len() && self.clients@[j].id == client);
                    assert(j == i as int);
                }
                let ghost before = self.clients@;
                self.clients.remove(i);
                proof {
                    assert(forall|a: int|
                        0 <= a < self.clients@.len() ==> self.clients@[a] == (if a < i as int {
                            before[a]
                        } else {
                            before[a + 1]
                        }));
                    assert forall|c: u64| c != client && old(self).is_live(c) implies final(self).is_live(c) by {
                        let a = choose|a: int|
                            0 <= a < before.len() && before[a].id == c;
                        if a < i as int {
                            assert(self.clients@[a].id == c);
                        } else {
                            assert(self.clients@[a - 1].id == c);
                        }
                    }
                }
                true
            },
        }
    }
}

} // verus!
