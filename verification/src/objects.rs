//! The protocol object table: identifier-to-object resolution and
//! lifecycle.
//!
//! Every object lives under a composite key of owning client and object
//! identifier, so an identifier is meaningful only inside the namespace of
//! the client that created it. Resolution by another client — however it
//! guessed the number — can only reach that other client's own namespace;
//! this is the chief protection against cross-client object confusion.

use vstd::prelude::*;

use crate::errors::ProtocolError;

verus! {

/// What an object is, with its kind-specific state. A surface carries its
/// double-buffered attachment: `pending_buffer` is what the client attached
/// since the last commit, `current_buffer` what the last commit made ready.
/// Pools and buffers point at their backing record in the pool manager.
#[derive(Clone, Copy, Debug)]
pub enum ObjectKind {
    Surface { pending_buffer: Option<u32>, current_buffer: Option<u32> },
    ShmPool { pool: u64 },
    Buffer { pool: u64 },
}

/// One row of the table: the owning client, the identifier in that
/// client's namespace, and the object itself.
#[derive(Clone, Copy, Debug)]
pub struct ObjectEntry {
    pub client: u64,
    pub id: u32,
    pub kind: ObjectKind,
}

/// The table of all live protocol objects, across all clients.
pub struct ObjectTable {
    pub entries: Vec<ObjectEntry>,
}

impl ObjectTable {
    /// Each (client, identifier) pair names at most one object.
    pub open spec fn wf(self) -> bool {
        forall|i: int, j: int|
            0 <= i < j < self.entries@.len() ==> !(self.entries@[i].client
                == self.entries@[j].client && self.entries@[i].id == self.entries@[j].id)
    }

    /// Whether this client owns an object under this identifier.
    pub open spec fn owns(self, client: u64, id: u32) -> bool {
        exists|i: int|
            0 <= i < self.entries@.len() && self.entries@[i].client == client
                && self.entries@[i].id == id
    }

    /// Index of that object (meaningful only when `owns` holds; unique
    /// under `wf`).
    pub open spec fn idx_of(self, client: u64, id: u32) -> int {
        choose|i: int|
            0 <= i < self.entries@.len() && self.entries@[i].client == client
                && self.entries@[i].id == id
    }

    /// The object itself.
    pub open spec fn kind_of(self, client: u64, id: u32) -> ObjectKind {
        self.entries@[self.idx_of(client, id)].kind
    }

    /// What resolution returns: the client's own object, or the one error
    /// the spec allows. Never another client's object.
    pub open spec fn spec_resolve(self, client: u64, id: u32) -> Result<
        ObjectKind,
        ProtocolError,
    > {
        if self.owns(client, id) {
            Ok(self.kind_of(client, id))
        } else {
            Err(ProtocolError::UnknownObject)
        }
    }

    /// An empty table.
    pub fn new() -> (r: ObjectTable)
        ensures
            r.wf(),
            r.entries@ =~= Seq::<ObjectEntry>::empty(),
    {
        ObjectTable { entries: Vec::new() }
    }

    /// Find the index of an object by owner and identifier.
    fn find(&self, client: u64, id: u32) -> (r: Option<usize>)
        ensures
            match r {
                Some(i) => i < self.entries@.len() && self.entries@[i as int].client == client
                    && self.entries@[i as int].id == id,
                None => !self.owns(client, id),
            },
    {
        let mut i: usize = 0;
        while i < self.entries.len()
            invariant
                i <= self.entries@.len(),
                forall|j: int|
                    0 <= j < i ==> !(self.entries@[j].client == client && self.entries@[j].id
                        == id),
            decreases self.entries@.len() - i,
        {
            if self.entries[i].client == client && self.entries[i].id == id {
                return Some(i);
            }
            i += 1;
        }
        None
    }

    /// Under `wf`, a matching index is the `idx_of` index.
    pub proof fn lemma_idx_unique(self, client: u64, id: u32, i: int)
        requires
            self.wf(),
            0 <= i < self.entries@.len(),
            self.entries@[i].client == client,
            self.entries@[i].id == id,
        ensures
            self.idx_of(client, id) == i,
            self.kind_of(client, id) == self.entries@[i].kind,
    {
        let j = self.idx_of(client, id);
        assert(0 <= j < self.entries@.len() && self.entries@[j].client == client
            && self.entries@[j].id == id);
    }

    /// Create an object for a client: allocate the next identifier in the
    /// client's namespace (one above the highest it owns, starting at 1),
    /// validate nothing here — payload validation against other components
    /// is the facade's business — and store the object. Fails only when
    /// the client's identifier space is exhausted, and then changes
    /// nothing.
    pub fn create(&mut self, client: u64, kind: ObjectKind) -> (r: Result<u32, ProtocolError>)
        requires
            old(self).wf(),
        ensures
            final(self).wf(),
            r is Err <==> old(self).owns(client, u32::MAX),
            r is Err ==> r == Err::<u32, ProtocolError>(ProtocolError::TooManyObjects) && *final(self) == *old(self),
            r matches Ok(id) ==> ({
                &&& !old(self).owns(client, id)
                &&& id >= 1
                &&& final(self).entries@ == old(self).entries@.push(
                    (ObjectEntry { client, id, kind }),
                )
                &&& final(self).owns(client, id)
                &&& final(self).kind_of(client, id) == kind
                &&& (forall|j: int|
                    0 <= j < old(self).entries@.len() && old(self).entries@[j].client == client
                        ==> (#[trigger] old(self).entries@[j]).id < id)
                &&& ((forall|j: int|
                    0 <= j < old(self).entries@.len() ==> (#[trigger] old(self).entries@[j]).client != client) ==> id == 1)
            }),
    {
        let id = match self.alloc_id(client) {
            Err(e) => {
                return Err(e);
            },
            Ok(id) => id,
        };
        self.insert_with_id(client, id, kind);
        Ok(id)
    }

    /// The identifier the next create for this client will use: one above
    /// the highest the client owns, starting at 1. Read-only; fails exactly
    /// when the namespace is exhausted.
    pub fn alloc_id(&self, client: u64) -> (r: Result<u32, ProtocolError>)
        ensures
            r is Err <==> self.owns(client, u32::MAX),
            r is Err ==> r == Err::<u32, ProtocolError>(ProtocolError::TooManyObjects),
            r matches Ok(id) ==> ({
                &&& !self.owns(client, id)
                &&& id >= 1
                &&& (forall|j: int|
                    0 <= j < self.entries@.len() && self.entries@[j].client == client ==> (
                    #[trigger] self.entries@[j]).id < id)
                &&& ((forall|j: int|
                    0 <= j < self.entries@.len() ==> (#[trigger] self.entries@[j]).client
                        != client) ==> id == 1)
            }),
    {
        let mut max: u32 = 0;
        let mut i: usize = 0;
        while i < self.entries.len()
            invariant
                i <= self.entries@.len(),
                forall|j: int|
                    0 <= j < i && self.entries@[j].client == client ==> (#[trigger] self.entries@[j]).id <= max,
                max != 0 ==> exists|j: int|
                    0 <= j < i && self.entries@[j].client == client && self.entries@[j].id == max,
            decreases self.entries@.len() - i,
        {
            if self.entries[i].client == client && self.entries[i].id > max {
                max = self.entries[i].id;
            }
            i += 1;
        }
        if max == u32::MAX {
            return Err(ProtocolError::TooManyObjects);
        }
        Ok(max + 1)
    }

    /// Store an object under an identifier the caller knows to be free in
    /// the client's namespace.
    pub fn insert_with_id(&mut self, client: u64, id: u32, kind: ObjectKind)
        requires
            old(self).wf(),
            !old(self).owns(client, id),
        ensures
            final(self).wf(),
            final(self).entries@ == old(self).entries@.push((ObjectEntry { client, id, kind })),
            final(self).owns(client, id),
            final(self).kind_of(client, id) == kind,
    {
        self.entries.push(ObjectEntry { client, id, kind });
        proof {
            let n = (self.entries@.len() - 1) as int;
            assert(self.entries@[n].client == client && self.entries@[n].id == id);
            self.lemma_idx_unique(client, id, n);
        }
    }

    /// Resolve an identifier within the requesting client's namespace.
    pub fn resolve(&self, client: u64, id: u32) -> (r: Result<ObjectKind, ProtocolError>)
        requires
            self.wf(),
        ensures
            r == self.spec_resolve(client, id),
    {
        match self.find(client, id) {
            None => Err(ProtocolError::UnknownObject),
            Some(i) => {
                proof {
                    self.lemma_idx_unique(client, id, i as int);
                }
                Ok(self.entries[i].kind)
            },
        }
    }

    /// Remove an object, returning what it was so the caller can cascade
    /// (pool reference counts, destruction callbacks). Fails exactly when
    /// the client owns nothing under the identifier, and then changes
    /// nothing.
    pub fn destroy(&mut self, client: u64, id: u32) -> (r: Result<ObjectKind, ProtocolError>)
        requires
            old(self).wf(),
        ensures
            final(self).wf(),
            r is Err <==> !old(self).owns(client, id),
            r is Err ==> r == Err::<ObjectKind, ProtocolError>(ProtocolError::UnknownObject)
                && *final(self) == *old(self),
            r matches Ok(k) ==> k == old(self).kind_of(client, id) && final(self).entries@ == old(self).entries@.remove(old(self).idx_of(client, id)),
    {
        match self.find(client, id) {
            None => Err(ProtocolError::UnknownObject),
            Some(i) => {
                proof {
                    self.lemma_idx_unique(client, id, i as int);
                }
                let e = self.entries.remove(i);
                proof {
                    lemma_entries_wf_after_remove(
                        old(self).entries@,
                        self.entries@,
                        i as int,
                    );
                }
                Ok(e.kind)
            },
        }
    }

    /// Replace a surface's pending attachment. Fails with `UnknownObject`
    /// when the client owns nothing under the identifier, and with
    /// `ProtocolViolation` when the object is not a surface; on failure
    /// nothing changes.
    pub fn attach(&mut self, client: u64, id: u32, buffer: Option<u32>) -> (r: Result<
        (),
        ProtocolError,
    >)
        requires
            old(self).wf(),
        ensures
            final(self).wf(),
            r is Err ==> *final(self) == *old(self),
            r == Err::<(), ProtocolError>(ProtocolError::UnknownObject) <==> !old(self).owns(
                client,
                id,
            ),
            r == Err::<(), ProtocolError>(ProtocolError::ProtocolViolation) <==> (old(self).owns(
                client,
                id,
            ) && !(old(self).kind_of(client, id) is Surface)),
            r is Ok <==> (old(self).owns(client, id) && old(self).kind_of(client, id) is Surface),
            r is Ok ==> final(self).entries@ == old(self).entries@.update(
                old(self).idx_of(client, id),
                (ObjectEntry {
                    client,
                    id,
                    kind: ObjectKind::Surface {
                        pending_buffer: buffer,
                        current_buffer: old(self).kind_of(client, id)->Surface_current_buffer,
                    },
                }),
            ),
    {
        let i = match self.find(client, id) {
            None => {
                return Err(ProtocolError::UnknownObject);
            },
            Some(i) => i,
        };
        proof {
            self.lemma_idx_unique(client, id, i as int);
        }
        let current = match self.entries[i].kind {
            ObjectKind::Surface { current_buffer, .. } => current_buffer,
            _ => {
                return Err(ProtocolError::ProtocolViolation);
            },
        };
        let ghost before = self.entries@;
        let mut e = self.entries.remove(i);
        e.kind = ObjectKind::Surface { pending_buffer: buffer, current_buffer: current };
        self.entries.insert(i, e);
        proof {
            assert(self.entries@ =~= before.update(i as int, self.entries@[i as int]));
        }
        Ok(())
    }

    /// Commit a surface: its pending attachment becomes current, and the
    /// now-ready buffer (if any) is returned for the rendering
    /// collaborator. Fails with `UnknownObject` when the client owns
    /// nothing under the identifier, and with `ProtocolViolation` when the
    /// object is not a surface; on failure nothing changes.
    pub fn commit(&mut self, client: u64, id: u32) -> (r: Result<Option<u32>, ProtocolError>)
        requires
            old(self).wf(),
        ensures
            final(self).wf(),
            r is Err ==> *final(self) == *old(self),
            r == Err::<Option<u32>, ProtocolError>(ProtocolError::UnknownObject) <==> !old(self).owns(client, id),
            r == Err::<Option<u32>, ProtocolError>(ProtocolError::ProtocolViolation) <==> (old(self).owns(client, id) && !(old(self).kind_of(client, id) is Surface)),
            r is Ok <==> (old(self).owns(client, id) && old(self).kind_of(client, id) is Surface),
            r matches Ok(ready) ==> ({
                &&& ready == old(self).kind_of(client, id)->Surface_pending_buffer
                &&& final(self).entries@ == old(self).entries@.update(
                    old(self).idx_of(client, id),
                    (ObjectEntry {
                        client,
                        id,
                        kind: ObjectKind::Surface {
                            pending_buffer: ready,
                            current_buffer: ready,
                        },
                    }),
                )
            }),
    {
        let i = match self.find(client, id) {
            None => {
                return Err(ProtocolError::UnknownObject);
            },
            Some(i) => i,
        };
        proof {
            self.lemma_idx_unique(client, id, i as int);
        }
        let pending = match self.entries[i].kind {
            ObjectKind::Surface { pending_buffer, .. } => pending_buffer,
            _ => {
                return Err(ProtocolError::ProtocolViolation);
            },
        };
        let ghost before = self.entries@;
        let mut e = self.entries.remove(i);
        e.kind = ObjectKind::Surface { pending_buffer: pending, current_buffer: pending };
        self.entries.insert(i, e);
        proof {
            assert(self.entries@ =~= before.update(i as int, self.entries@[i as int]));
        }
        Ok(pending)
    }

    /// Cascading destruction on disconnect: every object the client owns
    /// leaves the table, everything else stays, in order. Afterwards the
    /// table holds zero objects under that client's identifier — no leak,
    /// no dangling reference.
    pub fn purge_client(&mut self, client: u64)
        requires
            old(self).wf(),
        ensures
            final(self).wf(),
            final(self).entries@ == old(self).entries@.filter(
                |e: ObjectEntry| e.client != client,
            ),
            forall|i: int|
                0 <= i < final(self).entries@.len() ==> (#[trigger] final(self).entries@[i]).client != client,
            forall|id: u32| !final(self).owns(client, id),
    {
        let ghost all = self.entries@;
        let ghost pred = |e: ObjectEntry| e.client != client;
        let mut kept: Vec<ObjectEntry> = Vec::new();
        let ghost mut done: int = 0;
        while self.entries.len() > 0
            invariant
                0 <= done <= all.len(),
                self.entries@ =~= all.skip(done),
                kept@ == all.take(done).filter(pred),
                pred == (|e: ObjectEntry| e.client != client),
            decreases self.entries@.len(),
        {
            proof {
                assert(all.take(done + 1).drop_last() =~= all.take(done));
                assert(all.take(done + 1).last() == all[done]);
                reveal(Seq::filter);
            }
            let e = self.entries.remove(0);
            proof {
                assert(e == all[done]);
            }
            if e.client != client {
                kept.push(e);
            }
            proof {
                reveal(Seq::filter);
                assert(kept@ == all.take(done + 1).filter(pred));
                done = done + 1;
                assert(self.entries@ =~= all.skip(done));
            }
        }
        proof {
            assert(all.take(all.len() as int) =~= all);
        }
        self.entries = kept;
        proof {
            lemma_entries_filter_wf(all, self.entries@, pred);
            assert forall|i: int|
                0 <= i < self.entries@.len() implies (#[trigger] self.entries@[i]).client
                != client by {
                all.lemma_filter_pred(pred, i);
            }
        }
    }
}

/// Removing one entry preserves key uniqueness.
proof fn lemma_entries_wf_after_remove(before: Seq<ObjectEntry>, after: Seq<ObjectEntry>, i: int)
    requires
        0 <= i < before.len(),
        after == before.remove(i),
        forall|a: int, b: int|
            0 <= a < b < before.len() ==> !(before[a].client == before[b].client && before[a].id
                == before[b].id),
    ensures
        forall|a: int, b: int|
            0 <= a < b < after.len() ==> !(after[a].client == after[b].client && after[a].id
                == after[b].id),
{
    assert(forall|a: int|
        0 <= a < after.len() ==> after[a] == (if a < i {
            before[a]
        } else {
            before[a + 1]
        }));
}

/// Every element of a filtered sequence stands somewhere in the sequence
/// it was filtered from.
pub proof fn lemma_entries_filter_elem_from(
    s: Seq<ObjectEntry>,
    pred: spec_fn(ObjectEntry) -> bool,
    a: int,
)
    requires
        0 <= a < s.filter(pred).len(),
    ensures
        exists|j: int| 0 <= j < s.len() && s[j] == s.filter(pred)[a],
    decreases s.len(),
{
    reveal(Seq::filter);
    if s.len() == 0 {
    } else {
        let head = s.drop_last();
        if a < head.filter(pred).len() {
            lemma_entries_filter_elem_from(head, pred, a);
            let j = choose|j: int| 0 <= j < head.len() && head[j] == head.filter(pred)[a];
            assert(s[j] == s.filter(pred)[a]);
        } else {
            assert(pred(s.last()) && s.filter(pred)[a] == s.last());
            assert(s[s.len() - 1] == s.filter(pred)[a]);
        }
    }
}

/// A filtered table is still well formed: filtering keeps a subset of the
/// rows in order.
proof fn lemma_entries_filter_wf(
    before: Seq<ObjectEntry>,
    after: Seq<ObjectEntry>,
    pred: spec_fn(ObjectEntry) -> bool,
)
    requires
        after == before.filter(pred),
        forall|a: int, b: int|
            0 <= a < b < before.len() ==> !(before[a].client == before[b].client && before[a].id
                == before[b].id),
    ensures
        forall|a: int, b: int|
            0 <= a < b < after.len() ==> !(after[a].client == after[b].client && after[a].id
                == after[b].id),
    decreases before.len(),
{
    reveal(Seq::filter);
    if before.len() == 0 {
    } else {
        let head = before.drop_last();
        lemma_entries_filter_wf(head, head.filter(pred), pred);
        if pred(before.last()) {
            assert(after == head.filter(pred).push(before.last()));
            assert forall|a: int, b: int|
                0 <= a < b < after.len() implies !(after[a].client == after[b].client && after[a].id
                == after[b].id) by {
                if b == after.len() - 1 {
                    lemma_entries_filter_elem_from(head, pred, a);
                    let j = choose|j: int| 0 <= j < head.len() && head[j] == head.filter(pred)[a];
                    assert(before[j] == after[a]);
                    assert(!(before[j].client == before[before.len() - 1].client && before[j].id
                        == before[before.len() - 1].id));
                }
            }
        } else {
            assert(after == head.filter(pred));
        }
    }
}

/// Cross-client isolation: for any two distinct clients, resolving an
/// identifier that the second client owns and the first does not always
/// fails with `UnknownObject` — a guessed identifier never reaches another
/// client's object. (When the first client happens to own the same numeric
/// identifier, resolution yields that client's own object instead; it still
/// never yields the other client's.)
pub proof fn lemma_cross_client_isolation(t: ObjectTable, a: u64, b: u64, id: u32)
    requires
        t.wf(),
        a != b,
        t.owns(b, id),
        !t.owns(a, id),
    ensures
        t.spec_resolve(a, id) == Err::<ObjectKind, ProtocolError>(ProtocolError::UnknownObject),
{
}

/// Resolution is confined to the requester's namespace: a successful
/// resolve always yields an object the requesting client owns, never
/// another client's entry.
pub proof fn lemma_resolve_stays_home(t: ObjectTable, c: u64, id: u32)
    requires
        t.wf(),
    ensures
        t.spec_resolve(c, id) is Ok ==> t.owns(c, id) && t.entries@[t.idx_of(c, id)].client == c,
{
}

} // verus!
