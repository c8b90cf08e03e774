//! Bookkeeping half of the event loop: which sources are registered.
//!
//! The wait primitive itself — polling descriptors and sleeping until one
//! is ready — is I/O and lives outside this crate. What the core owns is
//! the registration discipline: a source may be registered once, a
//! deregistered source stays deregistered, and readiness delivered for a
//! source that has since been deregistered must be recognized as stale (the
//! server treats it as a no-op rather than a fault).

use vstd::prelude::*;

use crate::errors::ProtocolError;

verus! {

/// The registered event sources, by handle.
pub struct SourceTable {
    pub sources: Vec<u64>,
}

impl SourceTable {
    /// No handle is registered twice.
    pub open spec fn wf(self) -> bool {
        forall|i: int, j: int|
            0 <= i < j < self.sources@.len() ==> self.sources@[i] != self.sources@[j]
    }

    /// Whether a handle is currently registered.
    pub open spec fn registered(self, source: u64) -> bool {
        self.sources@.contains(source)
    }

    /// An empty table.
    pub fn new() -> (r: SourceTable)
        ensures
            r.wf(),
            r.sources@ =~= Seq::<u64>::empty(),
    {
        SourceTable { sources: Vec::new() }
    }

    /// Find the index of a registered handle.
    fn find(&self, source: u64) -> (r: Option<usize>)
        ensures
            match r {
                Some(i) => i < self.sources@.len() && self.sources@[i as int] == source,
                None => !self.registered(source),
            },
    {
        let mut i: usize = 0;
        while i < self.sources.len()
            invariant
                i <= self.sources@.len(),
                forall|j: int| 0 <= j < i ==> self.sources@[j] != source,
            decreases self.sources@.len() - i,
        {
            if self.sources[i] == source {
                return Some(i);
            }
            i += 1;
        }
        None
    }

    /// Exec mirror of `registered`.
    pub fn is_registered(&self, source: u64) -> (r: bool)
        ensures
            r == self.registered(source),
    {
        match self.find(source) {
            Some(_) => true,
            None => false,
        }
    }

    /// Register a source. Fails exactly when the handle is already
    /// registered, and then changes nothing.
    pub fn register(&mut self, source: u64) -> (r: Result<(), ProtocolError>)
        requires
            old(self).wf(),
        ensures
            final(self).wf(),
            r is Ok <==> !old(self).registered(source),
            r is Err ==> r == Err::<(), ProtocolError>(ProtocolError::DuplicateSource) && *final(self) == *old(self),
            r is Ok ==> final(self).sources@ == old(self).sources@.push(source),
            final(self).registered(source),
    {
        match self.find(source) {
            Some(_) => Err(ProtocolError::DuplicateSource),
            None => {
                self.sources.push(source);
                proof {
                    assert(self.sources@[self.sources@.len() - 1] == source);
                }
                Ok(())
            },
        }
    }

    /// Deregister a source, reporting whether it was registered. Stale
    /// deregistration is a no-op, and afterwards the handle is not
    /// registered either way.
    pub fn deregister(&mut self, source: u64) -> (had: bool)
        requires
            old(self).wf(),
        ensures
            final(self).wf(),
            had == old(self).registered(source),
            !had ==> *final(self) == *old(self),
            had ==> exists|i: int|
                0 <= i < old(self).sources@.len() && old(self).sources@[i] == source && final(self).sources@ == old(self).sources@.remove(i),
            !final(self).registered(source),
            forall|s: u64| s != source ==> (final(self).registered(s) <==> old(self).registered(s)),
    {
        match self.find(source) {
            None => false,
            Some(i) => {
                let ghost before = self.sources@;
                self.sources.remove(i);
                proof {
                    assert(forall|a: int|
                        0 <= a < self.sources@.len() ==> self.sources@[a] == (if a < i as int {
                            before[a]
                        } else {
                            before[a + 1]
                        }));
                    assert forall|s: u64| s != source && before.contains(s) implies final(self).registered(s) by {
                        let a = choose|a: int| 0 <= a < before.len() && before[a] == s;
                        if a < i as int {
                            assert(self.sources@[a] == s);
                        } else {
                            assert(self.sources@[a - 1] == s);
                        }
                    }
                    assert forall|s: u64| s != source && final(self).registered(s) implies
                        before.contains(s) by {
                        let a = choose|a: int|
                            0 <= a < self.sources@.len() && self.sources@[a] == s;
                        if a < i as int {
                            assert(before[a] == s);
                        } else {
                            assert(before[a + 1] == s);
                        }
                    }
                }
                true
            },
        }
    }
}

} // verus!
