//! Per-client outbound queue with backpressure.
//!
//! Replies are queued as whole frames; a non-blocking write may send only a
//! prefix, so the queue remembers how much of the front frame has left the
//! process. A client that never drains its queue is not allowed to grow it
//! without bound: past the configured ceiling, enqueueing fails with
//! `SlowClient` and the server disconnects the client.

use vstd::prelude::*;

use crate::errors::ProtocolError;

verus! {

/// Queued frames in send order, the number of bytes of the front frame
/// already written, and the ceiling on how many frames may wait at once.
pub struct OutboundQueue {
    pub msgs: Vec<Vec<u8>>,
    pub front_sent: usize,
    pub ceiling: usize,
}

impl OutboundQueue {
    /// Frames are never empty, and the sent prefix stays strictly inside
    /// the front frame (a fully written frame leaves the queue at once).
    pub open spec fn wf(self) -> bool {
        &&& forall|i: int| 0 <= i < self.msgs@.len() ==> (#[trigger] self.msgs@[i])@.len() > 0
        &&& if self.msgs@.len() == 0 {
            self.front_sent == 0
        } else {
            self.front_sent < self.msgs@[0]@.len()
        }
    }

    /// An empty queue with the given frame ceiling.
    pub fn new(ceiling: usize) -> (r: OutboundQueue)
        ensures
            r.wf(),
            r.msgs@ =~= Seq::<Vec<u8>>::empty(),
            r.front_sent == 0,
            r.ceiling == ceiling,
    {
        OutboundQueue { msgs: Vec::new(), front_sent: 0, ceiling }
    }

    /// How many frames wait.
    pub fn len(&self) -> (r: usize)
        ensures
            r == self.msgs@.len(),
    {
        self.msgs.len()
    }

    /// Queue one frame. Succeeds exactly while the queue is below its
    /// ceiling; at the ceiling the frame is refused with `SlowClient` and
    /// nothing changes — the caller's cue to disconnect the client.
    pub fn enqueue(&mut self, frame: Vec<u8>) -> (r: Result<(), ProtocolError>)
        requires
            old(self).wf(),
            frame@.len() > 0,
        ensures
            final(self).wf(),
            final(self).ceiling == old(self).ceiling,
            final(self).front_sent == old(self).front_sent,
            r is Ok <==> old(self).msgs@.len() < old(self).ceiling,
            r is Ok ==> final(self).msgs@ == old(self).msgs@.push(frame),
            r is Err ==> r == Err::<(), ProtocolError>(ProtocolError::SlowClient) && *final(self) == *old(self),
    {
        if self.msgs.len() < self.ceiling {
            self.msgs.push(frame);
            Ok(())
        } else {
            Err(ProtocolError::SlowClient)
        }
    }

    /// Whether anything waits to be written.
    pub fn has_pending(&self) -> (r: bool)
        ensures
            r == (self.msgs@.len() > 0),
    {
        self.msgs.len() > 0
    }

    /// The front frame, to hand to a non-blocking write.
    pub fn front(&self) -> (r: &Vec<u8>)
        requires
            self.msgs@.len() > 0,
        ensures
            r == self.msgs@[0],
    {
        &self.msgs[0]
    }

    /// How much of the front frame has already been written.
    pub fn front_offset(&self) -> (r: usize)
        ensures
            r == self.front_sent,
    {
        self.front_sent
    }

    /// Record that a non-blocking write took `n` more bytes of the front
    /// frame. A fully written frame leaves the queue; an unwritten
    /// remainder stays queued, re-armed for the next write readiness.
    pub fn advance(&mut self, n: usize) -> (done: bool)
        requires
            old(self).wf(),
            old(self).msgs@.len() > 0,
            n <= old(self).msgs@[0]@.len() - old(self).front_sent,
        ensures
            final(self).wf(),
            final(self).ceiling == old(self).ceiling,
            done == (old(self).front_sent + n == old(self).msgs@[0]@.len()),
            done ==> final(self).msgs@ == old(self).msgs@.remove(0) && final(self).front_sent == 0,
            !done ==> final(self).msgs@ == old(self).msgs@ && final(self).front_sent == old(self).front_sent + n,
    {
        let total = self.msgs[0].len();
        if self.front_sent + n == total {
            self.msgs.remove(0);
            self.front_sent = 0;
            true
        } else {
            self.front_sent = self.front_sent + n;
            false
        }
    }

    /// Drop everything queued (the connection is going away).
    pub fn clear(&mut self)
        ensures
            final(self).wf(),
            final(self).ceiling == old(self).ceiling,
            final(self).msgs@.len() == 0,
            final(self).front_sent == 0,
    {
        self.msgs.clear();
        self.front_sent = 0;
    }
}

} // verus!
