//! Per-connection message framing, and the encoding of outbound events.
//!
//! Messages are self-delimited: an eight-byte header carries the target
//! object identifier (four bytes, little endian), an opcode (two bytes) and
//! the total message size in bytes, header included (two bytes, at least
//! eight); the body follows. A short read leaves a remainder buffered for
//! the next call — feeding never blocks waiting for more data, and feeding
//! a stream in any split produces the same messages as feeding it whole.

use vstd::prelude::*;

verus! {

/// Smallest legal frame: the bare header.
pub const MIN_FRAME: u16 = 8;

/// A little-endian sixteen-bit quantity.
pub open spec fn le16(b0: u8, b1: u8) -> int {
    b0 + 256 * b1
}

/// A little-endian thirty-two-bit quantity.
pub open spec fn le32(b0: u8, b1: u8, b2: u8, b3: u8) -> int {
    b0 + 256 * (b1 + 256 * (b2 + 256 * b3))
}

/// The header fields of a buffered stream that holds at least a header.
pub open spec fn frame_object(s: Seq<u8>) -> int {
    le32(s[0], s[1], s[2], s[3])
}

pub open spec fn frame_opcode(s: Seq<u8>) -> int {
    le16(s[4], s[5])
}

pub open spec fn frame_size(s: Seq<u8>) -> int {
    le16(s[6], s[7])
}

/// One decoded message: which object it addresses, what it asks, and the
/// raw argument bytes.
#[derive(Debug)]
pub struct Message {
    pub object_id: u32,
    pub opcode: u16,
    pub body: Vec<u8>,
}

/// The mathematical shape of a message.
pub struct MessageView {
    pub object_id: u32,
    pub opcode: u16,
    pub body: Seq<u8>,
}

impl View for Message {
    type V = MessageView;

    open spec fn view(&self) -> MessageView {
        MessageView { object_id: self.object_id, opcode: self.opcode, body: self.body@ }
    }
}

/// The message a complete frame `s` (whose length equals its size field)
/// denotes.
pub open spec fn msg_of(s: Seq<u8>) -> MessageView {
    MessageView {
        object_id: frame_object(s) as u32,
        opcode: frame_opcode(s) as u16,
        body: s.skip(8),
    }
}

/// What extraction leaves: the complete messages in arrival order, the
/// buffered remainder, and whether the stream is malformed (a size field
/// smaller than a header, after which no boundary can be trusted).
pub struct ParseOut {
    pub msgs: Seq<MessageView>,
    pub rest: Seq<u8>,
    pub malformed: bool,
}

/// Extract every complete message from the front of a byte stream. A
/// partial trailer stays as the remainder; a malformed header stops
/// extraction on the spot.
pub open spec fn parse(s: Seq<u8>) -> ParseOut
    decreases s.len(),
{
    if s.len() < 8 {
        ParseOut { msgs: Seq::empty(), rest: s, malformed: false }
    } else {
        let sz = frame_size(s);
        if sz < 8 {
            ParseOut { msgs: Seq::empty(), rest: s, malformed: true }
        } else if s.len() < sz {
            ParseOut { msgs: Seq::empty(), rest: s, malformed: false }
        } else {
            let tail = parse(s.skip(sz));
            ParseOut {
                msgs: seq![msg_of(s.take(sz))] + tail.msgs,
                rest: tail.rest,
                malformed: tail.malformed,
            }
        }
    }
}

/// Extending a stream never disturbs what was already extracted: parsing
/// `s + t` yields the messages of `s` followed by whatever the remainder of
/// `s` and `t` together yield. This is the heart of restartability across
/// arbitrary read boundaries.
pub proof fn lemma_parse_extend(s: Seq<u8>, t: Seq<u8>)
    requires
        !parse(s).malformed,
    ensures
        parse(s + t).msgs == parse(s).msgs + parse(parse(s).rest + t).msgs,
        parse(s + t).rest == parse(parse(s).rest + t).rest,
        parse(s + t).malformed == parse(parse(s).rest + t).malformed,
    decreases s.len(),
{
    if s.len() < 8 {
        assert(s + t =~= parse(s).rest + t);
        assert(parse(s).msgs + parse(parse(s).rest + t).msgs =~= parse(parse(s).rest + t).msgs);
    } else {
        let sz = frame_size(s);
        assert((s + t)[6] == s[6] && (s + t)[7] == s[7]);
        assert(frame_size(s + t) == sz);
        if s.len() < sz {
            assert(s + t =~= parse(s).rest + t);
            assert(parse(s).msgs + parse(parse(s).rest + t).msgs =~= parse(
                parse(s).rest + t,
            ).msgs);
        } else {
            assert((s + t).len() >= sz);
            assert((s + t).take(sz) =~= s.take(sz));
            assert((s + t).skip(sz) =~= s.skip(sz) + t);
            lemma_parse_extend(s.skip(sz), t);
            assert(parse(s).rest == parse(s.skip(sz)).rest);
            assert(parse(s + t).msgs =~= parse(s).msgs + parse(parse(s).rest + t).msgs);
        }
    }
}

/// Restartability across partial messages: feeding a stream in two chunks,
/// split at any byte boundary, extracts the same messages in the same
/// order, leaves the same remainder, and reaches the same verdict as
/// feeding it in one piece.
pub proof fn lemma_feed_restartable(buf: Seq<u8>, b1: Seq<u8>, b2: Seq<u8>)
    requires
        !parse(buf + b1).malformed,
    ensures
        parse(buf + b1).msgs + parse(parse(buf + b1).rest + b2).msgs == parse(
            buf + (b1 + b2),
        ).msgs,
        parse(parse(buf + b1).rest + b2).rest == parse(buf + (b1 + b2)).rest,
        parse(parse(buf + b1).rest + b2).malformed == parse(buf + (b1 + b2)).malformed,
{
    lemma_parse_extend(buf + b1, b2);
    assert((buf + b1) + b2 =~= buf + (b1 + b2));
}

/// Copy a range of a byte vector.
fn copy_range(v: &Vec<u8>, from: usize, to: usize) -> (r: Vec<u8>)
    requires
        from <= to <= v@.len(),
    ensures
        r@ == v@.subrange(from as int, to as int),
{
    let mut r: Vec<u8> = Vec::new();
    let mut k: usize = from;
    while k < to
        invariant
            from <= k <= to <= v@.len(),
            r@ == v@.subrange(from as int, k as int),
        decreases to - k,
    {
        r.push(v[k]);
        proof {
            assert(r@ =~= v@.subrange(from as int, k as int + 1));
        }
        k += 1;
    }
    r
}

/// Copy everything from an index to the end of a byte vector.
pub fn copy_tail(v: &Vec<u8>, from: usize) -> (r: Vec<u8>)
    requires
        from <= v@.len(),
    ensures
        r@ == v@.skip(from as int),
{
    let r = copy_range(v, from, v.len());
    proof {
        assert(v@.subrange(from as int, v@.len() as int) =~= v@.skip(from as int));
    }
    r
}

/// Read a little-endian thirty-two-bit quantity out of a body.
pub fn read_u32_at(b: &Vec<u8>, at: usize) -> (r: u32)
    requires
        at + 4 <= b@.len(),
    ensures
        r as int == le32(b@[at as int], b@[at as int + 1], b@[at as int + 2], b@[at as int + 3]),
{
    // ties the view's length to the vector's usize length, bounding `at`
    let total = b.len();
    (b[at] as u32) + 256 * ((b[at + 1] as u32) + 256 * ((b[at + 2] as u32) + 256 * (b[at + 3]
        as u32)))
}

/// Read a little-endian sixty-four-bit quantity out of a body, as two
/// thirty-two-bit halves.
pub fn read_u64_at(b: &Vec<u8>, at: usize) -> (r: u64)
    requires
        at + 8 <= b@.len(),
    ensures
        r as int == le32(b@[at as int], b@[at as int + 1], b@[at as int + 2], b@[at as int + 3])
            + 0x1_0000_0000 * le32(
            b@[at as int + 4],
            b@[at as int + 5],
            b@[at as int + 6],
            b@[at as int + 7],
        ),
{
    // ties the view's length to the vector's usize length, bounding `at`
    let total = b.len();
    let lo = read_u32_at(b, at);
    let hi = read_u32_at(b, at + 4);
    (lo as u64) + 0x1_0000_0000u64 * (hi as u64)
}

/// What one call to `feed` produced: the complete messages extracted, and
/// whether the stream turned out malformed (a fatal protocol error for the
/// connection; the messages before the bad header are still trustworthy).
pub struct FeedOutcome {
    pub messages: Vec<Message>,
    pub malformed: bool,
}

/// One connection's inbound half: the bytes read so far that do not yet
/// form a complete message.
pub struct Dispatcher {
    pub buf: Vec<u8>,
}

impl Dispatcher {
    /// A fresh connection with nothing buffered.
    pub fn new() -> (r: Dispatcher)
        ensures
            r.buf@ =~= Seq::<u8>::empty(),
    {
        Dispatcher { buf: Vec::new() }
    }

    /// Accumulate bytes and extract every complete message, in arrival
    /// order. Exactly the extraction `parse` describes, applied to the
    /// buffered remainder followed by the new bytes; the new remainder
    /// stays buffered for the next call.
    pub fn feed(&mut self, bytes: &[u8]) -> (r: FeedOutcome)
        ensures
            ({
                let c = old(self).buf@ + bytes@;
                &&& r.messages@.map_values(|m: Message| m@) == parse(c).msgs
                &&& final(self).buf@ == parse(c).rest
                &&& r.malformed == parse(c).malformed
            }),
    {
        let ghost c = self.buf@ + bytes@;
        let mut k: usize = 0;
        while k < bytes.len()
            invariant
                k <= bytes@.len(),
                self.buf@ == old(self).buf@ + bytes@.take(k as int),
            decreases bytes@.len() - k,
        {
            self.buf.push(bytes[k]);
            proof {
                assert(self.buf@ =~= old(self).buf@ + bytes@.take(k as int + 1));
            }
            k += 1;
        }
        proof {
            assert(self.buf@ =~= c);
        }
        let mut out: Vec<Message> = Vec::new();
        loop
            invariant
                c == old(self).buf@ + bytes@,
                parse(c).msgs == out@.map_values(|m: Message| m@) + parse(self.buf@).msgs,
                parse(c).rest == parse(self.buf@).rest,
                parse(c).malformed == parse(self.buf@).malformed,
            decreases self.buf@.len(),
        {
            if self.buf.len() < 8 {
                proof {
                    assert(parse(self.buf@).msgs =~= Seq::<MessageView>::empty());
                    assert(out@.map_values(|m: Message| m@) + parse(self.buf@).msgs =~= out@.map_values(
                        |m: Message| m@,
                    ));
                }
                return FeedOutcome { messages: out, malformed: false };
            }
            let size_raw: u16 = (self.buf[6] as u16) + 256 * (self.buf[7] as u16);
            if size_raw < MIN_FRAME {
                proof {
                    assert(out@.map_values(|m: Message| m@) + parse(self.buf@).msgs =~= out@.map_values(
                        |m: Message| m@,
                    ));
                }
                return FeedOutcome { messages: out, malformed: true };
            }
            let size = size_raw as usize;
            if self.buf.len() < size {
                proof {
                    assert(out@.map_values(|m: Message| m@) + parse(self.buf@).msgs =~= out@.map_values(
                        |m: Message| m@,
                    ));
                }
                return FeedOutcome { messages: out, malformed: false };
            }
            let ghost prev = self.buf@;
            let object_id: u32 = (self.buf[0] as u32) + 256 * ((self.buf[1] as u32) + 256 * ((
            self.buf[2] as u32) + 256 * (self.buf[3] as u32)));
            let opcode: u16 = (self.buf[4] as u16) + 256 * (self.buf[5] as u16);
            let body = copy_range(&self.buf, 8, size);
            let msg = Message { object_id, opcode, body };
            proof {
                assert(prev.take(size as int).skip(8) =~= prev.subrange(8, size as int));
                assert(prev.take(size as int)[6] == prev[6] && prev.take(size as int)[7]
                    == prev[7]);
                assert(prev.take(size as int)[0] == prev[0] && prev.take(size as int)[1] == prev[1]
                    && prev.take(size as int)[2] == prev[2] && prev.take(size as int)[3]
                    == prev[3]);
                assert(msg@ == msg_of(prev.take(size as int)));
            }
            let rest = copy_range(&self.buf, size, self.buf.len());
            self.buf = rest;
            let ghost outv = out@;
            out.push(msg);
            proof {
                assert(self.buf@ =~= prev.skip(size as int));
                assert(out@.map_values(|m: Message| m@) =~= outv.map_values(|m: Message| m@).push(
                    msg@,
                ));
                assert(parse(prev).msgs == seq![msg_of(prev.take(size as int))] + parse(
                    prev.skip(size as int),
                ).msgs);
                assert(outv.map_values(|m: Message| m@) + parse(prev).msgs =~= out@.map_values(
                    |m: Message| m@,
                ) + parse(self.buf@).msgs);
            }
        }
    }
}

/// An outbound event for a client, queued until its connection can take a
/// non-blocking write.
#[derive(Clone, Copy, Debug)]
pub enum Event {
    /// A create request succeeded; here is the identifier, valid in the
    /// receiving client's own namespace.
    ObjectCreated { id: u32 },
    /// A request was rejected without harming the connection; the code is
    /// the error's discriminating number.
    RequestFailed { code: u32 },
    /// A buffer the client submitted has been released by the server.
    BufferReleased { id: u32 },
}

/// The four little-endian bytes of a thirty-two-bit quantity.
pub open spec fn u32_le_bytes(x: u32) -> Seq<u8> {
    seq![
        (x % 256) as u8,
        ((x / 256) % 256) as u8,
        ((x / 65536) % 256) as u8,
        ((x / 16777216) % 256) as u8,
    ]
}

impl Event {
    /// Opcode on the wire.
    pub open spec fn spec_opcode(self) -> u8 {
        match self {
            Event::ObjectCreated { .. } => 0,
            Event::RequestFailed { .. } => 1,
            Event::BufferReleased { .. } => 2,
        }
    }

    /// The event's one argument.
    pub open spec fn spec_arg(self) -> u32 {
        match self {
            Event::ObjectCreated { id } => id,
            Event::RequestFailed { code } => code,
            Event::BufferReleased { id } => id,
        }
    }

    /// An event's frame: addressed from the display object (identifier 0),
    /// twelve bytes in all, one argument word.
    pub open spec fn spec_encode(self) -> Seq<u8> {
        seq![0u8, 0u8, 0u8, 0u8, self.spec_opcode(), 0u8, 12u8, 0u8] + u32_le_bytes(
            self.spec_arg(),
        )
    }

    /// Encode the event for the wire, exactly as `spec_encode` lays it out.
    pub fn encode(self) -> (r: Vec<u8>)
        ensures
            r@ == self.spec_encode(),
    {
        let opcode: u8 = match self {
            Event::ObjectCreated { .. } => 0,
            Event::RequestFailed { .. } => 1,
            Event::BufferReleased { .. } => 2,
        };
        let arg: u32 = match self {
            Event::ObjectCreated { id } => id,
            Event::RequestFailed { code } => code,
            Event::BufferReleased { id } => id,
        };
        let mut r: Vec<u8> = Vec::new();
        r.push(0);
        r.push(0);
        r.push(0);
        r.push(0);
        r.push(opcode);
        r.push(0);
        r.push(12);
        r.push(0);
        r.push((arg % 256) as u8);
        r.push(((arg / 256) % 256) as u8);
        r.push(((arg / 65536) % 256) as u8);
        r.push(((arg / 16777216) % 256) as u8);
        proof {
            assert(r@ =~= self.spec_encode());
        }
        r
    }
}

/// Every encoded event is a single well-formed frame: fed back through the
/// extraction spec it yields exactly one message, addressed from the
/// display object, with the event's opcode and argument bytes, and leaves
/// nothing behind.
pub proof fn lemma_event_frames_parse(ev: Event)
    ensures
        ({
            let out = parse(ev.spec_encode());
            &&& !out.malformed
            &&& out.rest == Seq::<u8>::empty()
            &&& out.msgs.len() == 1
            &&& out.msgs[0].object_id == 0
            &&& out.msgs[0].opcode == ev.spec_opcode() as u16
            &&& out.msgs[0].body == u32_le_bytes(ev.spec_arg())
        }),
{
    let s = ev.spec_encode();
    assert(s.len() == 12);
    assert(s[6] == 12u8 && s[7] == 0u8);
    assert(frame_size(s) == 12);
    assert(s.take(12) =~= s);
    assert(s.skip(12) =~= Seq::<u8>::empty());
    assert(parse(s.skip(12)).msgs =~= Seq::<MessageView>::empty());
    assert(parse(s).msgs =~= seq![msg_of(s)]);
    assert(s[0] == 0u8 && s[1] == 0u8 && s[2] == 0u8 && s[3] == 0u8);
    assert(frame_object(s) == 0);
    assert(s[4] == ev.spec_opcode() && s[5] == 0u8);
    assert(frame_opcode(s) == ev.spec_opcode());
    assert(msg_of(s).body =~= u32_le_bytes(ev.spec_arg()));
}

} // verus!
