//! The server facade: the one aggregate of state threaded through every
//! event-loop callback.
//!
//! It composes the client registry, the reactor's source table, the
//! protocol object table, the pool manager, and one connection record
//! (inbound framing buffer plus outbound queue) per client. Everything a
//! request can do to this state is decided here; the event loop outside
//! only reads sockets, hands bytes in, and performs the returned
//! notifications (rendering callbacks, unmapping) and queued writes.

use vstd::prelude::*;

use crate::errors::ProtocolError;
use crate::objects::{ObjectKind, ObjectTable};
use crate::outbound::OutboundQueue;
use crate::reactor::SourceTable;
use crate::registry::ClientRegistry;
use crate::shm::{BufferGeometry, PixelFormat, PoolManager};
use crate::wire::{read_u32_at, read_u64_at, Dispatcher, Event, Message};

verus! {

/// Fixed ceilings, chosen once at startup.
#[derive(Clone, Copy, Debug)]
pub struct ServerConfig {
    pub max_clients: usize,
    pub max_pool_len: u64,
    pub outbound_ceiling: usize,
}

/// One client's connection state: the inbound bytes not yet forming a
/// message, and the outbound frames not yet written.
pub struct Connection {
    pub client: u64,
    pub inbound: Dispatcher,
    pub outbound: OutboundQueue,
}

/// What the core asks its collaborators to do after handling requests.
/// None of these may re-enter the dispatcher.
#[derive(Clone, Copy, Debug)]
pub enum Notification {
    /// A surface commit: the pending attachment (if any) is ready for the
    /// rendering collaborator.
    SurfaceCommitted { client: u64, surface: u32, buffer: Option<u32> },
    /// A surface was destroyed; the rendering collaborator may drop its
    /// state for it.
    SurfaceDestroyed { client: u64, surface: u32 },
    /// A buffer was destroyed and its pool reference released.
    BufferDestroyed { client: u64, id: u32 },
    /// A pool's last reference is gone and its mapping may be unmapped.
    PoolReleased { pool: u64 },
}

/// A little-endian word of a message body.
pub open spec fn body_u32(b: Seq<u8>, at: int) -> int {
    crate::wire::le32(b[at], b[at + 1], b[at + 2], b[at + 3])
}

/// A little-endian double word of a message body.
pub open spec fn body_u64(b: Seq<u8>, at: int) -> int {
    body_u32(b, at) + 0x1_0000_0000 * body_u32(b, at + 4)
}

/// The pixel format a wire word denotes, if any.
pub open spec fn format_of(w: int) -> Option<PixelFormat> {
    if w == 0 {
        Some(PixelFormat::Argb8888)
    } else if w == 1 {
        Some(PixelFormat::Xrgb8888)
    } else if w == 2 {
        Some(PixelFormat::Rgb565)
    } else {
        None
    }
}

/// The geometry a carve request's body denotes (meaningful when the body is
/// twenty-four bytes and the format word is known).
pub open spec fn carve_geometry(b: Seq<u8>) -> BufferGeometry {
    BufferGeometry {
        offset: body_u64(b, 0) as u64,
        width: body_u32(b, 8) as u32,
        height: body_u32(b, 12) as u32,
        stride: body_u32(b, 16) as u32,
        format: format_of(body_u32(b, 20))->Some_0,
    }
}

/// What never changes when one message is applied: the client registry,
/// the source table and the connection records are the dispatcher's and the
/// lifecycle's business, not a request handler's.
pub open spec fn step_frame(pre: Server, post: Server) -> bool {
    &&& post.registry == pre.registry
    &&& post.sources == pre.sources
    &&& post.conns == pre.conns
    &&& post.outbound_ceiling == pre.outbound_ceiling
}

/// Effect of a successful pool creation: the pool record appended under the
/// next pool identifier and the pool object stored in the client's
/// namespace.
pub open spec fn created_pool(
    pre: Server,
    post: Server,
    client: u64,
    id: u32,
    fd: i32,
    length: u64,
) -> bool {
    let pool = pre.pools.next_id;
    &&& !pre.objects.owns(client, id)
    &&& post.objects.entries@ == pre.objects.entries@.push(
        (crate::objects::ObjectEntry { client, id, kind: ObjectKind::ShmPool { pool } }),
    )
    &&& post.pools.has_pool(pool)
    &&& post.pools.pool_of(pool).owner == client
    &&& post.pools.pool_of(pool).length == length
    &&& post.pools.pool_of(pool).fd == fd
    &&& post.pools.pool_of(pool).buffers@.len() == 0
    &&& post.pools.pools@.len() == pre.pools.pools@.len() + 1
    &&& post.pools.pools@.subrange(0, pre.pools.pools@.len() as int) == pre.pools.pools@
}

/// The reply code a rejected pool creation carries.
pub open spec fn pool_reject_code(pre: Server, client: u64, fd: i32, length: u64) -> u32 {
    if pre.objects.owns(client, u32::MAX) {
        ProtocolError::TooManyObjects.spec_wire_code()
    } else if fd < 0 || length == 0 {
        ProtocolError::MapFailed.spec_wire_code()
    } else if length > pre.pools.max_len {
        ProtocolError::TooLarge.spec_wire_code()
    } else {
        ProtocolError::TooManyObjects.spec_wire_code()
    }
}

/// Effect of a successful surface creation.
pub open spec fn created_surface(pre: Server, post: Server, client: u64, id: u32) -> bool {
    &&& !pre.objects.owns(client, id)
    &&& post.objects.entries@ == pre.objects.entries@.push(
        (crate::objects::ObjectEntry {
            client,
            id,
            kind: ObjectKind::Surface { pending_buffer: None, current_buffer: None },
        }),
    )
    &&& post.pools == pre.pools
}

/// Effect of a successful carve: the buffer object stored in the client's
/// namespace and the buffer recorded in its pool, everything else as it
/// was.
pub open spec fn carved_buffer(
    pre: Server,
    post: Server,
    client: u64,
    pool: u64,
    id: u32,
    g: BufferGeometry,
) -> bool {
    let i = pre.pools.idx_of(pool);
    &&& !pre.objects.owns(client, id)
    &&& post.objects.entries@ == pre.objects.entries@.push(
        (crate::objects::ObjectEntry { client, id, kind: ObjectKind::Buffer { pool } }),
    )
    &&& post.pools.pools@.len() == pre.pools.pools@.len()
    &&& post.pools.pools@[i].buffers@ == pre.pools.pools@[i].buffers@.push(
        (crate::shm::BufferRec { id, geometry: g }),
    )
    &&& post.pools.pools@[i].length == pre.pools.pools@[i].length
    &&& (forall|j: int|
        0 <= j < pre.pools.pools@.len() && j != i ==> post.pools.pools@[j] == pre.pools.pools@[j])
}

/// One step of the dispatcher: what applying one framed message from a
/// client does to the server. `fatal` means the message was malformed,
/// misaddressed, of the wrong kind or opcode for its target, or carried an
/// illegal geometry: the state is untouched and the connection is to be
/// torn down. Otherwise the message's one operation is applied exactly and
/// `reply`/`notes` carry what goes back to the client and to the
/// collaborators.
pub open spec fn msg_step(
    pre: Server,
    client: u64,
    m: crate::wire::MessageView,
    pool_fd: i32,
    post: Server,
    notes: Seq<Notification>,
    reply: Option<Event>,
    fatal: bool,
) -> bool {
    &&& step_frame(pre, post)
    &&& (fatal ==> post == pre && notes.len() == 0)
    &&& if m.object_id == 0 {
        display_step(pre, client, m, pool_fd, post, notes, reply, fatal)
    } else if !pre.objects.owns(client, m.object_id) {
        fatal
    } else {
        match pre.objects.kind_of(client, m.object_id) {
            ObjectKind::Surface { .. } => surface_step(pre, client, m, post, notes, reply, fatal),
            ObjectKind::ShmPool { .. } => pool_step(pre, client, m, post, notes, reply, fatal),
            ObjectKind::Buffer { .. } => buffer_step(pre, client, m, post, notes, reply, fatal),
        }
    }
}

/// Steps addressed to the display object: create a pool or a surface.
pub open spec fn display_step(
    pre: Server,
    client: u64,
    m: crate::wire::MessageView,
    pool_fd: i32,
    post: Server,
    notes: Seq<Notification>,
    reply: Option<Event>,
    fatal: bool,
) -> bool {
    if m.opcode == 0 {
        if m.body.len() != 8 {
            fatal
        } else {
            let length = body_u64(m.body, 0) as u64;
            if !pre.objects.owns(client, u32::MAX) && pool_fd >= 0 && length > 0 && length
                <= pre.pools.max_len && pre.pools.next_id < u64::MAX {
                &&& !fatal
                &&& notes.len() == 0
                &&& (exists|id: u32|
                    reply == Some(Event::ObjectCreated { id }) && created_pool(
                        pre,
                        post,
                        client,
                        id,
                        pool_fd,
                        length,
                    ))
            } else {
                &&& !fatal
                &&& post == pre
                &&& notes.len() == 0
                &&& reply == Some(
                    (Event::RequestFailed { code: pool_reject_code(pre, client, pool_fd, length) }),
                )
            }
        }
    } else if m.opcode == 1 {
        if m.body.len() != 0 {
            fatal
        } else if pre.objects.owns(client, u32::MAX) {
            &&& !fatal
            &&& post == pre
            &&& notes.len() == 0
            &&& reply == Some(
                (Event::RequestFailed { code: ProtocolError::TooManyObjects.spec_wire_code() }),
            )
        } else {
            &&& !fatal
            &&& notes.len() == 0
            &&& (exists|id: u32|
                reply == Some(Event::ObjectCreated { id }) && created_surface(
                    pre,
                    post,
                    client,
                    id,
                ))
        }
    } else {
        fatal
    }
}

/// Steps addressed to a surface the client owns: attach, commit, destroy.
pub open spec fn surface_step(
    pre: Server,
    client: u64,
    m: crate::wire::MessageView,
    post: Server,
    notes: Seq<Notification>,
    reply: Option<Event>,
    fatal: bool,
) -> bool {
    let oid = m.object_id;
    let kind = pre.objects.kind_of(client, oid);
    let i = pre.objects.idx_of(client, oid);
    if m.opcode == 0 {
        if m.body.len() != 4 {
            fatal
        } else {
            let w = body_u32(m.body, 0) as u32;
            let buffer = if w == 0 {
                Option::<u32>::None
            } else {
                Some(w)
            };
            if buffer matches Some(b) && !(pre.objects.spec_resolve(client, b) matches Ok(
                ObjectKind::Buffer { .. },
            )) {
                fatal
            } else {
                &&& !fatal
                &&& reply is None
                &&& notes.len() == 0
                &&& post.objects.entries@ == pre.objects.entries@.update(
                    i,
                    (crate::objects::ObjectEntry {
                        client,
                        id: oid,
                        kind: ObjectKind::Surface {
                            pending_buffer: buffer,
                            current_buffer: kind->Surface_current_buffer,
                        },
                    }),
                )
                &&& post.pools == pre.pools
            }
        }
    } else if m.opcode == 1 {
        if m.body.len() != 0 {
            fatal
        } else {
            let ready = kind->Surface_pending_buffer;
            &&& !fatal
            &&& reply is None
            &&& notes == seq![
                (Notification::SurfaceCommitted { client, surface: oid, buffer: ready }),
            ]
            &&& post.objects.entries@ == pre.objects.entries@.update(
                i,
                (crate::objects::ObjectEntry {
                    client,
                    id: oid,
                    kind: ObjectKind::Surface { pending_buffer: ready, current_buffer: ready },
                }),
            )
            &&& post.pools == pre.pools
        }
    } else if m.opcode == 2 {
        if m.body.len() != 0 {
            fatal
        } else {
            &&& !fatal
            &&& reply is None
            &&& notes == seq![(Notification::SurfaceDestroyed { client, surface: oid })]
            &&& post.objects.entries@ == pre.objects.entries@.remove(i)
            &&& post.pools == pre.pools
        }
    } else {
        fatal
    }
}

/// Steps addressed to a pool object the client owns: carve, resize,
/// destroy.
pub open spec fn pool_step(
    pre: Server,
    client: u64,
    m: crate::wire::MessageView,
    post: Server,
    notes: Seq<Notification>,
    reply: Option<Event>,
    fatal: bool,
) -> bool {
    let oid = m.object_id;
    let pool = pre.objects.kind_of(client, oid)->ShmPool_pool;
    if m.opcode == 0 {
        if m.body.len() != 24 || format_of(body_u32(m.body, 20)) is None {
            fatal
        } else {
            let g = carve_geometry(m.body);
            if pre.objects.owns(client, u32::MAX) {
                &&& !fatal
                &&& post == pre
                &&& notes.len() == 0
                &&& reply == Some(
                    (Event::RequestFailed {
                        code: ProtocolError::TooManyObjects.spec_wire_code(),
                    }),
                )
            } else if !pre.pools.has_pool(pool) || !crate::shm::geometry_fits(
                g,
                pre.pools.pool_of(pool).length,
            ) {
                fatal
            } else {
                &&& notes.len() == 0
                &&& (fatal || (exists|id: u32|
                    reply == Some(Event::ObjectCreated { id }) && #[trigger] carved_buffer(
                        pre,
                        post,
                        client,
                        pool,
                        id,
                        g,
                    )))
            }
        }
    } else if m.opcode == 1 {
        if m.body.len() != 8 {
            fatal
        } else {
            let new_length = body_u64(m.body, 0) as u64;
            if !pre.pools.has_pool(pool) {
                fatal
            } else if new_length == 0 {
                &&& !fatal
                &&& post == pre
                &&& notes.len() == 0
                &&& reply == Some(
                    (Event::RequestFailed { code: ProtocolError::MapFailed.spec_wire_code() }),
                )
            } else if new_length > pre.pools.max_len {
                &&& !fatal
                &&& post == pre
                &&& notes.len() == 0
                &&& reply == Some(
                    (Event::RequestFailed { code: ProtocolError::TooLarge.spec_wire_code() }),
                )
            } else if exists|k: int|
                0 <= k < pre.pools.pool_of(pool).buffers@.len() && !crate::shm::geometry_fits(
                    (#[trigger] pre.pools.pool_of(pool).buffers@[k]).geometry,
                    new_length,
                ) {
                fatal
            } else {
                &&& !fatal
                &&& reply is None
                &&& notes.len() == 0
                &&& post.objects == pre.objects
                &&& post.pools.pools@ == pre.pools.pools@.update(
                    pre.pools.idx_of(pool),
                    (crate::shm::Pool {
                        length: new_length,
                        ..pre.pools.pools@[pre.pools.idx_of(pool)]
                    }),
                )
            }
        }
    } else if m.opcode == 2 {
        if m.body.len() != 0 {
            fatal
        } else {
            &&& !fatal
            &&& reply is None
            &&& post.objects.entries@ == pre.objects.entries@.remove(
                pre.objects.idx_of(client, oid),
            )
            &&& (pre.pools.has_pool(pool) && pre.pools.pool_of(pool).live_buffers() == 0
                ==> post.pools.pools@ == pre.pools.pools@.remove(pre.pools.idx_of(pool)) && notes
                == seq![(Notification::PoolReleased { pool })])
            &&& (pre.pools.has_pool(pool) && pre.pools.pool_of(pool).live_buffers() > 0
                ==> post.pools.pools@ == pre.pools.pools@.update(
                pre.pools.idx_of(pool),
                (crate::shm::Pool { pending_destroy: true, ..pre.pools.pool_of(pool) }),
            ) && notes.len() == 0)
            &&& (!pre.pools.has_pool(pool) ==> post.pools == pre.pools && notes.len() == 0)
        }
    } else {
        fatal
    }
}

/// Steps addressed to a buffer object the client owns: destroy.
pub open spec fn buffer_step(
    pre: Server,
    client: u64,
    m: crate::wire::MessageView,
    post: Server,
    notes: Seq<Notification>,
    reply: Option<Event>,
    fatal: bool,
) -> bool {
    let oid = m.object_id;
    let pool = pre.objects.kind_of(client, oid)->Buffer_pool;
    if m.opcode == 0 {
        if m.body.len() != 0 {
            fatal
        } else {
            let p = pre.pools.pool_of(pool);
            &&& !fatal
            &&& reply is None
            &&& notes.len() >= 1
            &&& notes[0] == (Notification::BufferDestroyed { client, id: oid })
            &&& post.objects.entries@ == pre.objects.entries@.remove(
                pre.objects.idx_of(client, oid),
            )
            &&& (pre.pools.has_pool(pool) && p.has_buffer(oid) ==> ({
                &&& ((p.pending_destroy && p.live_buffers() == 1) ==> post.pools.pools@
                    == pre.pools.pools@.remove(pre.pools.idx_of(pool)) && notes == seq![
                    (Notification::BufferDestroyed { client, id: oid }),
                    (Notification::PoolReleased { pool }),
                ])
                &&& (!(p.pending_destroy && p.live_buffers() == 1) ==> notes.len() == 1)
            }))
            &&& (!(pre.pools.has_pool(pool) && p.has_buffer(oid)) ==> post.pools == pre.pools
                && notes.len() == 1)
        }
    } else {
        fatal
    }
}

/// Marks one intermediate point of a fold: the queue contents and the
/// notifications gathered so far. Carries no meaning of its own; it names
/// the instantiation the fold's existential is proved with.
pub open spec fn fold_point(qmid: Seq<Vec<u8>>, n1: Seq<Notification>) -> bool {
    true
}

/// The fold of `msg_step` over a sequence of messages, threading the
/// client's outbound queue: each message is applied in arrival order; a
/// reply is queued while the queue is below the server's ceiling and
/// overflows it fatally otherwise; a fatal step is the last, and leaves the
/// state exactly as the previous step did.
pub open spec fn run_steps(
    pre: Server,
    q0: Seq<Vec<u8>>,
    client: u64,
    msgs: Seq<crate::wire::MessageView>,
    pool_fd: i32,
    post: Server,
    q1: Seq<Vec<u8>>,
    notes: Seq<Notification>,
    fatal: bool,
) -> bool
    decreases msgs.len(),
{
    if msgs.len() == 0 {
        post == pre && q1 == q0 && notes.len() == 0 && !fatal
    } else {
        exists|mid: Server, qmid: Seq<Vec<u8>>, n1: Seq<Notification>, n2: Seq<
            Notification,
        >, reply: Option<Event>, f: bool|
            {
                &&& #[trigger] fold_point(qmid, n1)
                &&& run_steps(pre, q0, client, msgs.drop_last(), pool_fd, mid, qmid, n1, false)
                &&& #[trigger] msg_step(mid, client, msgs.last(), pool_fd, post, n2, reply, f)
                &&& if f {
                    fatal && q1 == qmid && notes == n1
                } else {
                    match reply {
                        None => !fatal && q1 == qmid && notes == n1 + n2,
                        Some(ev) => if qmid.len() < pre.outbound_ceiling {
                            &&& !fatal
                            &&& notes == n1 + n2
                            &&& q1.len() == qmid.len() + 1
                            &&& q1.subrange(0, qmid.len() as int) == qmid
                            &&& q1.last()@ == ev.spec_encode()
                        } else {
                            fatal && q1 == qmid && notes == n1 + n2
                        },
                    }
                }
            }
    }
}

/// Extending a fold by one step: from a non-fatal prefix and one further
/// `msg_step`, with the reply queued or refused by the ceiling, the whole
/// sequence folds.
proof fn lemma_run_steps_extend(
    pre: Server,
    q0: Seq<Vec<u8>>,
    client: u64,
    msgs: Seq<crate::wire::MessageView>,
    pool_fd: i32,
    mid: Server,
    qmid: Seq<Vec<u8>>,
    n1: Seq<Notification>,
    post: Server,
    q1: Seq<Vec<u8>>,
    n2: Seq<Notification>,
    reply: Option<Event>,
    f: bool,
    fatal: bool,
)
    requires
        msgs.len() > 0,
        run_steps(pre, q0, client, msgs.drop_last(), pool_fd, mid, qmid, n1, false),
        msg_step(mid, client, msgs.last(), pool_fd, post, n2, reply, f),
        f ==> fatal && q1 == qmid,
        !f && reply is None ==> !fatal && q1 == qmid,
        !f ==> (match reply {
            None => true,
            Some(ev) => if qmid.len() < pre.outbound_ceiling {
                &&& !fatal
                &&& q1.len() == qmid.len() + 1
                &&& q1.subrange(0, qmid.len() as int) == qmid
                &&& q1.last()@ == ev.spec_encode()
            } else {
                fatal && q1 == qmid
            },
        }),
    ensures
        run_steps(
            pre,
            q0,
            client,
            msgs,
            pool_fd,
            post,
            q1,
            if f {
                n1
            } else {
                n1 + n2
            },
            fatal,
        ),
{
    assert(msgs.len() != 0);
    assert(fold_point(qmid, n1));
    if f {
        assert(run_steps(pre, q0, client, msgs, pool_fd, post, q1, n1, fatal));
    } else {
        assert(run_steps(pre, q0, client, msgs, pool_fd, post, q1, n1 + n2, fatal));
    }
}

/// The whole server.
pub struct Server {
    pub registry: ClientRegistry,
    pub sources: SourceTable,
    pub objects: ObjectTable,
    pub pools: PoolManager,
    pub conns: Vec<Connection>,
    pub outbound_ceiling: usize,
}

impl Server {
    /// Every component is internally consistent; connections belong to
    /// live clients, one each; objects and pools belong to live clients.
    pub open spec fn wf(self) -> bool {
        &&& self.registry.wf()
        &&& self.sources.wf()
        &&& self.objects.wf()
        &&& self.pools.wf()
        &&& forall|i: int, j: int|
            0 <= i < j < self.conns@.len() ==> self.conns@[i].client != self.conns@[j].client
        &&& forall|i: int|
            0 <= i < self.conns@.len() ==> self.registry.is_live(
                (#[trigger] self.conns@[i]).client,
            )
        &&& forall|i: int|
            0 <= i < self.conns@.len() ==> (#[trigger] self.conns@[i]).outbound.wf()
                && self.conns@[i].outbound.ceiling == self.outbound_ceiling
        &&& forall|i: int|
            0 <= i < self.objects.entries@.len() ==> self.registry.is_live(
                (#[trigger] self.objects.entries@[i]).client,
            )
        &&& forall|i: int|
            0 <= i < self.pools.pools@.len() ==> self.registry.is_live(
                (#[trigger] self.pools.pools@[i]).owner,
            )
    }

    /// Whether a connection record exists for this client.
    pub open spec fn has_conn(self, client: u64) -> bool {
        exists|i: int| 0 <= i < self.conns@.len() && self.conns@[i].client == client
    }

    /// Index of that connection (meaningful only when `has_conn` holds).
    pub open spec fn conn_idx(self, client: u64) -> int {
        choose|i: int| 0 <= i < self.conns@.len() && self.conns@[i].client == client
    }

    /// A fresh server with no clients.
    pub fn new(config: ServerConfig) -> (r: Server)
        ensures
            r.wf(),
            r.registry.clients@.len() == 0,
            r.registry.max_clients == config.max_clients,
            r.sources.sources@.len() == 0,
            r.objects.entries@.len() == 0,
            r.pools.pools@.len() == 0,
            r.pools.max_len == config.max_pool_len,
            r.conns@.len() == 0,
            r.outbound_ceiling == config.outbound_ceiling,
    {
        Server {
            registry: ClientRegistry::new(config.max_clients),
            sources: SourceTable::new(),
            objects: ObjectTable::new(),
            pools: PoolManager::new(config.max_pool_len),
            conns: Vec::new(),
            outbound_ceiling: config.outbound_ceiling,
        }
    }

    /// Register an event source that is not a client connection (the
    /// listening socket itself). Fails exactly on a duplicate handle.
    pub fn register_source(&mut self, source: u64) -> (r: Result<(), ProtocolError>)
        requires
            old(self).wf(),
        ensures
            final(self).wf(),
            r is Ok <==> !old(self).sources.registered(source),
            r is Err ==> r == Err::<(), ProtocolError>(ProtocolError::DuplicateSource) && *final(self) == *old(self),
            final(self).sources.registered(source),
            final(self).registry == old(self).registry,
            final(self).objects == old(self).objects,
            final(self).pools == old(self).pools,
            final(self).conns == old(self).conns,
    {
        let r = self.sources.register(source);
        r
    }

    /// Find the index of a client's connection record.
    fn find_conn(&self, client: u64) -> (r: Option<usize>)
        ensures
            match r {
                Some(i) => i < self.conns@.len() && self.conns@[i as int].client == client,
                None => !self.has_conn(client),
            },
    {
        let mut i: usize = 0;
        while i < self.conns.len()
            invariant
                i <= self.conns@.len(),
                forall|j: int| 0 <= j < i ==> self.conns@[j].client != client,
            decreases self.conns@.len() - i,
        {
            if self.conns[i].client == client {
                return Some(i);
            }
            i += 1;
        }
        None
    }

    /// Admit a connection: allocate a fresh client identifier, register the
    /// connection's event source, and attach empty per-client state. Fails
    /// only on resource exhaustion (`TooManyClients`) or a reused source
    /// handle (`DuplicateSource`), and then changes nothing.
    pub fn accept_client(&mut self, source: u64) -> (r: Result<u64, ProtocolError>)
        requires
            old(self).wf(),
        ensures
            final(self).wf(),
            r is Ok <==> (!old(self).sources.registered(source) && old(self).registry.clients@.len() < old(self).registry.max_clients && old(self).registry.next_id < u64::MAX),
            r matches Err(e) ==> *final(self) == *old(self) && (e == ProtocolError::DuplicateSource
                <==> old(self).sources.registered(source)),
            r matches Ok(id) ==> ({
                &&& id == old(self).registry.next_id
                &&& !old(self).registry.is_live(id)
                &&& final(self).registry.is_live(id)
                &&& final(self).registry.source_of(id) == source
                &&& final(self).sources.registered(source)
                &&& (forall|s: u64|
                    s != source ==> (final(self).sources.registered(s) <==> old(self).sources.registered(s)))
                &&& final(self).has_conn(id)
                &&& final(self).conns@.len() == old(self).conns@.len() + 1
                &&& final(self).conns@.subrange(0, old(self).conns@.len() as int) == old(self).conns@
                &&& final(self).conns@.last().client == id
                &&& final(self).conns@.last().inbound.buf@ == Seq::<u8>::empty()
                &&& final(self).conns@.last().outbound.msgs@.len() == 0
                &&& final(self).conns@.last().outbound.front_sent == 0
                &&& final(self).conns@.last().outbound.ceiling == old(self).outbound_ceiling
                &&& final(self).outbound_ceiling == old(self).outbound_ceiling
                &&& final(self).objects == old(self).objects
                &&& final(self).pools == old(self).pools
                &&& forall|c: u64|
                    c != id ==> (final(self).registry.is_live(c) <==> old(self).registry.is_live(
                        c,
                    ))
            }),
    {
        if self.sources.is_registered(source) {
            return Err(ProtocolError::DuplicateSource);
        }
        let id = match self.registry.accept(source) {
            Err(e) => {
                return Err(e);
            },
            Ok(id) => id,
        };
        let reg = self.sources.register(source);
        proof {
            assert(reg is Ok);
        }
        let conn = Connection {
            client: id,
            inbound: Dispatcher::new(),
            outbound: OutboundQueue::new(self.outbound_ceiling),
        };
        let ghost before_conns = self.conns@;
        self.conns.push(conn);
        proof {
            assert(self.conns@.subrange(0, before_conns.len() as int) =~= before_conns);
            let ghost srcs0 = old(self).sources.sources@;
            assert(self.sources.sources@ == srcs0.push(source));
            assert forall|s: u64|
                s != source implies (self.sources.registered(s) <==> old(
                self,
            ).sources.registered(s)) by {
                if srcs0.contains(s) {
                    let a = choose|a: int| 0 <= a < srcs0.len() && srcs0[a] == s;
                    assert(self.sources.sources@[a] == s);
                }
                if self.sources.sources@.contains(s) {
                    let a = choose|a: int|
                        0 <= a < self.sources.sources@.len() && self.sources.sources@[a] == s;
                    assert(a < srcs0.len());
                    assert(srcs0[a] == s);
                }
            }
            assert forall|c: u64| old(self).registry.is_live(c) implies self.registry.is_live(
                c,
            ) by {
                let a = choose|a: int|
                    0 <= a < old(self).registry.clients@.len() && old(self).registry.clients@[a].id
                        == c;
                assert(self.registry.clients@[a] == old(self).registry.clients@[a]);
                assert(self.registry.clients@[a].id == c);
            }
            assert forall|c: u64| c != id && self.registry.is_live(c) implies old(self).registry.is_live(c) by {
                let a = choose|a: int|
                    0 <= a < self.registry.clients@.len() && self.registry.clients@[a].id == c;
                assert(a < old(self).registry.clients@.len());
                assert(old(self).registry.clients@[a].id == c);
            }
            let n = (self.conns@.len() - 1) as int;
            assert(self.conns@[n].client == id);
            assert forall|i: int|
                0 <= i < self.conns@.len() implies self.registry.is_live(
                (#[trigger] self.conns@[i]).client,
            ) by {
                if i < n {
                    assert(self.conns@[i] == before_conns[i]);
                    assert(old(self).registry.is_live(before_conns[i].client));
                }
            }
            assert forall|i: int|
                0 <= i < self.objects.entries@.len() implies self.registry.is_live(
                (#[trigger] self.objects.entries@[i]).client,
            ) by {
                assert(old(self).registry.is_live(old(self).objects.entries@[i].client));
            }
            assert forall|i: int|
                0 <= i < self.pools.pools@.len() implies self.registry.is_live(
                (#[trigger] self.pools.pools@[i]).owner,
            ) by {
                assert(old(self).registry.is_live(old(self).pools.pools@[i].owner));
            }
        }
        Ok(id)
    }

    /// Disconnect a client: deregister its source, drop its connection
    /// state, and destroy — synchronously and atomically — every object
    /// and pool it owns, so that nothing of it can be reached afterwards.
    /// Idempotent: on a client that is already gone, nothing changes.
    pub fn disconnect(&mut self, client: u64) -> (had: bool)
        requires
            old(self).wf(),
        ensures
            final(self).wf(),
            had == old(self).registry.is_live(client),
            !had ==> *final(self) == *old(self),
            !final(self).registry.is_live(client),
            !final(self).has_conn(client),
            forall|c: u64|
                c != client ==> (final(self).registry.is_live(c) <==> old(self).registry.is_live(
                    c,
                )),
            forall|id: u32| !final(self).objects.owns(client, id),
            final(self).objects.entries@ == old(self).objects.entries@.filter(
                |e: crate::objects::ObjectEntry| e.client != client,
            ),
            final(self).pools.pools@ == old(self).pools.pools@.filter(
                |p: crate::shm::Pool| p.owner != client,
            ),
            had ==> !final(self).sources.registered(old(self).registry.source_of(client)),
            forall|s: u64|
                (!had || s != old(self).registry.source_of(client)) ==> (final(self).sources.registered(s) <==> old(self).sources.registered(s)),
            !old(self).has_conn(client) ==> final(self).conns == old(self).conns,
            old(self).has_conn(client) ==> final(self).conns@ == old(self).conns@.remove(
                old(self).conn_idx(client),
            ),
            forall|c: u64| c != client ==> (final(self).has_conn(c) <==> old(self).has_conn(c)),
            forall|c: u64|
                c != client && old(self).has_conn(c) ==> final(self).conns@[final(self).conn_idx(
                    c,
                )] == old(self).conns@[old(self).conn_idx(c)],
            final(self).outbound_ceiling == old(self).outbound_ceiling,
    {
        if !self.registry.contains(client) {
            proof {
                lemma_filter_identity_objects(self.objects.entries@, client);
                lemma_filter_identity_pools(self.pools.pools@, client);
                if self.has_conn(client) {
                    let k = self.conn_idx(client);
                    assert(self.registry.is_live(self.conns@[k].client));
                    assert(false);
                }
                assert(self.conns@ == old(self).conns@);
            }
            return false;
        }
        let source = self.registry.source(client);
        self.registry.remove(client);
        self.sources.deregister(source);
        self.objects.purge_client(client);
        self.pools.purge_client(client);
        proof {
            let ghost epred = |e: crate::objects::ObjectEntry| e.client != client;
            assert forall|k: int|
                0 <= k < self.objects.entries@.len() implies self.registry.is_live(
                (#[trigger] self.objects.entries@[k]).client,
            ) by {
                crate::objects::lemma_entries_filter_elem_from(
                    old(self).objects.entries@,
                    epred,
                    k,
                );
                let j = choose|j: int|
                    0 <= j < old(self).objects.entries@.len() && old(self).objects.entries@[j]
                        == old(self).objects.entries@.filter(epred)[k];
                assert(old(self).registry.is_live(old(self).objects.entries@[j].client));
                assert(self.objects.entries@[k].client != client);
            }
            let ghost ppred = |p: crate::shm::Pool| p.owner != client;
            assert forall|k: int|
                0 <= k < self.pools.pools@.len() implies self.registry.is_live(
                (#[trigger] self.pools.pools@[k]).owner,
            ) by {
                crate::shm::lemma_filter_elem_from(old(self).pools.pools@, ppred, k);
                let j = choose|j: int|
                    0 <= j < old(self).pools.pools@.len() && old(self).pools.pools@[j] == old(self).pools.pools@.filter(ppred)[k];
                assert(old(self).registry.is_live(old(self).pools.pools@[j].owner));
                assert(self.pools.pools@[k].owner != client);
            }
        }
        let ci = match self.find_conn(client) {
            None => {
                proof {
                    assert(self.conns@ == old(self).conns@);
                    assert forall|k: int|
                        0 <= k < self.conns@.len() implies self.registry.is_live(
                        (#[trigger] self.conns@[k]).client,
                    ) by {
                        assert(self.conns@[k] == old(self).conns@[k]);
                        assert(old(self).registry.is_live(old(self).conns@[k].client));
                        assert(self.conns@[k].client != client);
                    }
                }
                return true;
            },
            Some(ci) => ci,
        };
        let ghost before_conns = self.conns@;
        self.conns.remove(ci);
        proof {
            assert(forall|a: int|
                0 <= a < self.conns@.len() ==> self.conns@[a] == (if a < ci as int {
                    before_conns[a]
                } else {
                    before_conns[a + 1]
                }));
            assert forall|k: int|
                0 <= k < self.conns@.len() implies (#[trigger] self.conns@[k]).client != client
                    && self.registry.is_live(self.conns@[k].client) by {
                let a = (if k < ci as int {
                    k
                } else {
                    k + 1
                });
                assert(self.conns@[k] == before_conns[a]);
                assert(before_conns[a] == old(self).conns@[a]);
                if self.conns@[k].client == client {
                    assert(before_conns[a].client == client);
                    assert(before_conns[ci as int].client == client);
                    assert(false);
                }
                assert(old(self).registry.is_live(old(self).conns@[a].client));
            }
            old(self).lemma_conn_idx_unique(client, ci as int);
            assert(before_conns == old(self).conns@);
            assert forall|i: int, j: int|
                0 <= i < j < self.conns@.len() implies self.conns@[i].client
                != self.conns@[j].client by {
                let a1 = (if i < ci as int {
                    i
                } else {
                    i + 1
                });
                let a2 = (if j < ci as int {
                    j
                } else {
                    j + 1
                });
                assert(self.conns@[i] == old(self).conns@[a1]);
                assert(self.conns@[j] == old(self).conns@[a2]);
            }
            assert forall|c: u64| c != client && old(self).has_conn(c) implies self.has_conn(c)
                && self.conns@[self.conn_idx(c)] == old(self).conns@[old(self).conn_idx(c)] by {
                let a = old(self).conn_idx(c);
                assert(0 <= a < old(self).conns@.len() && old(self).conns@[a].client == c);
                old(self).lemma_conn_idx_unique(c, a);
                assert(a != ci as int);
                let b = (if a < ci as int {
                    a
                } else {
                    a - 1
                });
                assert(self.conns@[b] == old(self).conns@[a]);
                assert(self.conns@[b].client == c);
                self.lemma_conn_idx_unique(c, b);
            }
            assert forall|c: u64| c != client && self.has_conn(c) implies old(self).has_conn(
                c,
            ) by {
                let b = self.conn_idx(c);
                assert(0 <= b < self.conns@.len() && self.conns@[b].client == c);
                let a = (if b < ci as int {
                    b
                } else {
                    b + 1
                });
                assert(old(self).conns@[a] == self.conns@[b]);
            }
        }
        true
    }

    /// After an operation that only grew or rewrote this client's rows,
    /// every object and pool owner is still live.
    proof fn lemma_owners_still_live(before: &Server, after: &Server, client: u64)
        requires
            before.wf(),
            after.registry == before.registry,
            before.registry.is_live(client),
            after.pools.pools@ == before.pools.pools@ || (after.pools.pools@.len()
                == before.pools.pools@.len() && forall|i: int|
                0 <= i < after.pools.pools@.len() ==> (#[trigger] after.pools.pools@[i]).owner
                    == before.pools.pools@[i].owner) || (after.pools.pools@.len()
                == before.pools.pools@.len() + 1 && before.pools.pools@
                == after.pools.pools@.subrange(0, before.pools.pools@.len() as int)
                && after.pools.pools@.last().owner == client),
            after.objects.entries@ == before.objects.entries@ || after.objects.entries@
                == before.objects.entries@.push(
                (crate::objects::ObjectEntry {
                    client,
                    id: after.objects.entries@.last().id,
                    kind: after.objects.entries@.last().kind,
                }),
            ) || (after.objects.entries@.len() == before.objects.entries@.len() && forall|i: int|
                0 <= i < after.objects.entries@.len() ==> (
                #[trigger] after.objects.entries@[i]).client
                    == before.objects.entries@[i].client),
        ensures
            forall|i: int|
                0 <= i < after.objects.entries@.len() ==> after.registry.is_live(
                    (#[trigger] after.objects.entries@[i]).client,
                ),
            forall|i: int|
                0 <= i < after.pools.pools@.len() ==> after.registry.is_live(
                    (#[trigger] after.pools.pools@[i]).owner,
                ),
    {
        assert forall|i: int|
            0 <= i < after.objects.entries@.len() implies after.registry.is_live(
            (#[trigger] after.objects.entries@[i]).client,
        ) by {
            if i < before.objects.entries@.len() && after.objects.entries@[i]
                == before.objects.entries@[i] {
                assert(before.registry.is_live(before.objects.entries@[i].client));
            } else if i < before.objects.entries@.len() {
                assert(before.registry.is_live(before.objects.entries@[i].client));
                assert(after.objects.entries@[i].client == before.objects.entries@[i].client);
            } else {
                assert(after.objects.entries@[i].client == client);
            }
        }
        assert forall|i: int|
            0 <= i < after.pools.pools@.len() implies after.registry.is_live(
            (#[trigger] after.pools.pools@[i]).owner,
        ) by {
            if i < before.pools.pools@.len() {
                assert(before.registry.is_live(before.pools.pools@[i].owner));
            } else {
                assert(after.pools.pools@[i].owner == client);
            }
        }
    }

    /// Create a compositor surface for a client, with nothing attached and
    /// nothing committed. Fails only when the client's identifier namespace
    /// is exhausted, and then changes nothing.
    pub fn create_surface(&mut self, client: u64) -> (r: Result<u32, ProtocolError>)
        requires
            old(self).wf(),
            old(self).registry.is_live(client),
        ensures
            final(self).wf(),
            final(self).registry == old(self).registry,
            final(self).sources == old(self).sources,
            final(self).pools == old(self).pools,
            final(self).conns == old(self).conns,
            final(self).outbound_ceiling == old(self).outbound_ceiling,
            r is Err <==> old(self).objects.owns(client, u32::MAX),
            r is Err ==> r == Err::<u32, ProtocolError>(ProtocolError::TooManyObjects) && *final(self) == *old(self),
            r matches Ok(id) ==> ({
                &&& !old(self).objects.owns(client, id)
                &&& final(self).objects.entries@ == old(self).objects.entries@.push(
                    (crate::objects::ObjectEntry {
                        client,
                        id,
                        kind: ObjectKind::Surface { pending_buffer: None, current_buffer: None },
                    }),
                )
                &&& final(self).objects.owns(client, id)
                &&& final(self).objects.kind_of(client, id) == (ObjectKind::Surface {
                    pending_buffer: None,
                    current_buffer: None,
                })
                &&& ((forall|j: int|
                    0 <= j < old(self).objects.entries@.len() ==> (#[trigger] old(self).objects.entries@[j]).client != client) ==> id == 1)
            }),
    {
        let r = self.objects.create(
            client,
            ObjectKind::Surface { pending_buffer: None, current_buffer: None },
        );
        proof {
            if r is Ok {
                Server::lemma_owners_still_live(old(self), self, client);
            }
        }
        r
    }

    /// Create a shared-memory pool for a client: validate and record the
    /// mapping (the caller performs the actual `mmap` on the descriptor it
    /// already holds) and store the pool object. Atomic: any failure leaves
    /// everything unchanged.
    pub fn create_pool(&mut self, client: u64, fd: i32, length: u64) -> (r: Result<
        u32,
        ProtocolError,
    >)
        requires
            old(self).wf(),
            old(self).registry.is_live(client),
        ensures
            final(self).wf(),
            final(self).registry == old(self).registry,
            final(self).sources == old(self).sources,
            final(self).conns == old(self).conns,
            final(self).outbound_ceiling == old(self).outbound_ceiling,
            r is Err ==> *final(self) == *old(self),
            r matches Err(e) ==> (e == ProtocolError::TooManyObjects || e
                == ProtocolError::MapFailed || e == ProtocolError::TooLarge),
            r is Ok <==> (!old(self).objects.owns(client, u32::MAX) && fd >= 0 && length > 0
                && length <= old(self).pools.max_len && old(self).pools.next_id < u64::MAX),
            r matches Err(e) ==> ({
                &&& (e == ProtocolError::TooManyObjects <==> (old(self).objects.owns(
                    client,
                    u32::MAX,
                ) || (fd >= 0 && length > 0 && length <= old(self).pools.max_len && old(self).pools.next_id == u64::MAX)))
                &&& (e == ProtocolError::MapFailed <==> (!old(self).objects.owns(client, u32::MAX)
                    && (fd < 0 || length == 0)))
                &&& (e == ProtocolError::TooLarge <==> (!old(self).objects.owns(client, u32::MAX)
                    && fd >= 0 && length > 0 && length > old(self).pools.max_len))
            }),
            r matches Ok(id) ==> ({
                let pool = old(self).pools.next_id;
                &&& !old(self).objects.owns(client, id)
                &&& final(self).objects.entries@ == old(self).objects.entries@.push(
                    (crate::objects::ObjectEntry { client, id, kind: ObjectKind::ShmPool { pool } }),
                )
                &&& final(self).objects.owns(client, id)
                &&& final(self).objects.kind_of(client, id) == (ObjectKind::ShmPool { pool })
                &&& final(self).pools.has_pool(pool)
                &&& final(self).pools.pool_of(pool).owner == client
                &&& final(self).pools.pool_of(pool).length == length
                &&& final(self).pools.pool_of(pool).fd == fd
                &&& final(self).pools.pool_of(pool).buffers@.len() == 0
                &&& final(self).pools.pools@.len() == old(self).pools.pools@.len() + 1
                &&& final(self).pools.pools@.subrange(0, old(self).pools.pools@.len() as int)
                    == old(self).pools.pools@
            }),
    {
        if self.objects.resolve(client, u32::MAX).is_ok() {
            return Err(ProtocolError::TooManyObjects);
        }
        let pool = match self.pools.create_pool(client, fd, length) {
            Err(e) => {
                return Err(e);
            },
            Ok(pool) => pool,
        };
        proof {
            let n = (self.pools.pools@.len() - 1) as int;
            assert(self.pools.pools@[n].id == pool);
            self.pools.lemma_idx_unique(pool, n);
        }
        let r = self.objects.create(client, ObjectKind::ShmPool { pool });
        let id = match r {
            Err(_) => {
                proof {
                    assert(false);
                }
                return Err(ProtocolError::TooManyObjects);
            },
            Ok(id) => id,
        };
        proof {
            Server::lemma_owners_still_live(old(self), self, client);
        }
        Ok(id)
    }

    /// Carve a typed buffer out of one of the client's pools. The bounds
    /// check is exact: it succeeds if and only if the buffer's last byte
    /// lies inside the pool. Atomic: any failure leaves everything
    /// unchanged.
    pub fn carve_buffer(&mut self, client: u64, pool_obj: u32, g: &BufferGeometry) -> (r: Result<
        u32,
        ProtocolError,
    >)
        requires
            old(self).wf(),
            old(self).registry.is_live(client),
        ensures
            final(self).wf(),
            final(self).registry == old(self).registry,
            final(self).sources == old(self).sources,
            final(self).conns == old(self).conns,
            final(self).outbound_ceiling == old(self).outbound_ceiling,
            r is Err ==> *final(self) == *old(self),
            r matches Err(e) ==> (e == ProtocolError::UnknownPoolReference || e
                == ProtocolError::OutOfBounds || e == ProtocolError::TooManyObjects || e
                == ProtocolError::ProtocolViolation),
            r == Err::<u32, ProtocolError>(ProtocolError::UnknownPoolReference) <==> (!(old(self).objects.spec_resolve(client, pool_obj) matches Ok(ObjectKind::ShmPool { pool }))
                || (old(self).objects.spec_resolve(client, pool_obj) matches Ok(
                ObjectKind::ShmPool { pool },
            ) && !old(self).objects.owns(client, u32::MAX) && !old(self).pools.has_pool(pool))),
            r == Err::<u32, ProtocolError>(ProtocolError::OutOfBounds) <==> (old(self).objects.spec_resolve(client, pool_obj) matches Ok(ObjectKind::ShmPool { pool })
                && !old(self).objects.owns(client, u32::MAX) && old(self).pools.has_pool(pool)
                && !crate::shm::geometry_fits(*g, old(self).pools.pool_of(pool).length)),
            r == Err::<u32, ProtocolError>(ProtocolError::TooManyObjects) <==> (old(self).objects.spec_resolve(client, pool_obj) matches Ok(ObjectKind::ShmPool { .. }) && old(self).objects.owns(client, u32::MAX)),
            r matches Ok(id) ==> ({
                let pool = old(self).objects.kind_of(client, pool_obj)->ShmPool_pool;
                let i = old(self).pools.idx_of(pool);
                &&& old(self).objects.spec_resolve(client, pool_obj) matches Ok(
                    ObjectKind::ShmPool { .. },
                )
                &&& old(self).pools.has_pool(pool)
                &&& crate::shm::geometry_fits(*g, old(self).pools.pool_of(pool).length)
                &&& !old(self).objects.owns(client, id)
                &&& final(self).objects.entries@ == old(self).objects.entries@.push(
                    (crate::objects::ObjectEntry { client, id, kind: ObjectKind::Buffer { pool } }),
                )
                &&& final(self).objects.owns(client, id)
                &&& final(self).objects.kind_of(client, id) == (ObjectKind::Buffer { pool })
                &&& final(self).pools.pools@.len() == old(self).pools.pools@.len()
                &&& final(self).pools.pools@[i].buffers@ == old(self).pools.pools@[i].buffers@.push(
                    (crate::shm::BufferRec { id, geometry: *g }),
                )
                &&& final(self).pools.pools@[i].length == old(self).pools.pools@[i].length
                &&& (forall|j: int|
                    0 <= j < old(self).pools.pools@.len() && j != i ==> final(self).pools.pools@[j] == old(self).pools.pools@[j])
            }),
    {
        let kind = match self.objects.resolve(client, pool_obj) {
            Err(_) => {
                return Err(ProtocolError::UnknownPoolReference);
            },
            Ok(kind) => kind,
        };
        let pool = match kind {
            ObjectKind::ShmPool { pool } => pool,
            _ => {
                return Err(ProtocolError::UnknownPoolReference);
            },
        };
        let id = match self.objects.alloc_id(client) {
            Err(e) => {
                return Err(e);
            },
            Ok(id) => id,
        };
        match self.pools.check_carve(pool, g) {
            Err(e) => {
                return Err(e);
            },
            Ok(()) => (),
        };
        let dup = self.pools.pool_has_buffer(pool, id);
        if dup {
            return Err(ProtocolError::ProtocolViolation);
        }
        let rec = self.pools.record_buffer(pool, id, g);
        proof {
            assert(rec is Ok);
        }
        self.objects.insert_with_id(client, id, ObjectKind::Buffer { pool });
        proof {
            Server::lemma_owners_still_live(old(self), self, client);
        }
        Ok(id)
    }

    /// Resize one of the client's pools in place. Fails — leaving the
    /// pool's mapping and length exactly as they were — if the pool is
    /// unknown, the new length is zero or over the ceiling, or any live
    /// buffer would no longer fit.
    pub fn resize_pool(&mut self, client: u64, pool_obj: u32, new_length: u64) -> (r: Result<
        (),
        ProtocolError,
    >)
        requires
            old(self).wf(),
            old(self).registry.is_live(client),
        ensures
            final(self).wf(),
            final(self).registry == old(self).registry,
            final(self).sources == old(self).sources,
            final(self).conns == old(self).conns,
            final(self).objects == old(self).objects,
            final(self).outbound_ceiling == old(self).outbound_ceiling,
            r is Err ==> *final(self) == *old(self),
            r matches Err(e) ==> (e == ProtocolError::UnknownPoolReference || e
                == ProtocolError::MapFailed || e == ProtocolError::TooLarge || e
                == ProtocolError::ShrinkViolatesBuffer),
            !(old(self).objects.spec_resolve(client, pool_obj) matches Ok(
                ObjectKind::ShmPool { .. },
            )) ==> r == Err::<(), ProtocolError>(ProtocolError::UnknownPoolReference),
            old(self).objects.spec_resolve(client, pool_obj) matches Ok(
                ObjectKind::ShmPool { pool },
            ) ==> ({
                let p = old(self).pools.pool_of(pool);
                let i = old(self).pools.idx_of(pool);
                &&& (r == Err::<(), ProtocolError>(ProtocolError::UnknownPoolReference) <==> !old(self).pools.has_pool(pool))
                &&& (r == Err::<(), ProtocolError>(ProtocolError::MapFailed) <==> (old(self).pools.has_pool(pool) && new_length == 0))
                &&& (r == Err::<(), ProtocolError>(ProtocolError::TooLarge) <==> (old(self).pools.has_pool(pool) && new_length > 0 && new_length > old(self).pools.max_len))
                &&& (r == Err::<(), ProtocolError>(ProtocolError::ShrinkViolatesBuffer) <==> (old(self).pools.has_pool(pool) && new_length > 0 && new_length <= old(self).pools.max_len
                    && exists|k: int|
                    0 <= k < p.buffers@.len() && !crate::shm::geometry_fits(
                        (#[trigger] p.buffers@[k]).geometry,
                        new_length,
                    )))
                &&& (r is Ok <==> (old(self).pools.has_pool(pool) && new_length > 0 && new_length
                    <= old(self).pools.max_len && forall|k: int|
                    0 <= k < p.buffers@.len() ==> crate::shm::geometry_fits(
                        (#[trigger] p.buffers@[k]).geometry,
                        new_length,
                    )))
                &&& (r is Ok ==> final(self).pools.pools@ == old(self).pools.pools@.update(
                    i,
                    (crate::shm::Pool { length: new_length, ..old(self).pools.pools@[i] }),
                ))
            }),
    {
        let kind = match self.objects.resolve(client, pool_obj) {
            Err(_) => {
                return Err(ProtocolError::UnknownPoolReference);
            },
            Ok(kind) => kind,
        };
        let pool = match kind {
            ObjectKind::ShmPool { pool } => pool,
            _ => {
                return Err(ProtocolError::UnknownPoolReference);
            },
        };
        let r = self.pools.resize_pool(pool, new_length);
        proof {
            if r is Ok {
                let i = old(self).pools.idx_of(pool);
                assert(self.pools.pools@[i].owner == old(self).pools.pools@[i].owner);
                Server::lemma_owners_still_live(old(self), self, client);
            }
        }
        r
    }

    /// Attach a buffer (or nothing) to one of the client's surfaces as its
    /// pending state; a later commit makes it current. The buffer, when
    /// given, must be one of the client's own buffer objects.
    pub fn attach_buffer(&mut self, client: u64, surface: u32, buffer: Option<u32>) -> (r: Result<
        (),
        ProtocolError,
    >)
        requires
            old(self).wf(),
            old(self).registry.is_live(client),
        ensures
            final(self).wf(),
            final(self).registry == old(self).registry,
            final(self).sources == old(self).sources,
            final(self).pools == old(self).pools,
            final(self).conns == old(self).conns,
            final(self).outbound_ceiling == old(self).outbound_ceiling,
            r is Err ==> *final(self) == *old(self),
            r matches Err(e) ==> (e == ProtocolError::UnknownObject || e
                == ProtocolError::ProtocolViolation),
            buffer matches Some(b) ==> ({
                &&& (!(old(self).objects.spec_resolve(client, b) matches Ok(
                    ObjectKind::Buffer { .. },
                )) ==> r is Err)
                &&& (!(old(self).objects.spec_resolve(client, b) matches Ok(
                    ObjectKind::Buffer { .. },
                )) && !old(self).objects.owns(client, b) ==> r == Err::<(), ProtocolError>(
                    ProtocolError::UnknownObject,
                ))
                &&& (!(old(self).objects.spec_resolve(client, b) matches Ok(
                    ObjectKind::Buffer { .. },
                )) && old(self).objects.owns(client, b) ==> r == Err::<(), ProtocolError>(
                    ProtocolError::ProtocolViolation,
                ))
            }),
            (buffer is None || (buffer matches Some(b) && old(self).objects.spec_resolve(client, b)
                matches Ok(ObjectKind::Buffer { .. }))) ==> ({
                &&& (r == Err::<(), ProtocolError>(ProtocolError::UnknownObject) <==> !old(self).objects.owns(client, surface))
                &&& (r == Err::<(), ProtocolError>(ProtocolError::ProtocolViolation) <==> (old(self).objects.owns(client, surface) && !(old(self).objects.kind_of(client, surface)
                    is Surface)))
                &&& (r is Ok <==> (old(self).objects.owns(client, surface) && old(self).objects.kind_of(client, surface) is Surface))
                &&& (r is Ok ==> final(self).objects.entries@ == old(self).objects.entries@.update(
                    old(self).objects.idx_of(client, surface),
                    (crate::objects::ObjectEntry {
                        client,
                        id: surface,
                        kind: ObjectKind::Surface {
                            pending_buffer: buffer,
                            current_buffer: old(self).objects.kind_of(
                                client,
                                surface,
                            )->Surface_current_buffer,
                        },
                    }),
                ))
            }),
    {
        match buffer {
            Some(b) => {
                match self.objects.resolve(client, b) {
                    Err(_) => {
                        return Err(ProtocolError::UnknownObject);
                    },
                    Ok(ObjectKind::Buffer { .. }) => (),
                    Ok(_) => {
                        return Err(ProtocolError::ProtocolViolation);
                    },
                }
            },
            None => (),
        }
        let r = self.objects.attach(client, surface, buffer);
        proof {
            if r is Ok {
                let i = old(self).objects.idx_of(client, surface);
                assert forall|k: int|
                    0 <= k < self.objects.entries@.len() implies self.registry.is_live(
                    (#[trigger] self.objects.entries@[k]).client,
                ) by {
                    assert(old(self).registry.is_live(old(self).objects.entries@[k].client));
                    assert(self.objects.entries@[k].client == old(self).objects.entries@[k].client);
                }
            }
        }
        r
    }

    /// Commit one of the client's surfaces: its pending attachment becomes
    /// current, and the returned notification carries what is now ready to
    /// the rendering collaborator.
    pub fn commit_surface(&mut self, client: u64, surface: u32) -> (r: Result<
        Notification,
        ProtocolError,
    >)
        requires
            old(self).wf(),
            old(self).registry.is_live(client),
        ensures
            final(self).wf(),
            final(self).registry == old(self).registry,
            final(self).sources == old(self).sources,
            final(self).pools == old(self).pools,
            final(self).conns == old(self).conns,
            final(self).outbound_ceiling == old(self).outbound_ceiling,
            r is Err ==> *final(self) == *old(self),
            r matches Err(e) ==> (e == ProtocolError::UnknownObject || e
                == ProtocolError::ProtocolViolation),
            r == Err::<Notification, ProtocolError>(ProtocolError::UnknownObject) <==> !old(self).objects.owns(client, surface),
            r == Err::<Notification, ProtocolError>(ProtocolError::ProtocolViolation) <==> (old(self).objects.owns(client, surface) && !(old(self).objects.kind_of(client, surface)
                is Surface)),
            r is Ok <==> (old(self).objects.owns(client, surface) && old(self).objects.kind_of(
                client,
                surface,
            ) is Surface),
            r matches Ok(n) ==> ({
                let ready = old(self).objects.kind_of(client, surface)->Surface_pending_buffer;
                &&& n == (Notification::SurfaceCommitted { client, surface, buffer: ready })
                &&& final(self).objects.entries@ == old(self).objects.entries@.update(
                    old(self).objects.idx_of(client, surface),
                    (crate::objects::ObjectEntry {
                        client,
                        id: surface,
                        kind: ObjectKind::Surface {
                            pending_buffer: ready,
                            current_buffer: ready,
                        },
                    }),
                )
                &&& final(self).objects.kind_of(client, surface) == (ObjectKind::Surface {
                    pending_buffer: ready,
                    current_buffer: ready,
                })
            }),
    {
        let ready = match self.objects.commit(client, surface) {
            Err(e) => {
                return Err(e);
            },
            Ok(ready) => ready,
        };
        proof {
            let i = old(self).objects.idx_of(client, surface);
            assert forall|k: int|
                0 <= k < self.objects.entries@.len() implies self.registry.is_live(
                (#[trigger] self.objects.entries@[k]).client,
            ) by {
                assert(old(self).registry.is_live(old(self).objects.entries@[k].client));
                assert(self.objects.entries@[k].client == old(self).objects.entries@[k].client);
            }
            assert(self.objects.entries@[i].client == client && self.objects.entries@[i].id
                == surface);
            self.objects.lemma_idx_unique(client, surface, i);
        }
        Ok(Notification::SurfaceCommitted { client, surface, buffer: ready })
    }

    /// Destroy one of the client's objects. Destroying a buffer releases
    /// its pool reference; destroying a pool releases the mapping at once
    /// when no buffer is alive, and otherwise defers until the last buffer
    /// dies. The returned notifications tell the collaborators what to drop
    /// or unmap; none may re-enter the dispatcher.
    pub fn destroy_object(&mut self, client: u64, id: u32) -> (r: Result<
        Vec<Notification>,
        ProtocolError,
    >)
        requires
            old(self).wf(),
            old(self).registry.is_live(client),
        ensures
            final(self).wf(),
            final(self).registry == old(self).registry,
            final(self).sources == old(self).sources,
            final(self).conns == old(self).conns,
            final(self).outbound_ceiling == old(self).outbound_ceiling,
            r is Err ==> *final(self) == *old(self),
            r is Err <==> !old(self).objects.owns(client, id),
            r is Err ==> r == Err::<Vec<Notification>, ProtocolError>(
                ProtocolError::UnknownObject,
            ),
            r matches Ok(notes) ==> ({
                let kind = old(self).objects.kind_of(client, id);
                &&& final(self).objects.entries@ == old(self).objects.entries@.remove(
                    old(self).objects.idx_of(client, id),
                )
                &&& !final(self).objects.owns(client, id)
                &&& (kind is Surface ==> notes@ == seq![
                    (Notification::SurfaceDestroyed { client, surface: id }),
                ] && final(self).pools == old(self).pools)
                &&& (kind matches ObjectKind::ShmPool { pool } ==> ({
                    &&& (old(self).pools.has_pool(pool) && old(self).pools.pool_of(
                        pool,
                    ).live_buffers() == 0 ==> final(self).pools.pools@ == old(self).pools.pools@.remove(old(self).pools.idx_of(pool)) && notes@ == seq![
                        (Notification::PoolReleased { pool }),
                    ])
                    &&& (old(self).pools.has_pool(pool) && old(self).pools.pool_of(
                        pool,
                    ).live_buffers() > 0 ==> final(self).pools.pools@ == old(self).pools.pools@.update(
                        old(self).pools.idx_of(pool),
                        (crate::shm::Pool {
                            pending_destroy: true,
                            ..old(self).pools.pool_of(pool)
                        }),
                    ) && notes@.len() == 0)
                    &&& (!old(self).pools.has_pool(pool) ==> final(self).pools == old(self).pools
                        && notes@.len() == 0)
                }))
                &&& (kind matches ObjectKind::Buffer { pool } ==> ({
                    &&& notes@.len() >= 1
                    &&& notes@[0] == (Notification::BufferDestroyed { client, id })
                    &&& (old(self).pools.has_pool(pool) && old(self).pools.pool_of(
                        pool,
                    ).has_buffer(id) ==> ({
                        let p = old(self).pools.pool_of(pool);
                        &&& ((p.pending_destroy && p.live_buffers() == 1) ==> final(self).pools.pools@ == old(self).pools.pools@.remove(old(self).pools.idx_of(
                            pool,
                        )) && notes@ == seq![
                            (Notification::BufferDestroyed { client, id }),
                            (Notification::PoolReleased { pool }),
                        ])
                        &&& (!(p.pending_destroy && p.live_buffers() == 1) ==> notes@.len() == 1)
                    }))
                    &&& (!(old(self).pools.has_pool(pool) && old(self).pools.pool_of(
                        pool,
                    ).has_buffer(id)) ==> final(self).pools == old(self).pools && notes@.len()
                        == 1)
                }))
            }),
    {
        let kind = match self.objects.destroy(client, id) {
            Err(e) => {
                return Err(e);
            },
            Ok(kind) => kind,
        };
        proof {
            let i = old(self).objects.idx_of(client, id);
            assert(forall|a: int|
                0 <= a < self.objects.entries@.len() ==> self.objects.entries@[a] == (if a < i {
                    old(self).objects.entries@[a]
                } else {
                    old(self).objects.entries@[a + 1]
                }));
            assert forall|k: int|
                0 <= k < self.objects.entries@.len() implies self.registry.is_live(
                (#[trigger] self.objects.entries@[k]).client,
            ) by {
                let a = (if k < i {
                    k
                } else {
                    k + 1
                });
                assert(self.objects.entries@[k] == old(self).objects.entries@[a]);
                assert(old(self).registry.is_live(old(self).objects.entries@[a].client));
            }
            if self.objects.owns(client, id) {
                let w = self.objects.idx_of(client, id);
                assert(0 <= w < self.objects.entries@.len() && self.objects.entries@[w].client
                    == client && self.objects.entries@[w].id == id);
                let a = (if w < i {
                    w
                } else {
                    w + 1
                });
                assert(old(self).objects.entries@[a].client == client && old(self).objects.entries@[a].id == id);
                assert(a != i);
                old(self).objects.lemma_idx_unique(client, id, a);
                assert(false);
            }
        }
        let mut notes: Vec<Notification> = Vec::new();
        match kind {
            ObjectKind::Surface { .. } => {
                notes.push(Notification::SurfaceDestroyed { client, surface: id });
            },
            ObjectKind::ShmPool { pool } => {
                let ghost pi = self.pools.idx_of(pool);
                let ghost pools0 = self.pools.pools@;
                match self.pools.destroy_pool(pool) {
                    Ok(true) => {
                        proof {
                            assert(forall|a: int|
                                0 <= a < self.pools.pools@.len() ==> self.pools.pools@[a] == (if a
                                    < pi {
                                    pools0[a]
                                } else {
                                    pools0[a + 1]
                                }));
                        }
                        notes.push(Notification::PoolReleased { pool });
                    },
                    Ok(false) => (),
                    Err(_) => (),
                }
                proof {
                    assert forall|k: int|
                        0 <= k < self.pools.pools@.len() implies self.registry.is_live(
                        (#[trigger] self.pools.pools@[k]).owner,
                    ) by {
                        if self.pools.pools@.len() == pools0.len() {
                            assert(self.pools.pools@[k].owner == pools0[k].owner);
                        } else {
                            let a = (if k < pi {
                                k
                            } else {
                                k + 1
                            });
                            assert(self.pools.pools@[k].owner == pools0[a].owner);
                        }
                        assert(pools0 == old(self).pools.pools@);
                    }
                }
            },
            ObjectKind::Buffer { pool } => {
                notes.push(Notification::BufferDestroyed { client, id });
                let ghost pi = self.pools.idx_of(pool);
                let ghost pools0 = self.pools.pools@;
                match self.pools.buffer_destroyed(pool, id) {
                    Ok(true) => {
                        proof {
                            assert(forall|a: int|
                                0 <= a < self.pools.pools@.len() ==> self.pools.pools@[a] == (if a
                                    < pi {
                                    pools0[a]
                                } else {
                                    pools0[a + 1]
                                }));
                        }
                        notes.push(Notification::PoolReleased { pool });
                    },
                    Ok(false) => (),
                    Err(_) => (),
                }
                proof {
                    assert forall|k: int|
                        0 <= k < self.pools.pools@.len() implies self.registry.is_live(
                        (#[trigger] self.pools.pools@[k]).owner,
                    ) by {
                        if self.pools.pools@.len() == pools0.len() {
                            assert(self.pools.pools@[k].owner == pools0[k].owner);
                        } else {
                            let a = (if k < pi {
                                k
                            } else {
                                k + 1
                            });
                            assert(self.pools.pools@[k].owner == pools0[a].owner);
                        }
                        assert(pools0 == old(self).pools.pools@);
                    }
                }
            },
        }
        Ok(notes)
    }

    /// Decode and apply one framed message from a client. A fatal error —
    /// malformed arguments, a misaddressed or wrong-kind object, a bad
    /// geometry — leaves everything unchanged and tells the caller to tear
    /// the connection down; a resource failure changes nothing and produces
    /// a reply event; success applies exactly one operation and may produce
    /// a created-object reply.
    fn apply_message(&mut self, client: u64, msg: &Message, pool_fd: i32) -> (r: Result<
        (Vec<Notification>, Option<Event>),
        ProtocolError,
    >)
        requires
            old(self).wf(),
            old(self).registry.is_live(client),
        ensures
            final(self).wf(),
            final(self).registry == old(self).registry,
            final(self).sources == old(self).sources,
            final(self).conns == old(self).conns,
            final(self).outbound_ceiling == old(self).outbound_ceiling,
            r matches Err(e) ==> *final(self) == *old(self) && e.spec_is_fatal(),
            r matches Ok((notes, reply)) ==> msg_step(
                *old(self),
                client,
                msg@,
                pool_fd,
                *final(self),
                notes@,
                reply,
                false,
            ),
            r is Err ==> msg_step(
                *old(self),
                client,
                msg@,
                pool_fd,
                *final(self),
                Seq::<Notification>::empty(),
                None,
                true,
            ),
    {
        if msg.object_id == 0 {
            if msg.opcode == 0 {
                if msg.body.len() != 8 {
                    return Err(ProtocolError::ProtocolViolation);
                }
                let length = read_u64_at(&msg.body, 0);
                proof {
                    assert(length == body_u64(msg@.body, 0) as u64);
                }
                match self.create_pool(client, pool_fd, length) {
                    Ok(id) => {
                        proof {
                            assert(created_pool(*old(self), *self, client, id, pool_fd, length));
                        }
                        Ok((Vec::new(), Some(Event::ObjectCreated { id })))
                    },
                    Err(e) => reply_or_escalate(e),
                }
            } else if msg.opcode == 1 {
                if msg.body.len() != 0 {
                    return Err(ProtocolError::ProtocolViolation);
                }
                match self.create_surface(client) {
                    Ok(id) => {
                        proof {
                            assert(created_surface(*old(self), *self, client, id));
                        }
                        Ok((Vec::new(), Some(Event::ObjectCreated { id })))
                    },
                    Err(e) => reply_or_escalate(e),
                }
            } else {
                Err(ProtocolError::ProtocolViolation)
            }
        } else {
            let kind = match self.objects.resolve(client, msg.object_id) {
                Err(_) => {
                    return Err(ProtocolError::ProtocolViolation);
                },
                Ok(kind) => kind,
            };
            match kind {
                ObjectKind::Surface { .. } => {
                    if msg.opcode == 0 {
                        if msg.body.len() != 4 {
                            return Err(ProtocolError::ProtocolViolation);
                        }
                        let b = read_u32_at(&msg.body, 0);
                        proof {
                            assert(b == body_u32(msg@.body, 0) as u32);
                        }
                        let buffer = if b == 0 {
                            None
                        } else {
                            Some(b)
                        };
                        match self.attach_buffer(client, msg.object_id, buffer) {
                            Ok(()) => Ok((Vec::new(), None)),
                            Err(e) => reply_or_escalate(e),
                        }
                    } else if msg.opcode == 1 {
                        if msg.body.len() != 0 {
                            return Err(ProtocolError::ProtocolViolation);
                        }
                        match self.commit_surface(client, msg.object_id) {
                            Ok(n) => {
                                let mut notes: Vec<Notification> = Vec::new();
                                notes.push(n);
                                proof {
                                    assert(notes@ =~= seq![n]);
                                }
                                Ok((notes, None))
                            },
                            Err(e) => reply_or_escalate(e),
                        }
                    } else if msg.opcode == 2 {
                        if msg.body.len() != 0 {
                            return Err(ProtocolError::ProtocolViolation);
                        }
                        match self.destroy_object(client, msg.object_id) {
                            Ok(notes) => Ok((notes, None)),
                            Err(e) => reply_or_escalate(e),
                        }
                    } else {
                        Err(ProtocolError::ProtocolViolation)
                    }
                },
                ObjectKind::ShmPool { .. } => {
                    if msg.opcode == 0 {
                        if msg.body.len() != 24 {
                            return Err(ProtocolError::ProtocolViolation);
                        }
                        let offset = read_u64_at(&msg.body, 0);
                        let width = read_u32_at(&msg.body, 8);
                        let height = read_u32_at(&msg.body, 12);
                        let stride = read_u32_at(&msg.body, 16);
                        let fmt_word = read_u32_at(&msg.body, 20);
                        let format = if fmt_word == 0 {
                            PixelFormat::Argb8888
                        } else if fmt_word == 1 {
                            PixelFormat::Xrgb8888
                        } else if fmt_word == 2 {
                            PixelFormat::Rgb565
                        } else {
                            return Err(ProtocolError::ProtocolViolation);
                        };
                        let g = BufferGeometry { offset, width, height, stride, format };
                        proof {
                            assert(offset == body_u64(msg@.body, 0) as u64);
                            assert(width == body_u32(msg@.body, 8) as u32);
                            assert(height == body_u32(msg@.body, 12) as u32);
                            assert(stride == body_u32(msg@.body, 16) as u32);
                            assert(fmt_word == body_u32(msg@.body, 20) as u32);
                            assert(format_of(body_u32(msg@.body, 20)) == Some(format));
                            assert(g == carve_geometry(msg@.body));
                        }
                        match self.carve_buffer(client, msg.object_id, &g) {
                            Err(e) => reply_or_escalate(e),
                            Ok(id) => {
                                proof {
                                    let pool = old(self).objects.kind_of(
                                        client,
                                        msg.object_id,
                                    )->ShmPool_pool;
                                    assert(!old(self).objects.owns(client, u32::MAX));
                                    assert(old(self).pools.has_pool(pool));
                                    assert(crate::shm::geometry_fits(
                                        carve_geometry(msg@.body),
                                        old(self).pools.pool_of(pool).length,
                                    ));
                                    assert(carved_buffer(
                                        *old(self),
                                        *self,
                                        client,
                                        pool,
                                        id,
                                        carve_geometry(msg@.body),
                                    ));
                                    assert(exists|id2: u32|
                                        Some(Event::ObjectCreated { id: id2 }) == Some(
                                            Event::ObjectCreated { id },
                                        ) && #[trigger] carved_buffer(
                                            *old(self),
                                            *self,
                                            client,
                                            pool,
                                            id2,
                                            carve_geometry(msg@.body),
                                        ));
                                }
                                Ok((Vec::new(), Some(Event::ObjectCreated { id })))
                            },
                        }
                    } else if msg.opcode == 1 {
                        if msg.body.len() != 8 {
                            return Err(ProtocolError::ProtocolViolation);
                        }
                        let new_length = read_u64_at(&msg.body, 0);
                        proof {
                            assert(new_length == body_u64(msg@.body, 0) as u64);
                        }
                        match self.resize_pool(client, msg.object_id, new_length) {
                            Ok(()) => Ok((Vec::new(), None)),
                            Err(e) => reply_or_escalate(e),
                        }
                    } else if msg.opcode == 2 {
                        if msg.body.len() != 0 {
                            return Err(ProtocolError::ProtocolViolation);
                        }
                        match self.destroy_object(client, msg.object_id) {
                            Ok(notes) => Ok((notes, None)),
                            Err(e) => reply_or_escalate(e),
                        }
                    } else {
                        Err(ProtocolError::ProtocolViolation)
                    }
                },
                ObjectKind::Buffer { .. } => {
                    if msg.opcode == 0 {
                        if msg.body.len() != 0 {
                            return Err(ProtocolError::ProtocolViolation);
                        }
                        match self.destroy_object(client, msg.object_id) {
                            Ok(notes) => Ok((notes, None)),
                            Err(e) => reply_or_escalate(e),
                        }
                    } else {
                        Err(ProtocolError::ProtocolViolation)
                    }
                },
            }
        }
    }

    /// Connection-source readiness: accumulate the bytes just read, apply
    /// every complete message in arrival order, and queue replies. A fatal
    /// protocol error — including a malformed frame and an overflowing
    /// outbound queue — disconnects this client on the spot; readiness for
    /// a client that is already gone is a stale notification and a no-op.
    /// Fairness is bounded by the read: one call applies at most the
    /// messages the given bytes complete.
    pub fn handle_readable(&mut self, client: u64, bytes: &[u8], pool_fd: i32) -> (r: Vec<
        Notification,
    >)
        requires
            old(self).wf(),
        ensures
            final(self).wf(),
            final(self).outbound_ceiling == old(self).outbound_ceiling,
            !old(self).has_conn(client) ==> *final(self) == *old(self) && r@.len() == 0,
            forall|c: u64|
                c != client ==> (final(self).registry.is_live(c) <==> old(self).registry.is_live(
                    c,
                )),
            final(self).registry.is_live(client) ==> old(self).registry.is_live(client),
            old(self).has_conn(client) && crate::wire::parse(
                old(self).conns@[old(self).conn_idx(client)].inbound.buf@ + bytes@,
            ).malformed ==> !final(self).registry.is_live(client),
            old(self).has_conn(client) ==> ({
                let conn0 = old(self).conns@[old(self).conn_idx(client)];
                let out = crate::wire::parse(conn0.inbound.buf@ + bytes@);
                exists|pre: Server, post: Server, q1: Seq<Vec<u8>>, applied: int, fatal: bool|
                    {
                        &&& pre.registry == old(self).registry
                        &&& pre.sources == old(self).sources
                        &&& pre.objects == old(self).objects
                        &&& pre.pools == old(self).pools
                        &&& pre.outbound_ceiling == old(self).outbound_ceiling
                        &&& pre.conns@ == old(self).conns@.remove(old(self).conn_idx(client))
                        &&& 0 <= applied <= out.msgs.len()
                        &&& #[trigger] run_steps(
                            pre,
                            conn0.outbound.msgs@,
                            client,
                            out.msgs.take(applied),
                            pool_fd,
                            post,
                            q1,
                            r@,
                            fatal,
                        )
                        &&& (!fatal ==> applied == out.msgs.len())
                        &&& (fatal || out.malformed ==> ({
                            &&& !final(self).registry.is_live(client)
                            &&& final(self).objects.entries@ == post.objects.entries@.filter(
                                |e: crate::objects::ObjectEntry| e.client != client,
                            )
                            &&& final(self).pools.pools@ == post.pools.pools@.filter(
                                |p: crate::shm::Pool| p.owner != client,
                            )
                            &&& final(self).conns == post.conns
                        }))
                        &&& (!fatal && !out.malformed ==> ({
                            &&& final(self).registry == post.registry
                            &&& final(self).sources == post.sources
                            &&& final(self).objects == post.objects
                            &&& final(self).pools == post.pools
                            &&& final(self).conns@.len() == post.conns@.len() + 1
                            &&& final(self).conns@.subrange(0, post.conns@.len() as int)
                                == post.conns@
                            &&& final(self).conns@.last().client == client
                            &&& final(self).conns@.last().inbound.buf@ == out.rest
                            &&& final(self).conns@.last().outbound.msgs@ == q1
                            &&& final(self).conns@.last().outbound.ceiling == old(
                                self,
                            ).outbound_ceiling
                            &&& final(self).conns@.last().outbound.front_sent
                                == conn0.outbound.front_sent
                        }))
                    }
            }),
    {
        let ci = match self.find_conn(client) {
            None => {
                return Vec::new();
            },
            Some(ci) => ci,
        };
        proof {
            let j = self.conn_idx(client);
            assert(0 <= j < self.conns@.len() && self.conns@[j].client == client);
            if j != ci as int {
                assert(false);
            }
        }
        let ghost before_conns = self.conns@;
        let mut conn = self.conns.remove(ci);
        proof {
            assert(forall|a: int|
                0 <= a < self.conns@.len() ==> self.conns@[a] == (if a < ci as int {
                    before_conns[a]
                } else {
                    before_conns[a + 1]
                }));
            assert forall|k: int|
                0 <= k < self.conns@.len() implies (#[trigger] self.conns@[k]).client
                != client by {
                let a = (if k < ci as int {
                    k
                } else {
                    k + 1
                });
                assert(self.conns@[k] == before_conns[a]);
                if before_conns[a].client == client {
                    assert(before_conns[ci as int].client == client);
                    assert(false);
                }
            }
        }
        proof {
            old(self).lemma_conn_idx_unique(client, ci as int);
        }
        let ghost conn0 = old(self).conns@[old(self).conn_idx(client)];
        let ghost pre_state: Server = *self;
        let ghost q0 = conn.outbound.msgs@;
        let outcome = conn.inbound.feed(bytes);
        let ghost msgs_v = outcome.messages@.map_values(|mm: Message| mm@);
        proof {
            assert(conn0 == before_conns[ci as int]);
            assert(msgs_v == crate::wire::parse(conn0.inbound.buf@ + bytes@).msgs);
            assert(msgs_v.take(0) =~= Seq::<crate::wire::MessageView>::empty());
        }
        let mut notes: Vec<Notification> = Vec::new();
        let mut fatal: bool = false;
        let mut m: usize = 0;
        let ghost mut applied: int = 0;
        while m < outcome.messages.len() && !fatal
            invariant
                self.wf(),
                self.registry.is_live(client),
                self.registry == old(self).registry,
                self.outbound_ceiling == old(self).outbound_ceiling,
                pre_state.outbound_ceiling == old(self).outbound_ceiling,
                forall|k: int| 0 <= k < self.conns@.len() ==> (#[trigger] self.conns@[k]).client != client,
                conn.client == client,
                conn.outbound.wf(),
                conn.outbound.ceiling == self.outbound_ceiling,
                conn.outbound.front_sent == conn0.outbound.front_sent,
                conn.inbound.buf@ == crate::wire::parse(conn0.inbound.buf@ + bytes@).rest,
                msgs_v == outcome.messages@.map_values(|mm: Message| mm@),
                msgs_v == crate::wire::parse(conn0.inbound.buf@ + bytes@).msgs,
                m <= outcome.messages@.len(),
                0 <= applied <= msgs_v.len(),
                !fatal ==> applied == m as int,
                run_steps(
                    pre_state,
                    q0,
                    client,
                    msgs_v.take(applied),
                    pool_fd,
                    *self,
                    conn.outbound.msgs@,
                    notes@,
                    fatal,
                ),
            decreases outcome.messages@.len() - m, (if fatal { 0int } else { 1int }),
        {
            let ghost mid0: Server = *self;
            let ghost q_mid0 = conn.outbound.msgs@;
            let ghost n1 = notes@;
            let ghost cur = msgs_v.take(m as int + 1);
            proof {
                assert(cur.drop_last() =~= msgs_v.take(m as int));
                assert(cur.last() == msgs_v[m as int]);
                assert(msgs_v[m as int] == outcome.messages@[m as int]@);
                applied = m as int + 1;
            }
            match self.apply_message(client, &outcome.messages[m], pool_fd) {
                Ok((mut ns, ev)) => {
                    let ghost ns_v = ns@;
                    notes.append(&mut ns);
                    proof {
                        assert(notes@ == n1 + ns_v);
                    }
                    match ev {
                        Some(ev) => {
                            let frame = ev.encode();
                            match conn.outbound.enqueue(frame) {
                                Ok(()) => {
                                    proof {
                                        assert(conn.outbound.msgs@.subrange(
                                            0,
                                            q_mid0.len() as int,
                                        ) =~= q_mid0);
                                        assert(conn.outbound.msgs@.last()@ == ev.spec_encode());
                                        lemma_run_steps_extend(
                                            pre_state,
                                            q0,
                                            client,
                                            cur,
                                            pool_fd,
                                            mid0,
                                            q_mid0,
                                            n1,
                                            *self,
                                            conn.outbound.msgs@,
                                            ns_v,
                                            Some(ev),
                                            false,
                                            false,
                                        );
                                    }
                                },
                                Err(_) => {
                                    fatal = true;
                                    proof {
                                        lemma_run_steps_extend(
                                            pre_state,
                                            q0,
                                            client,
                                            cur,
                                            pool_fd,
                                            mid0,
                                            q_mid0,
                                            n1,
                                            *self,
                                            conn.outbound.msgs@,
                                            ns_v,
                                            Some(ev),
                                            false,
                                            true,
                                        );
                                    }
                                },
                            }
                        },
                        None => {
                            proof {
                                lemma_run_steps_extend(
                                    pre_state,
                                    q0,
                                    client,
                                    cur,
                                    pool_fd,
                                    mid0,
                                    q_mid0,
                                    n1,
                                    *self,
                                    conn.outbound.msgs@,
                                    ns_v,
                                    None,
                                    false,
                                    false,
                                );
                            }
                        },
                    }
                },
                Err(_) => {
                    fatal = true;
                    proof {
                        lemma_run_steps_extend(
                            pre_state,
                            q0,
                            client,
                            cur,
                            pool_fd,
                            mid0,
                            q_mid0,
                            n1,
                            *self,
                            conn.outbound.msgs@,
                            Seq::<Notification>::empty(),
                            None,
                            true,
                            true,
                        );
                    }
                },
            }
            if !fatal {
                m += 1;
            }
        }
        let ghost post_state: Server = *self;
        let ghost q1 = conn.outbound.msgs@;
        if fatal || outcome.malformed {
            proof {
                if self.has_conn(client) {
                    let k = self.conn_idx(client);
                    assert(self.conns@[k].client != client);
                    assert(false);
                }
            }
            self.disconnect(client);
        } else {
            let ghost mid_conns = self.conns@;
            self.conns.push(conn);
            proof {
                let n = (self.conns@.len() - 1) as int;
                assert(self.conns@.subrange(0, mid_conns.len() as int) =~= mid_conns);
                assert forall|i: int, j: int|
                    0 <= i < j < self.conns@.len() implies self.conns@[i].client
                    != self.conns@[j].client by {
                    if j < n {
                        assert(self.conns@[i] == mid_conns[i] && self.conns@[j] == mid_conns[j]);
                    } else {
                        assert(self.conns@[i] == mid_conns[i]);
                        assert(mid_conns[i].client != client);
                    }
                }
            }
        }
        proof {
            let out = crate::wire::parse(conn0.inbound.buf@ + bytes@);
            assert(out.msgs.take(applied) =~= msgs_v.take(applied));
            assert(run_steps(
                pre_state,
                conn0.outbound.msgs@,
                client,
                out.msgs.take(applied),
                pool_fd,
                post_state,
                q1,
                notes@,
                fatal,
            ));
        }
        notes
    }

    /// Queue a server-originated event for a client. The queue ceiling is
    /// the backpressure rule: a client that has let its queue fill up is
    /// disconnected with `SlowClient` the moment one more event must be
    /// queued, rather than allowed to grow without bound.
    pub fn queue_event(&mut self, client: u64, ev: Event) -> (r: Result<(), ProtocolError>)
        requires
            old(self).wf(),
        ensures
            final(self).wf(),
            final(self).outbound_ceiling == old(self).outbound_ceiling,
            r == Err::<(), ProtocolError>(ProtocolError::UnknownObject) <==> !old(self).has_conn(
                client,
            ),
            r == Err::<(), ProtocolError>(ProtocolError::UnknownObject) ==> *final(self) == *old(self),
            r is Ok <==> (old(self).has_conn(client) && old(self).conns@[old(self).conn_idx(
                client,
            )].outbound.msgs@.len() < old(self).outbound_ceiling),
            r == Err::<(), ProtocolError>(ProtocolError::SlowClient) <==> (old(self).has_conn(
                client,
            ) && old(self).conns@[old(self).conn_idx(client)].outbound.msgs@.len() >= old(self).outbound_ceiling),
            r == Err::<(), ProtocolError>(ProtocolError::SlowClient) ==> !final(self).registry.is_live(client) && !final(self).has_conn(client),
            forall|c: u64|
                c != client ==> (final(self).registry.is_live(c) <==> old(self).registry.is_live(
                    c,
                )),
            r is Ok ==> ({
                let q = old(self).conns@[old(self).conn_idx(client)].outbound;
                let q2 = final(self).conns@[final(self).conn_idx(client)].outbound;
                &&& final(self).has_conn(client)
                &&& q2.msgs@.len() == q.msgs@.len() + 1
                &&& q2.msgs@.subrange(0, q.msgs@.len() as int) == q.msgs@
                &&& q2.msgs@.last()@ == ev.spec_encode()
                &&& final(self).registry == old(self).registry
                &&& final(self).objects == old(self).objects
                &&& final(self).pools == old(self).pools
            }),
    {
        let ci = match self.find_conn(client) {
            None => {
                return Err(ProtocolError::UnknownObject);
            },
            Some(ci) => ci,
        };
        proof {
            let j = self.conn_idx(client);
            assert(0 <= j < self.conns@.len() && self.conns@[j].client == client);
            if j != ci as int {
                assert(false);
            }
        }
        let ghost before_conns = self.conns@;
        let mut conn = self.conns.remove(ci);
        proof {
            assert(forall|a: int|
                0 <= a < self.conns@.len() ==> self.conns@[a] == (if a < ci as int {
                    before_conns[a]
                } else {
                    before_conns[a + 1]
                }));
            assert forall|k: int|
                0 <= k < self.conns@.len() implies (#[trigger] self.conns@[k]).client
                != client by {
                let a = (if k < ci as int {
                    k
                } else {
                    k + 1
                });
                assert(self.conns@[k] == before_conns[a]);
                if before_conns[a].client == client {
                    assert(before_conns[ci as int].client == client);
                    assert(false);
                }
            }
        }
        let frame = ev.encode();
        match conn.outbound.enqueue(frame) {
            Ok(()) => {
                let ghost mid_conns = self.conns@;
                self.conns.push(conn);
                proof {
                    let n = (self.conns@.len() - 1) as int;
                    assert(self.conns@[n].client == client);
                    assert forall|i: int, j: int|
                        0 <= i < j < self.conns@.len() implies self.conns@[i].client
                        != self.conns@[j].client by {
                        if j < n {
                            assert(self.conns@[i] == mid_conns[i] && self.conns@[j]
                                == mid_conns[j]);
                        } else {
                            assert(self.conns@[i] == mid_conns[i]);
                            assert(mid_conns[i].client != client);
                        }
                    }
                    self.lemma_conn_idx_unique(client, n);
                }
                Ok(())
            },
            Err(_) => {
                self.disconnect(client);
                Err(ProtocolError::SlowClient)
            },
        }
    }

    /// Under `wf`-style uniqueness, a matching index is the `conn_idx`.
    proof fn lemma_conn_idx_unique(self, client: u64, i: int)
        requires
            forall|a: int, b: int|
                0 <= a < b < self.conns@.len() ==> self.conns@[a].client != self.conns@[b].client,
            0 <= i < self.conns@.len(),
            self.conns@[i].client == client,
        ensures
            self.conn_idx(client) == i,
    {
        let j = self.conn_idx(client);
        assert(0 <= j < self.conns@.len() && self.conns@[j].client == client);
    }

    /// What still waits to be written for a client: a copy of the unwritten
    /// part of the front frame, if anything is queued. The caller hands it
    /// to a non-blocking write and reports the count back through
    /// `outbound_advance`.
    pub fn outbound_front(&self, client: u64) -> (r: Option<Vec<u8>>)
        requires
            self.wf(),
        ensures
            r is Some <==> (self.has_conn(client) && self.conns@[self.conn_idx(
                client,
            )].outbound.msgs@.len() > 0),
            r matches Some(v) ==> ({
                let q = self.conns@[self.conn_idx(client)].outbound;
                v@ == q.msgs@[0]@.skip(q.front_sent as int) && v@.len() > 0
            }),
    {
        let ci = match self.find_conn(client) {
            None => {
                return None;
            },
            Some(ci) => ci,
        };
        proof {
            self.lemma_conn_idx_unique(client, ci as int);
        }
        if !self.conns[ci].outbound.has_pending() {
            return None;
        }
        let front = self.conns[ci].outbound.front();
        let off = self.conns[ci].outbound.front_offset();
        let rest = crate::wire::copy_tail(front, off);
        Some(rest)
    }

    /// Record that a non-blocking write took `n` more bytes of the front
    /// frame for this client; a fully written frame leaves the queue and
    /// the remainder stays queued for the next write readiness. With no
    /// connection, nothing queued, or a count past what remains, this is a
    /// stale report and a no-op.
    pub fn outbound_advance(&mut self, client: u64, n: usize)
        requires
            old(self).wf(),
        ensures
            final(self).wf(),
            final(self).registry == old(self).registry,
            final(self).objects == old(self).objects,
            final(self).pools == old(self).pools,
            final(self).sources == old(self).sources,
            final(self).outbound_ceiling == old(self).outbound_ceiling,
            !old(self).has_conn(client) ==> *final(self) == *old(self),
            old(self).has_conn(client) ==> ({
                let q = old(self).conns@[old(self).conn_idx(client)].outbound;
                &&& (q.msgs@.len() == 0 || n > q.msgs@[0]@.len() - q.front_sent ==> *final(self)
                    == *old(self))
                &&& (q.msgs@.len() > 0 && n <= q.msgs@[0]@.len() - q.front_sent ==> ({
                    let q2 = final(self).conns@[final(self).conn_idx(client)].outbound;
                    &&& final(self).has_conn(client)
                    &&& (q.front_sent + n == q.msgs@[0]@.len() ==> q2.msgs@ == q.msgs@.remove(0)
                        && q2.front_sent == 0)
                    &&& (q.front_sent + n < q.msgs@[0]@.len() ==> q2.msgs@ == q.msgs@
                        && q2.front_sent == q.front_sent + n)
                }))
            }),
    {
        let ci = match self.find_conn(client) {
            None => {
                return ;
            },
            Some(ci) => ci,
        };
        proof {
            self.lemma_conn_idx_unique(client, ci as int);
        }
        if !self.conns[ci].outbound.has_pending() {
            return ;
        }
        let front_len = self.conns[ci].outbound.front().len();
        let off = self.conns[ci].outbound.front_offset();
        if n > front_len - off {
            return ;
        }
        let ghost before_conns = self.conns@;
        let mut conn = self.conns.remove(ci);
        conn.outbound.advance(n);
        self.conns.insert(ci, conn);
        proof {
            assert(self.conns@ =~= before_conns.update(ci as int, self.conns@[ci as int]));
            assert forall|k: int|
                0 <= k < self.conns@.len() implies self.registry.is_live(
                (#[trigger] self.conns@[k]).client,
            ) && self.conns@[k].outbound.wf() && self.conns@[k].outbound.ceiling
                == self.outbound_ceiling by {
                if k != ci as int {
                    assert(self.conns@[k] == before_conns[k]);
                }
            }
            self.lemma_conn_idx_unique(client, ci as int);
        }
    }
}

/// Turn a request-scoped failure into a reply event, and escalate a fatal
/// one to the caller, which tears the connection down.
fn reply_or_escalate(e: ProtocolError) -> (r: Result<
    (Vec<Notification>, Option<Event>),
    ProtocolError,
>)
    ensures
        r matches Err(e2) ==> e2 == e && e.spec_is_fatal(),
        r matches Ok((notes, reply)) ==> notes@.len() == 0 && reply == Some(
            (Event::RequestFailed { code: e.spec_wire_code() }),
        ) && !e.spec_is_fatal(),
{
    if e.is_fatal() {
        Err(e)
    } else {
        Ok((Vec::new(), Some(Event::RequestFailed { code: e.wire_code() })))
    }
}

/// A table in which a client owns nothing is unchanged by filtering that
/// client away.
proof fn lemma_filter_identity_objects(s: Seq<crate::objects::ObjectEntry>, client: u64)
    requires
        forall|i: int| 0 <= i < s.len() ==> (#[trigger] s[i]).client != client,
    ensures
        s.filter(|e: crate::objects::ObjectEntry| e.client != client) == s,
    decreases s.len(),
{
    reveal(Seq::filter);
    if s.len() == 0 {
        assert(s.filter(|e: crate::objects::ObjectEntry| e.client != client) =~= s);
    } else {
        lemma_filter_identity_objects(s.drop_last(), client);
        assert(s.filter(|e: crate::objects::ObjectEntry| e.client != client) =~= s);
    }
}

/// The same, for pools.
proof fn lemma_filter_identity_pools(s: Seq<crate::shm::Pool>, client: u64)
    requires
        forall|i: int| 0 <= i < s.len() ==> (#[trigger] s[i]).owner != client,
    ensures
        s.filter(|p: crate::shm::Pool| p.owner != client) == s,
    decreases s.len(),
{
    reveal(Seq::filter);
    if s.len() == 0 {
        assert(s.filter(|p: crate::shm::Pool| p.owner != client) =~= s);
    } else {
        lemma_filter_identity_pools(s.drop_last(), client);
        assert(s.filter(|p: crate::shm::Pool| p.owner != client) =~= s);
    }
}

} // verus!
