use waycore::errors::ProtocolError;
use waycore::objects::ObjectKind;
use waycore::server::{Notification, Server, ServerConfig};
use waycore::shm::{BufferGeometry, PixelFormat};
use waycore::wire::{Dispatcher, Event};

fn config() -> ServerConfig {
    ServerConfig { max_clients: 8, max_pool_len: 1 << 20, outbound_ceiling: 16 }
}

fn frame(object_id: u32, opcode: u16, body: &[u8]) -> Vec<u8> {
    let size = (8 + body.len()) as u16;
    let mut v = Vec::new();
    v.extend_from_slice(&object_id.to_le_bytes());
    v.extend_from_slice(&opcode.to_le_bytes());
    v.extend_from_slice(&size.to_le_bytes());
    v.extend_from_slice(body);
    v
}

#[test]
fn pool_and_buffer_scenario() {
    // A client creates a 4096-byte pool and asks for a 64x64 buffer with
    // stride 256 in a four-byte format: 0 + 63*256 + 256 = 16384 bytes
    // needed, which exceeds 4096.
    let mut s = Server::new(config());
    let c = s.accept_client(7).unwrap();
    let pool = s.create_pool(c, 3, 4096).unwrap();
    let g = BufferGeometry {
        offset: 0,
        width: 64,
        height: 64,
        stride: 256,
        format: PixelFormat::Argb8888,
    };
    assert_eq!(s.carve_buffer(c, pool, &g), Err(ProtocolError::OutOfBounds));
    // Stride 64 needs 63*64 + 256 = 4288 bytes: still over 4096.
    let g64 = BufferGeometry { stride: 64, ..g };
    assert_eq!(s.carve_buffer(c, pool, &g64), Err(ProtocolError::OutOfBounds));
    // With a 16384-byte pool the same buffer fits exactly.
    let pool2 = s.create_pool(c, 3, 16384).unwrap();
    let b = s.carve_buffer(c, pool2, &g).unwrap();
    assert!(s.objects.resolve(c, b).is_ok());
}

#[test]
fn carve_boundary_is_exact() {
    // offset + (height-1)*stride + row_bytes == pool length succeeds; one
    // byte over fails.
    let mut s = Server::new(config());
    let c = s.accept_client(1).unwrap();
    let g = BufferGeometry {
        offset: 1,
        width: 10,
        height: 3,
        stride: 40,
        format: PixelFormat::Rgb565,
    };
    // needs 1 + 2*40 + 10*2 = 101 bytes
    let exact = s.create_pool(c, 3, 101).unwrap();
    assert!(s.carve_buffer(c, exact, &g).is_ok());
    let short = s.create_pool(c, 3, 100).unwrap();
    assert_eq!(s.carve_buffer(c, short, &g), Err(ProtocolError::OutOfBounds));
}

#[test]
fn namespaces_are_per_client() {
    // Client A creates a surface under id 1 in its own namespace and
    // disconnects; client B gets the same numeric id for its first surface,
    // and B's id 1 resolves only to B's surface.
    let mut s = Server::new(config());
    let a = s.accept_client(1).unwrap();
    let sa = s.create_surface(a).unwrap();
    assert_eq!(sa, 1);
    assert!(s.disconnect(a));
    let b = s.accept_client(2).unwrap();
    assert_ne!(a, b);
    let sb = s.create_surface(b).unwrap();
    assert_eq!(sb, 1);
    assert!(s.objects.resolve(b, 1).is_ok());
    // A is gone: its namespace resolves to nothing.
    assert_eq!(s.objects.resolve(a, 1).err(), Some(ProtocolError::UnknownObject));
}

#[test]
fn cross_client_resolution_fails() {
    let mut s = Server::new(config());
    let a = s.accept_client(1).unwrap();
    let b = s.accept_client(2).unwrap();
    let sb = s.create_surface(b).unwrap();
    // A does not own sb (A owns nothing), so resolving it as A fails.
    assert_eq!(s.objects.resolve(a, sb).err(), Some(ProtocolError::UnknownObject));
}

#[test]
fn disconnect_purges_and_is_idempotent() {
    let mut s = Server::new(config());
    let c = s.accept_client(5).unwrap();
    let surf = s.create_surface(c).unwrap();
    let pool = s.create_pool(c, 3, 4096).unwrap();
    let g = BufferGeometry {
        offset: 0,
        width: 8,
        height: 8,
        stride: 32,
        format: PixelFormat::Xrgb8888,
    };
    let buf = s.carve_buffer(c, pool, &g).unwrap();
    assert!(s.disconnect(c));
    assert_eq!(s.objects.entries.len(), 0);
    assert_eq!(s.pools.pools.len(), 0);
    for id in [surf, pool, buf] {
        assert_eq!(s.objects.resolve(c, id).err(), Some(ProtocolError::UnknownObject));
    }
    // Second disconnect of the same client is a no-op.
    assert!(!s.disconnect(c));
}

#[test]
fn resize_failure_leaves_pool_unchanged() {
    let mut s = Server::new(config());
    let c = s.accept_client(1).unwrap();
    let pool = s.create_pool(c, 3, 200).unwrap();
    let g = BufferGeometry {
        offset: 0,
        width: 10,
        height: 5,
        stride: 40,
        format: PixelFormat::Rgb565,
    };
    // needs 4*40 + 20 = 180 bytes
    s.carve_buffer(c, pool, &g).unwrap();
    assert_eq!(s.resize_pool(c, pool, 179), Err(ProtocolError::ShrinkViolatesBuffer));
    // The previous length still governs: a second buffer that needs all 200
    // bytes still fits, so the failed shrink changed nothing.
    let g2 = BufferGeometry {
        offset: 20,
        width: 10,
        height: 5,
        stride: 40,
        format: PixelFormat::Rgb565,
    };
    assert!(s.carve_buffer(c, pool, &g2).is_ok());
    // Growing is fine, and shrinking to exactly the high-water mark is too
    // once the buffers allow it.
    assert!(s.resize_pool(c, pool, 4096).is_ok());
    assert!(s.resize_pool(c, pool, 200).is_ok());
    assert_eq!(s.resize_pool(c, pool, 0), Err(ProtocolError::MapFailed));
    assert_eq!(
        s.resize_pool(c, pool, config().max_pool_len + 1),
        Err(ProtocolError::TooLarge)
    );
}

#[test]
fn pool_released_only_after_last_buffer() {
    let mut s = Server::new(config());
    let c = s.accept_client(1).unwrap();
    let pool_obj = s.create_pool(c, 3, 4096).unwrap();
    let g = BufferGeometry {
        offset: 0,
        width: 4,
        height: 4,
        stride: 16,
        format: PixelFormat::Argb8888,
    };
    let buf = s.carve_buffer(c, pool_obj, &g).unwrap();
    // Destroying the pool object with a live buffer defers the release.
    let notes = s.destroy_object(c, pool_obj).unwrap();
    assert!(notes.is_empty());
    assert_eq!(s.pools.pools.len(), 1);
    // Destroying the buffer releases the pool.
    let notes = s.destroy_object(c, buf).unwrap();
    assert!(matches!(notes[0], Notification::BufferDestroyed { id, .. } if id == buf));
    assert!(matches!(notes[1], Notification::PoolReleased { .. }));
    assert_eq!(s.pools.pools.len(), 0);
}

#[test]
fn commit_makes_pending_current() {
    let mut s = Server::new(config());
    let c = s.accept_client(1).unwrap();
    let surf = s.create_surface(c).unwrap();
    let pool = s.create_pool(c, 3, 4096).unwrap();
    let g = BufferGeometry {
        offset: 0,
        width: 4,
        height: 4,
        stride: 16,
        format: PixelFormat::Argb8888,
    };
    let buf = s.carve_buffer(c, pool, &g).unwrap();
    s.attach_buffer(c, surf, Some(buf)).unwrap();
    let n = s.commit_surface(c, surf).unwrap();
    assert!(
        matches!(n, Notification::SurfaceCommitted { client, surface, buffer }
            if client == c && surface == surf && buffer == Some(buf))
    );
    match s.objects.resolve(c, surf).unwrap() {
        ObjectKind::Surface { pending_buffer, current_buffer } => {
            assert_eq!(pending_buffer, Some(buf));
            assert_eq!(current_buffer, Some(buf));
        },
        _ => panic!("surface expected"),
    }
    // Attaching something else is pending until the next commit.
    s.attach_buffer(c, surf, None).unwrap();
    match s.objects.resolve(c, surf).unwrap() {
        ObjectKind::Surface { pending_buffer, current_buffer } => {
            assert_eq!(pending_buffer, None);
            assert_eq!(current_buffer, Some(buf));
        },
        _ => panic!("surface expected"),
    }
}

#[test]
fn attach_rejects_foreign_and_wrong_kind() {
    let mut s = Server::new(config());
    let c = s.accept_client(1).unwrap();
    let surf = s.create_surface(c).unwrap();
    let other_surf = s.create_surface(c).unwrap();
    assert_eq!(s.attach_buffer(c, surf, Some(99)), Err(ProtocolError::UnknownObject));
    assert_eq!(
        s.attach_buffer(c, surf, Some(other_surf)),
        Err(ProtocolError::ProtocolViolation)
    );
    assert_eq!(s.commit_surface(c, 42).err(), Some(ProtocolError::UnknownObject));
}

#[test]
fn admission_limits() {
    let mut s = Server::new(ServerConfig {
        max_clients: 1,
        max_pool_len: 4096,
        outbound_ceiling: 4,
    });
    let a = s.accept_client(10).unwrap();
    assert_eq!(s.accept_client(11).err(), Some(ProtocolError::TooManyClients));
    // A reused source handle is refused even with capacity.
    assert!(s.disconnect(a));
    assert_eq!(s.accept_client(10).err(), None);
}

#[test]
fn duplicate_source_is_refused() {
    let mut s = Server::new(config());
    s.register_source(99).unwrap();
    assert_eq!(s.register_source(99), Err(ProtocolError::DuplicateSource));
    assert_eq!(s.accept_client(99).err(), Some(ProtocolError::DuplicateSource));
}

#[test]
fn pool_creation_errors() {
    let mut s = Server::new(config());
    let c = s.accept_client(1).unwrap();
    assert_eq!(s.create_pool(c, -1, 4096).err(), Some(ProtocolError::MapFailed));
    assert_eq!(s.create_pool(c, 3, 0).err(), Some(ProtocolError::MapFailed));
    assert_eq!(
        s.create_pool(c, 3, config().max_pool_len + 1).err(),
        Some(ProtocolError::TooLarge)
    );
    // Carving out of something that is not a pool names a pool reference.
    let surf = s.create_surface(c).unwrap();
    let g = BufferGeometry {
        offset: 0,
        width: 1,
        height: 1,
        stride: 4,
        format: PixelFormat::Argb8888,
    };
    assert_eq!(s.carve_buffer(c, surf, &g), Err(ProtocolError::UnknownPoolReference));
    assert_eq!(s.carve_buffer(c, 77, &g), Err(ProtocolError::UnknownPoolReference));
}

#[test]
fn slow_client_is_disconnected_at_ceiling() {
    // Ceiling of three queued frames: the fourth overflows and the client
    // is gone with SlowClient.
    let mut s = Server::new(ServerConfig {
        max_clients: 4,
        max_pool_len: 4096,
        outbound_ceiling: 3,
    });
    let c = s.accept_client(1).unwrap();
    for i in 0..3 {
        s.queue_event(c, Event::ObjectCreated { id: i + 1 }).unwrap();
    }
    assert_eq!(
        s.queue_event(c, Event::ObjectCreated { id: 4 }),
        Err(ProtocolError::SlowClient)
    );
    // The client and everything it owned are gone.
    assert!(!s.registry.contains(c));
    assert_eq!(s.queue_event(c, Event::ObjectCreated { id: 5 }), Err(ProtocolError::UnknownObject));
    assert!(!s.disconnect(c));
}

#[test]
fn feed_is_restartable_across_splits() {
    // Feeding two messages in one piece and split at every byte boundary
    // extracts the same messages.
    let mut whole = frame(0, 1, &[]);
    whole.extend_from_slice(&frame(7, 2, &[1, 2, 3, 4]));
    let mut reference = Dispatcher::new();
    let ref_out = reference.feed(&whole);
    assert!(!ref_out.malformed);
    assert_eq!(ref_out.messages.len(), 2);
    for cut in 0..whole.len() {
        let mut d = Dispatcher::new();
        let first = d.feed(&whole[..cut]);
        assert!(!first.malformed);
        let second = d.feed(&whole[cut..]);
        assert!(!second.malformed);
        let mut all = first.messages;
        all.extend(second.messages);
        assert_eq!(all.len(), 2);
        for (got, want) in all.iter().zip(ref_out.messages.iter()) {
            assert_eq!(got.object_id, want.object_id);
            assert_eq!(got.opcode, want.opcode);
            assert_eq!(got.body, want.body);
        }
        assert_eq!(d.buf.len(), 0);
    }
}

#[test]
fn malformed_frame_is_flagged() {
    let mut d = Dispatcher::new();
    // size field of 7 is smaller than a header
    let out = d.feed(&[0, 0, 0, 0, 0, 0, 7, 0]);
    assert!(out.malformed);
    assert!(out.messages.is_empty());
}

#[test]
fn handle_readable_routes_and_replies() {
    let mut s = Server::new(config());
    let c = s.accept_client(1).unwrap();
    // create a surface by wire message
    let notes = s.handle_readable(c, &frame(0, 1, &[]), -1);
    assert!(notes.is_empty());
    assert!(s.objects.resolve(c, 1).is_ok());
    // the created-object reply is queued: object 0, opcode 0, id 1
    let reply = s.outbound_front(c).unwrap();
    assert_eq!(reply, vec![0, 0, 0, 0, 0, 0, 12, 0, 1, 0, 0, 0]);
    // commit the surface by wire message and observe the notification
    let notes = s.handle_readable(c, &frame(1, 1, &[]), -1);
    assert_eq!(notes.len(), 1);
    assert!(matches!(notes[0], Notification::SurfaceCommitted { surface: 1, .. }));
}

#[test]
fn handle_readable_is_restartable_across_splits() {
    // The same create-pool-then-carve conversation, split at an arbitrary
    // byte boundary, ends in the same state as fed whole.
    let mut body = Vec::new();
    body.extend_from_slice(&4096u64.to_le_bytes());
    let create_pool = frame(0, 0, &body);
    let mut stream = create_pool.clone();
    stream.extend_from_slice(&frame(0, 1, &[]));
    let mut s1 = Server::new(config());
    let c1 = s1.accept_client(1).unwrap();
    s1.handle_readable(c1, &stream, 5);
    let mut s2 = Server::new(config());
    let c2 = s2.accept_client(1).unwrap();
    s2.handle_readable(c2, &stream[..13], 5);
    s2.handle_readable(c2, &stream[13..], 5);
    assert_eq!(s1.objects.entries.len(), 2);
    assert_eq!(s2.objects.entries.len(), 2);
    assert!(s1.objects.resolve(c1, 2).is_ok());
    assert!(s2.objects.resolve(c2, 2).is_ok());
    assert_eq!(s1.pools.pools.len(), 1);
    assert_eq!(s2.pools.pools.len(), 1);
}

#[test]
fn misaddressed_message_disconnects() {
    let mut s = Server::new(config());
    let c = s.accept_client(1).unwrap();
    // a message to an object the client never created
    s.handle_readable(c, &frame(9, 0, &[0, 0, 0, 0]), -1);
    assert!(!s.registry.contains(c));
    // stale readiness afterwards is a no-op
    let notes = s.handle_readable(c, &frame(0, 1, &[]), -1);
    assert!(notes.is_empty());
}

#[test]
fn malformed_stream_disconnects() {
    let mut s = Server::new(config());
    let c = s.accept_client(1).unwrap();
    s.handle_readable(c, &[0, 0, 0, 0, 0, 0, 2, 0], -1);
    assert!(!s.registry.contains(c));
}

#[test]
fn outbound_flush_handles_partial_writes() {
    let mut s = Server::new(config());
    let c = s.accept_client(1).unwrap();
    s.queue_event(c, Event::BufferReleased { id: 3 }).unwrap();
    let front = s.outbound_front(c).unwrap();
    assert_eq!(front.len(), 12);
    assert_eq!(front[4], 2);
    // a short write of 5 bytes leaves the remainder queued
    s.outbound_advance(c, 5);
    let rest = s.outbound_front(c).unwrap();
    assert_eq!(rest.len(), 7);
    assert_eq!(&front[5..], &rest[..]);
    s.outbound_advance(c, 7);
    assert!(s.outbound_front(c).is_none());
}

#[test]
fn event_encoding_is_exact() {
    assert_eq!(
        Event::ObjectCreated { id: 0x0403_0201 }.encode(),
        vec![0, 0, 0, 0, 0, 0, 12, 0, 1, 2, 3, 4]
    );
    assert_eq!(
        Event::RequestFailed { code: 8 }.encode(),
        vec![0, 0, 0, 0, 1, 0, 12, 0, 8, 0, 0, 0]
    );
}

#[test]
fn error_classification() {
    assert!(!ProtocolError::TooManyClients.is_fatal());
    assert!(!ProtocolError::TooManyObjects.is_fatal());
    assert!(!ProtocolError::TooLarge.is_fatal());
    assert!(!ProtocolError::MapFailed.is_fatal());
    assert!(!ProtocolError::DuplicateSource.is_fatal());
    assert!(ProtocolError::UnknownObject.is_fatal());
    assert!(ProtocolError::UnknownPoolReference.is_fatal());
    assert!(ProtocolError::InvalidGeometry.is_fatal());
    assert!(ProtocolError::OutOfBounds.is_fatal());
    assert!(ProtocolError::ShrinkViolatesBuffer.is_fatal());
    assert!(ProtocolError::ProtocolViolation.is_fatal());
    assert!(ProtocolError::SlowClient.is_fatal());
    assert_eq!(ProtocolError::OutOfBounds.wire_code(), 10);
    assert_eq!(ProtocolError::SlowClient.describe(), "outbound queue ceiling exceeded");
}

#[test]
fn rejected_request_gets_reply_not_disconnect() {
    // An oversized pool is a resource failure: the request is rejected with
    // a reply event and the connection lives on.
    let mut s = Server::new(config());
    let c = s.accept_client(1).unwrap();
    let mut body = Vec::new();
    body.extend_from_slice(&(config().max_pool_len + 1).to_le_bytes());
    s.handle_readable(c, &frame(0, 0, &body), 5);
    assert!(s.registry.contains(c));
    let reply = s.outbound_front(c).unwrap();
    // RequestFailed carries the TooLarge code
    assert_eq!(reply[4], 1);
    assert_eq!(reply[8], ProtocolError::TooLarge.wire_code() as u8);
}

#[test]
fn identifier_allocation_within_namespace() {
    // Identifiers climb one past the highest owned; destroying the highest
    // frees its number for reuse.
    let mut s = Server::new(config());
    let c = s.accept_client(1).unwrap();
    assert_eq!(s.create_surface(c).unwrap(), 1);
    assert_eq!(s.create_surface(c).unwrap(), 2);
    s.destroy_object(c, 2).unwrap();
    assert_eq!(s.create_surface(c).unwrap(), 2);
    s.destroy_object(c, 1).unwrap();
    assert_eq!(s.create_surface(c).unwrap(), 3);
}

#[test]
fn zero_height_buffer_touches_nothing() {
    // The bounds rule is exact: a zero-height buffer's last byte is before
    // its offset, so it fits any pool.
    let mut s = Server::new(config());
    let c = s.accept_client(1).unwrap();
    let pool = s.create_pool(c, 3, 1).unwrap();
    let g = BufferGeometry {
        offset: 0,
        width: 1,
        height: 0,
        stride: 8,
        format: PixelFormat::Argb8888,
    };
    assert!(s.carve_buffer(c, pool, &g).is_ok());
}

#[test]
fn fatal_error_touches_only_the_offender() {
    // One client misbehaves; the other's objects, pools and queue survive
    // untouched and keep working.
    let mut s = Server::new(config());
    let a = s.accept_client(1).unwrap();
    let b = s.accept_client(2).unwrap();
    let surf_b = s.create_surface(b).unwrap();
    let pool_b = s.create_pool(b, 3, 4096).unwrap();
    s.queue_event(b, Event::ObjectCreated { id: surf_b }).unwrap();
    // a addresses an object it never created: fatal, a is gone
    s.handle_readable(a, &frame(5, 0, &[]), -1);
    assert!(!s.registry.contains(a));
    // b is untouched: still live, objects resolve, queue intact, work goes on
    assert!(s.registry.contains(b));
    assert!(s.objects.resolve(b, surf_b).is_ok());
    assert!(s.objects.resolve(b, pool_b).is_ok());
    assert!(s.outbound_front(b).is_some());
    assert!(s.commit_surface(b, surf_b).is_ok());
}
