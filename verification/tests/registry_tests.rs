use maze_wars::registry::Registry;

#[test]
fn register_creates_and_overwrites() {
    let mut r = Registry::new();
    r.register(b"ann".to_vec(), b"10.0.0.1:4000".to_vec(), 100);
    assert_eq!(r.len(), 1);
    // last registration for a name wins
    r.register(b"ann".to_vec(), b"10.0.0.2:5000".to_vec(), 200);
    assert_eq!(r.len(), 1);
    assert_eq!(r.peers[0].address, b"10.0.0.2:5000".to_vec());
    assert_eq!(r.peers[0].last_seen, 200);
}

#[test]
fn register_is_idempotent() {
    let mut r = Registry::new();
    r.register(b"ann".to_vec(), b"10.0.0.1:4000".to_vec(), 100);
    r.register(b"bob".to_vec(), b"10.0.0.2:5000".to_vec(), 100);
    r.register(b"bob".to_vec(), b"10.0.0.2:5000".to_vec(), 100);
    r.register(b"bob".to_vec(), b"10.0.0.2:5000".to_vec(), 100);
    assert_eq!(r.len(), 2);
    assert_eq!(r.peers[1].name, b"bob".to_vec());
    assert_eq!(r.peers[1].address, b"10.0.0.2:5000".to_vec());
}

#[test]
fn touch_refreshes_and_ignores_unknown() {
    let mut r = Registry::new();
    r.register(b"ann".to_vec(), b"10.0.0.1:4000".to_vec(), 100);
    r.touch(&b"ann".to_vec(), 900);
    assert_eq!(r.peers[0].last_seen, 900);
    // a ping from a name that is not registered is ignored, not an error
    r.touch(&b"ghost".to_vec(), 900);
    assert_eq!(r.len(), 1);
}

#[test]
fn sweep_liveness_boundaries() {
    // liveness: touched at t0, a sweep just before t0 + timeout evicts
    // nothing; one just after evicts the peer.
    let timeout = 2000u64;
    let t0 = 10_000u64;
    let mut r = Registry::new();
    r.register(b"owner".to_vec(), b"10.0.0.1:4000".to_vec(), t0);
    r.register(b"bob".to_vec(), b"10.0.0.2:5000".to_vec(), t0);

    let evicted = r.sweep(timeout, t0 + timeout - 1);
    assert!(evicted.is_empty());
    assert_eq!(r.len(), 2);

    // exactly at the deadline nothing goes either (strictly-older rule)
    let evicted = r.sweep(timeout, t0 + timeout);
    assert!(evicted.is_empty());
    assert_eq!(r.len(), 2);

    let evicted = r.sweep(timeout, t0 + timeout + 1);
    assert_eq!(evicted, vec![b"bob".to_vec()]);
    assert_eq!(r.len(), 1);
    assert_eq!(r.peers[0].name, b"owner".to_vec());
}

#[test]
fn sweep_twice_is_idempotent() {
    let mut r = Registry::new();
    r.register(b"owner".to_vec(), b"10.0.0.1:4000".to_vec(), 0);
    r.register(b"bob".to_vec(), b"10.0.0.2:5000".to_vec(), 0);
    r.register(b"cid".to_vec(), b"10.0.0.3:6000".to_vec(), 5_000);
    let now = 4_000u64;
    let first = r.sweep(2_000, now);
    assert_eq!(first, vec![b"bob".to_vec()]);
    // run again immediately: nothing new leaves
    let second = r.sweep(2_000, now);
    assert!(second.is_empty());
    assert_eq!(r.len(), 2);
}

#[test]
fn owner_is_never_evicted() {
    // owner exemption: the first-registered peer survives regardless of
    // elapsed time
    let mut r = Registry::new();
    r.register(b"owner".to_vec(), b"10.0.0.1:4000".to_vec(), 0);
    r.register(b"bob".to_vec(), b"10.0.0.2:5000".to_vec(), 0);
    let evicted = r.sweep(2_000, u64::MAX);
    assert_eq!(evicted, vec![b"bob".to_vec()]);
    assert_eq!(r.len(), 1);
    assert_eq!(r.peers[0].name, b"owner".to_vec());
    // even after rejoining and timing out again, the owner stays the owner
    let evicted = r.sweep(2_000, u64::MAX);
    assert!(evicted.is_empty());
    assert_eq!(r.len(), 1);
}

#[test]
fn broadcast_targets_snapshot() {
    let mut r = Registry::new();
    r.register(b"ann".to_vec(), b"10.0.0.1:4000".to_vec(), 0);
    r.register(b"bob".to_vec(), b"10.0.0.2:5000".to_vec(), 0);
    let targets = r.broadcast_targets();
    assert_eq!(targets, vec![b"10.0.0.1:4000".to_vec(), b"10.0.0.2:5000".to_vec()]);
}
