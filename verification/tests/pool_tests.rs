use pux::pool::{Acquire, PoolState, DEFAULT_FORCE_USE_MS, SWEEP_IDLE_MS};

#[test]
fn fresh_pool_is_empty() {
    let p = PoolState::new(3);
    assert_eq!(p.addr_count(), 3);
    assert_eq!(p.idle_len(), 0);
    for a in 0..3 {
        assert_eq!(p.conn_count_at(a), 0);
    }
}

#[test]
fn select_on_empty_idle_returns_none() {
    let mut p = PoolState::new(1);
    assert_eq!(p.select(100), None);
}

#[test]
fn acquire_on_empty_pool_opens_fresh_connection() {
    let mut p = PoolState::new(1);
    match p.acquire(0) {
        Acquire::Open { id, addr } => {
            assert_eq!(id, 0);
            assert_eq!(addr, 0);
        }
        Acquire::Reuse { .. } => panic!("nothing was idle"),
    }
    assert_eq!(p.conn_count_at(0), 1);
}

#[test]
fn second_request_reuses_idle_connection() {
    // one address, one connection: the second request must not open
    let mut p = PoolState::new(1);
    let id = match p.acquire(0) {
        Acquire::Open { id, .. } => id,
        Acquire::Reuse { .. } => panic!("nothing was idle"),
    };
    p.push(id, 5);
    match p.acquire(6) {
        Acquire::Reuse { id: got } => assert_eq!(got, id),
        Acquire::Open { .. } => panic!("an idle connection was available"),
    }
    assert_eq!(p.conn_count_at(0), 1);
}

#[test]
fn least_loaded_address_is_chosen() {
    let mut p = PoolState::new(2);
    let a1 = match p.acquire(0) {
        Acquire::Open { addr, .. } => addr,
        Acquire::Reuse { .. } => panic!("nothing was idle"),
    };
    let a2 = match p.acquire(0) {
        Acquire::Open { addr, .. } => addr,
        Acquire::Reuse { .. } => panic!("nothing was idle"),
    };
    // the two opens must go to the two different addresses
    assert_ne!(a1, a2);
    assert_eq!(p.conn_count_at(0), 1);
    assert_eq!(p.conn_count_at(1), 1);
}

#[test]
fn select_prefers_entry_past_force_use_threshold() {
    let mut p = PoolState::new(1);
    let id_old = match p.acquire(0) {
        Acquire::Open { id, .. } => id,
        Acquire::Reuse { .. } => panic!("nothing was idle"),
    };
    let id_new = match p.acquire(0) {
        Acquire::Open { id, .. } => id,
        Acquire::Reuse { .. } => panic!("nothing was idle"),
    };
    let now = 1000;
    p.push(id_old, now - DEFAULT_FORCE_USE_MS); // old enough to force
    p.push(id_new, now - 1); // fresh
    let e = p.select(now).expect("idle list is not empty");
    assert_eq!(e.id, id_old);
}

#[test]
fn select_returns_oldest_when_nothing_forces() {
    let mut p = PoolState::new(1);
    let id_a = match p.acquire(0) {
        Acquire::Open { id, .. } => id,
        Acquire::Reuse { .. } => panic!("nothing was idle"),
    };
    let id_b = match p.acquire(0) {
        Acquire::Open { id, .. } => id,
        Acquire::Reuse { .. } => panic!("nothing was idle"),
    };
    let now = 1000;
    p.push(id_b, now - 3);
    p.push(id_a, now - 5); // older, but neither is past the threshold
    let e = p.select(now).expect("idle list is not empty");
    assert_eq!(e.id, id_a);
}

#[test]
fn dead_connection_cleanup_never_grows_the_address_list() {
    // a request completes, the origin closes its side: the liveness
    // probe fails and the id is detached; the next request opens fresh
    let mut p = PoolState::new(1);
    let id = match p.acquire(0) {
        Acquire::Open { id, .. } => id,
        Acquire::Reuse { .. } => panic!("nothing was idle"),
    };
    assert_eq!(p.conn_count_at(0), 1);
    p.remove_conn(id); // probe failed
    assert_eq!(p.conn_count_at(0), 0);
    match p.acquire(100) {
        Acquire::Open { id: id2, addr } => {
            assert_ne!(id2, id);
            assert_eq!(addr, 0);
        }
        Acquire::Reuse { .. } => panic!("nothing was idle"),
    }
    assert_eq!(p.conn_count_at(0), 1);
}

#[test]
fn open_failure_detaches_the_fresh_id() {
    let mut p = PoolState::new(1);
    let id = match p.acquire(0) {
        Acquire::Open { id, .. } => id,
        Acquire::Reuse { .. } => panic!("nothing was idle"),
    };
    p.remove_conn(id); // TCP connect failed
    assert_eq!(p.conn_count_at(0), 0);
    assert_eq!(p.idle_len(), 0);
}

#[test]
fn sweeper_removes_stale_idle_connections() {
    let mut p = PoolState::new(1);
    let id = match p.acquire(0) {
        Acquire::Open { id, .. } => id,
        Acquire::Reuse { .. } => panic!("nothing was idle"),
    };
    p.push(id, 0);
    let now = SWEEP_IDLE_MS + 1; // idle_since 0 < now - threshold
    p.clean(now);
    assert_eq!(p.idle_len(), 0);
    assert_eq!(p.conn_count_at(0), 0);
    // a subsequent request opens a new connection
    match p.acquire(now) {
        Acquire::Open { id: id2, .. } => assert_ne!(id2, id),
        Acquire::Reuse { .. } => panic!("the stale connection was swept"),
    }
}

#[test]
fn sweeper_keeps_fresh_idle_connections() {
    let mut p = PoolState::new(1);
    let id = match p.acquire(0) {
        Acquire::Open { id, .. } => id,
        Acquire::Reuse { .. } => panic!("nothing was idle"),
    };
    let now = SWEEP_IDLE_MS + 500;
    p.push(id, now - SWEEP_IDLE_MS); // exactly at the cutoff: kept
    p.clean(now);
    assert_eq!(p.idle_len(), 1);
    assert_eq!(p.conn_count_at(0), 1);
}

#[test]
fn sweeper_is_selective() {
    let mut p = PoolState::new(1);
    let id_stale = match p.acquire(0) {
        Acquire::Open { id, .. } => id,
        Acquire::Reuse { .. } => panic!("nothing was idle"),
    };
    let id_fresh = match p.acquire(0) {
        Acquire::Open { id, .. } => id,
        Acquire::Reuse { .. } => panic!("nothing was idle"),
    };
    let now = 2 * SWEEP_IDLE_MS;
    p.push(id_stale, 0);
    p.push(id_fresh, now - 1);
    p.clean(now);
    assert_eq!(p.idle_len(), 1);
    assert_eq!(p.conn_count_at(0), 1);
    let e = p.select(now).expect("the fresh entry stays");
    assert_eq!(e.id, id_fresh);
}

#[test]
fn ids_are_unique_over_the_pool_lifetime() {
    let mut p = PoolState::new(1);
    let mut seen = Vec::new();
    for round in 0..5u64 {
        let id = match p.acquire(round) {
            Acquire::Open { id, .. } => id,
            Acquire::Reuse { .. } => panic!("idle list is kept empty"),
        };
        assert!(!seen.contains(&id));
        seen.push(id);
        p.remove_conn(id);
    }
}
