use functions::ws::{DebounceTable, SessionRegistry, WsError, WS_USER_CONNECTION_LIMIT};

#[test]
fn register_broadcast_and_guard_removal() {
    let mut reg = SessionRegistry::new();
    let c1 = reg.register("u1").expect("u1 register");
    let c2 = reg.register("u2").expect("u2 register");
    assert_eq!(reg.broadcast_targets(), vec![("u1".to_string(), c1), ("u2".to_string(), c2)]);
    assert_eq!(reg.user_targets(&vec!["u1".to_string()]), vec![("u1".to_string(), c1)]);
    reg.remove("u1", c1);
    reg.remove("u2", c2);
    assert!(reg.broadcast_targets().is_empty());
    assert!(reg.sessions.is_empty());
}

#[test]
fn per_user_connection_limit() {
    let mut reg = SessionRegistry::new();
    let mut ids = Vec::new();
    for _ in 0..WS_USER_CONNECTION_LIMIT {
        ids.push(reg.register("lim").expect("within per-user limit"));
    }
    match reg.register("lim") {
        Err(e) => assert_eq!(e.message(), "too many connections for this user"),
        Ok(_) => panic!("9th connection for the same user must be rejected"),
    }
    for id in ids {
        reg.remove("lim", id);
    }
    assert!(reg.register("lim").is_ok());
}

#[test]
fn global_connection_limit() {
    let mut reg = SessionRegistry::new();
    for i in 0..2048 {
        reg.register(&format!("user{}", i)).expect("within global limit");
    }
    assert_eq!(reg.connection_count(), 2048);
    assert_eq!(reg.register("one-more").err(), Some(WsError::GlobalLimit));
    assert_eq!(WsError::GlobalLimit.message(), "too many websocket connections");
}

#[test]
fn removing_an_unknown_connection_changes_nothing() {
    let mut reg = SessionRegistry::new();
    let c = reg.register("u").unwrap();
    reg.remove("u", c + 100);
    reg.remove("v", c);
    assert_eq!(reg.broadcast_targets(), vec![("u".to_string(), c)]);
}

#[test]
fn purge_broadcasts_are_debounced() {
    let mut t = DebounceTable::new();
    assert!(t.allow("MarkerBinaryPurged", 1_000, 30_000));
    assert!(!t.allow("MarkerBinaryPurged", 20_000, 30_000));
    assert!(t.allow("ItemBinaryPurged", 20_000, 30_000));
    assert!(t.allow("MarkerBinaryPurged", 31_000, 30_000));
    assert!(!t.allow("MarkerBinaryPurged", 500, 30_000));
}

#[test]
fn undelivered_connections_are_dropped() {
    let mut reg = SessionRegistry::new();
    let a = reg.register("u1").unwrap();
    let b = reg.register("u1").unwrap();
    let c = reg.register("u2").unwrap();
    let targets = reg.broadcast_targets();
    let delivered: Vec<bool> = targets.iter().map(|(_, id)| *id != b && *id != c).collect();
    let dropped = reg.drop_undelivered(&targets, &delivered);
    assert_eq!(dropped, vec![b, c]);
    assert_eq!(reg.connection_count(), 1);
    assert_eq!(reg.broadcast_targets(), vec![("u1".to_string(), a)]);
}
