use functions::rate_limit::{
    check_login_rate_limit_local, count_local, login_gate, needs_expiry, rate_key, rate_verdict,
    record_login_failure_local, sweep_stale_entries, window_count, FailureTable, LoginGate, RateEntry, RateLimited,
    RateTable,
};

#[test]
fn counts_in_a_fixed_window_anchored_at_first_count() {
    let mut t = RateTable { entries: Vec::new() };
    assert_eq!(count_local(&mut t, "rl:reg:1.2.3.4", 60, 1000), 1);
    assert_eq!(count_local(&mut t, "rl:reg:1.2.3.4", 60, 1010), 2);
    assert_eq!(count_local(&mut t, "rl:reg:1.2.3.4", 60, 1059), 3);
    assert_eq!(t.entries[0].expires_at, 1060);
    assert_eq!(count_local(&mut t, "rl:reg:1.2.3.4", 60, 1060), 1);
    assert_eq!(t.entries[0].expires_at, 1120);
    assert_eq!(count_local(&mut t, "rl:other", 60, 1061), 1);
    assert_eq!(t.entries.len(), 2);
}

#[test]
fn sweep_drops_ended_windows() {
    let mut t = RateTable {
        entries: vec![
            RateEntry { key: "a".into(), count: 1, expires_at: 10 },
            RateEntry { key: "b".into(), count: 2, expires_at: 20 },
            RateEntry { key: "c".into(), count: 3, expires_at: 11 },
        ],
    };
    sweep_stale_entries(&mut t, 11);
    assert_eq!(t.entries.len(), 1);
    assert_eq!(t.entries[0].key, "b");
}

#[test]
fn limit_refuses_above_the_limit() {
    assert_eq!(rate_verdict(5, 5), Ok(()));
    assert_eq!(rate_verdict(6, 5), Err(RateLimited::TooManyRequests));
    assert_eq!(RateLimited::TooManyRequests.message(), "Too many requests; please try again later");
    assert_eq!(rate_key("register", "10.0.0.1"), "rl:register:10.0.0.1");
}

#[test]
fn redis_window_counts() {
    assert_eq!(window_count(true, 99), 1);
    assert_eq!(window_count(false, 4), 4);
    assert_eq!(window_count(false, -3), 0);
    assert!(needs_expiry(false, 1));
    assert!(!needs_expiry(false, 2));
    assert!(!needs_expiry(true, 1));
}

#[test]
fn login_failures_lock_out_after_five_in_a_minute() {
    let mut t = FailureTable { entries: Vec::new() };
    for i in 0..5 {
        assert_eq!(check_login_rate_limit_local(&mut t, "1.1.1.1", 100 + i), Ok(()));
        record_login_failure_local(&mut t, "1.1.1.1", 100 + i);
    }
    assert_eq!(check_login_rate_limit_local(&mut t, "1.1.1.1", 150), Err(RateLimited::TooManyLoginFailures));
    assert_eq!(check_login_rate_limit_local(&mut t, "2.2.2.2", 150), Ok(()));
    assert_eq!(check_login_rate_limit_local(&mut t, "1.1.1.1", 160), Ok(()));
    assert_eq!(login_gate(Some(5)), LoginGate::Refuse);
    assert_eq!(login_gate(Some(4)), LoginGate::Allow);
    assert_eq!(login_gate(None), LoginGate::UseLocal);
}

#[test]
fn login_checks_do_not_count() {
    let mut t = FailureTable { entries: Vec::new() };
    for i in 0..10 {
        assert_eq!(check_login_rate_limit_local(&mut t, "3.3.3.3", 200 + i), Ok(()));
    }
    for i in 0..4 {
        record_login_failure_local(&mut t, "3.3.3.3", 210 + i);
    }
    assert_eq!(check_login_rate_limit_local(&mut t, "3.3.3.3", 215), Ok(()));
    assert_eq!(t.entries[0].count, 4);
    record_login_failure_local(&mut t, "3.3.3.3", 216);
    assert_eq!(check_login_rate_limit_local(&mut t, "3.3.3.3", 259), Err(RateLimited::TooManyLoginFailures));
}
