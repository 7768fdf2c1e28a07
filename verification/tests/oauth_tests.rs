use functions::oauth::{
    access_key, access_to_revoke, after_session_lookup, check_access_policy, check_access_token_type,
    check_refresh_claims, environment_from, login_fail_key, map_scope, refresh_key, refresh_mode, role_code,
    AccessDenied, AccessPolicyItem, AccessSource, LastDevice, OauthScopeType, SessionLookup, StoreState,
    SystemUserRole, TokenError,
};

#[test]
fn role_codes() {
    assert_eq!(role_code(SystemUserRole::Admin), "ADMIN");
    assert_eq!(role_code(SystemUserRole::MapManager), "MAP_MANAGER");
    assert_eq!(role_code(SystemUserRole::MapBeta), "MAP_NEIGUI");
    assert_eq!(role_code(SystemUserRole::MapPunctuate), "MAP_PUNCTUATE");
    assert_eq!(role_code(SystemUserRole::MapUser), "MAP_USER");
    assert_eq!(role_code(SystemUserRole::Visitor), "VISITOR");
}

#[test]
fn environment_defaults_to_dev() {
    assert_eq!(environment_from(None), "dev");
    assert_eq!(environment_from(Some("   ")), "dev");
    assert_eq!(environment_from(Some(" PROD\n")), "prod");
    assert_eq!(environment_from(Some("Staging")), "staging");
}

#[test]
fn scope_mapping() {
    assert!(matches!(map_scope(""), Ok(OauthScopeType::All)));
    assert!(matches!(map_scope("  ALL "), Ok(OauthScopeType::All)));
    match map_scope(" Read ") {
        Err(e) => {
            assert_eq!(e.scope, "read");
            assert_eq!(e.message(), "Unsupported scope: read");
        },
        Ok(_) => panic!("scope accepted"),
    }
}

fn last(ip: Option<&str>, dev: &str) -> Option<LastDevice> {
    Some(LastDevice { ipv4: ip.map(|s| s.to_string()), device_id: dev.to_string() })
}

#[test]
fn access_policy_in_order() {
    let ps = vec![AccessPolicyItem::IpSameLastIp, AccessPolicyItem::DevSameLastDevice];
    assert_eq!(check_access_policy(&ps, &last(Some("1.1.1.1"), "ua"), "1.1.1.1", "ua", false, false), Ok(()));
    assert_eq!(
        check_access_policy(&ps, &last(Some("1.1.1.1"), "ua"), "2.2.2.2", "other", false, false),
        Err(AccessDenied::IpMismatch)
    );
    assert_eq!(
        check_access_policy(&ps, &last(None, "ua"), "2.2.2.2", "other", false, false),
        Err(AccessDenied::DeviceMismatch)
    );
    assert_eq!(check_access_policy(&ps, &None, "2.2.2.2", "other", true, true), Ok(()));
    let blocks = vec![AccessPolicyItem::Unchecked, AccessPolicyItem::DevBlockDisallowDevice, AccessPolicyItem::IpBlockDisallowIp];
    assert_eq!(check_access_policy(&blocks, &None, "ip", "ua", true, true), Err(AccessDenied::DeviceBlocked));
    assert_eq!(check_access_policy(&blocks, &None, "ip", "ua", true, false), Err(AccessDenied::IpBlocked));
    assert_eq!(check_access_policy(&blocks, &None, "ip", "ua", false, false), Ok(()));
}

#[test]
fn session_keys() {
    assert_eq!(access_key(42, "abc"), "jwt:access:42:abc");
    assert_eq!(refresh_key(-3, "x"), "jwt:refresh:-3:x");
    assert_eq!(login_fail_key("10.0.0.1"), "login_fail:10.0.0.1");
}

#[test]
fn access_token_decisions() {
    assert_eq!(check_access_token_type(&Some("refresh".into())), Err(TokenError::RefreshAsAccess));
    assert_eq!(check_access_token_type(&Some("access".into())), Ok(()));
    assert_eq!(check_access_token_type(&None), Ok(()));
    assert_eq!(after_session_lookup(SessionLookup::Hit, true, 5), Ok(AccessSource::Cached));
    assert_eq!(after_session_lookup(SessionLookup::Missing, false, 5), Err(TokenError::Revoked));
    assert_eq!(after_session_lookup(SessionLookup::Unavailable, true, 5), Err(TokenError::RedisUnavailable));
    assert_eq!(after_session_lookup(SessionLookup::Unavailable, false, 0), Ok(AccessSource::Anonymous));
    assert_eq!(after_session_lookup(SessionLookup::NoStore, true, 7), Ok(AccessSource::UserTable));
    assert_eq!(TokenError::Revoked.message(), "Token revoked");
}

#[test]
fn refresh_decisions() {
    assert_eq!(check_refresh_claims(&None, 5), Err(TokenError::NotRefresh));
    assert_eq!(check_refresh_claims(&Some("access".into()), 5), Err(TokenError::NotRefresh));
    assert_eq!(check_refresh_claims(&Some("refresh".into()), 0), Err(TokenError::AnonymousRefresh));
    assert_eq!(check_refresh_claims(&Some("refresh".into()), 5), Ok(()));
    assert!(matches!(refresh_mode(StoreState::Connected, true), Ok(_)));
    assert_eq!(refresh_mode(StoreState::NoStore, true), Err(TokenError::RedisUnavailable));
    assert!(matches!(refresh_mode(StoreState::ConnectFailed, false), Ok(functions::oauth::RefreshMode::IssueOnly)));
    assert_eq!(access_to_revoke(5, &None), Err(TokenError::RefreshUsed));
    assert_eq!(access_to_revoke(5, &Some(String::new())), Ok(None));
    assert_eq!(access_to_revoke(5, &Some("j1".into())), Ok(Some("jwt:access:5:j1".to_string())));
}

#[test]
fn access_and_refresh_keys_never_collide() {
    assert_ne!(access_key(1, "x"), refresh_key(1, "x"));
    assert_ne!(access_key(7, "j"), refresh_key(7, "j"));
}
