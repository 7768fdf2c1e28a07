use functions::invitation::{
    consume_password, consume_result_word, consume_step, consume_username, invitation_role, invited_role,
    new_invitation_code, saturating_offset, ConsumeStep, InviteError,
};
use functions::oauth::SystemUserRole;
use functions::user::{kick_out_patterns, user_page_window, UserError};

#[test]
fn invitation_roles() {
    assert_eq!(invitation_role(0), Err(InviteError::AdminRole));
    assert_eq!(invitation_role(2), Ok(SystemUserRole::MapBeta));
    assert_eq!(invitation_role(5), Ok(SystemUserRole::Visitor));
    assert_eq!(invitation_role(6), Err(InviteError::InvalidRole));
    assert_eq!(InviteError::InvalidRole.message(), "Invalid role id");
    assert_eq!(invited_role(Some(SystemUserRole::Admin)), SystemUserRole::MapUser);
    assert_eq!(invited_role(None), SystemUserRole::MapUser);
    assert_eq!(invited_role(Some(SystemUserRole::MapManager)), SystemUserRole::MapManager);
}

#[test]
fn invitation_codes() {
    let c = new_invitation_code();
    assert_eq!(c.len(), 12);
    assert!(c.chars().all(|ch| ch.is_ascii_hexdigit() && !ch.is_ascii_uppercase()));
}

#[test]
fn redeem_defaults() {
    assert_eq!(consume_username("abc", None), "abc");
    assert_eq!(consume_username("abc", Some("")), "abc");
    assert_eq!(consume_username("abc", Some("bob")), "bob");
    assert_eq!(consume_password("abc", None, 17), "abc_17");
    assert_eq!(consume_password("abc", Some("pw"), 17), "pw");
    assert_eq!(consume_step(0, None), Err(InviteError::AlreadyConsumed));
    assert_eq!(consume_step(1, Some(7)), Ok(ConsumeStep::Existing(7)));
    assert_eq!(consume_step(1, None), Ok(ConsumeStep::Create));
    assert_eq!(consume_result_word(ConsumeStep::Create), "SUCCESS");
    assert_eq!(consume_result_word(ConsumeStep::Existing(1)), "EXISTING");
}

#[test]
fn offsets() {
    assert_eq!(saturating_offset(10, 0), 0);
    assert_eq!(saturating_offset(10, 3), 20);
    assert_eq!(saturating_offset(u64::MAX, 3), u64::MAX);
    assert_eq!(user_page_window(None, None), (10, 0));
    assert_eq!(user_page_window(Some(500), Some(2)), (500, 500));
}

#[test]
fn kick_out_keys() {
    assert_eq!(
        kick_out_patterns("42"),
        Ok(("jwt:access:42:*".to_string(), "jwt:refresh:42:*".to_string()))
    );
    assert_eq!(kick_out_patterns("x42"), Err(UserError::InvalidUserId));
    assert_eq!(UserError::InvalidUserId.message(), "Invalid user id");
}
