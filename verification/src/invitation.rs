//! Invitation codes: the role a code grants, fresh codes, and what
//! redeeming a code creates.

use vstd::prelude::*;
use crate::oauth::SystemUserRole;
use crate::link_plan::is_lower_hex;
use crate::text::{chars_of, decimal_string, decimal_text, push_text, slice_to, string_of};

verus! {

/// An invitation request that cannot be served.
#[derive(Clone, Copy, PartialEq, Eq, Structural, Debug)]
pub enum InviteError {
    InvalidRole,
    AdminRole,
    NotFound,
    AlreadyConsumed,
}

impl InviteError {
    /// The message sent back to the client.
    pub fn message(&self) -> (res: &'static str)
        ensures
            res@ == (match *self {
                InviteError::InvalidRole => "Invalid role id"@,
                InviteError::AdminRole => "Admin role cannot be granted via invitation code"@,
                InviteError::NotFound => "Invitation code not found"@,
                InviteError::AlreadyConsumed => "Invitation code already consumed"@,
            }),
    {
        match self {
            InviteError::InvalidRole => "Invalid role id",
            InviteError::AdminRole => "Admin role cannot be granted via invitation code",
            InviteError::NotFound => "Invitation code not found",
            InviteError::AlreadyConsumed => "Invitation code already consumed",
        }
    }
}

/// The role with a numeric id: 0 admin, 1 map manager, 2 map beta tester,
/// 3 map marker, 4 map user, 5 visitor.
pub open spec fn role_with_id(role_id: i64) -> Option<SystemUserRole> {
    if role_id == 0 {
        Some(SystemUserRole::Admin)
    } else if role_id == 1 {
        Some(SystemUserRole::MapManager)
    } else if role_id == 2 {
        Some(SystemUserRole::MapBeta)
    } else if role_id == 3 {
        Some(SystemUserRole::MapPunctuate)
    } else if role_id == 4 {
        Some(SystemUserRole::MapUser)
    } else if role_id == 5 {
        Some(SystemUserRole::Visitor)
    } else {
        None
    }
}

/// The role an invitation with this role id grants, or why it is refused.
pub open spec fn granted_role(role_id: i64) -> Result<SystemUserRole, InviteError> {
    match role_with_id(role_id) {
        None => Err(InviteError::InvalidRole),
        Some(SystemUserRole::Admin) => Err(InviteError::AdminRole),
        Some(r) => Ok(r),
    }
}

/// The role a user redeeming a code with this role gets.
pub open spec fn redeemed_role(role: Option<SystemUserRole>) -> SystemUserRole {
    match role {
        Some(r) => if r == SystemUserRole::Admin { SystemUserRole::MapUser } else { r },
        None => SystemUserRole::MapUser,
    }
}

/// No invitation makes an admin: none is issued with the admin role, and
/// redeeming a code never creates an admin.
pub proof fn invitations_never_make_admins(role_id: i64, stored: Option<SystemUserRole>)
    ensures
        granted_role(role_id) != Ok::<SystemUserRole, InviteError>(SystemUserRole::Admin),
        redeemed_role(stored) != SystemUserRole::Admin,
{
}

/// The role an invitation grants: an unknown id is refused, and so is the
/// admin role.
pub fn invitation_role(role_id: i64) -> (res: Result<SystemUserRole, InviteError>)
    ensures
        res == granted_role(role_id),
{
    let role = if role_id == 0 {
        SystemUserRole::Admin
    } else if role_id == 1 {
        SystemUserRole::MapManager
    } else if role_id == 2 {
        SystemUserRole::MapBeta
    } else if role_id == 3 {
        SystemUserRole::MapPunctuate
    } else if role_id == 4 {
        SystemUserRole::MapUser
    } else if role_id == 5 {
        SystemUserRole::Visitor
    } else {
        return Err(InviteError::InvalidRole);
    };
    if role == SystemUserRole::Admin {
        Err(InviteError::AdminRole)
    } else {
        Ok(role)
    }
}

/// A fresh invitation code: the first 12 hex digits of a random uuid.
pub fn new_invitation_code() -> (res: String)
    ensures
        res@.len() == 12,
        forall|i: int| 0 <= i < 12 ==> is_lower_hex(#[trigger] res@[i]),
{
    let id = crate::link_plan::new_group_id();
    let cs = chars_of(id.as_str());
    let head = slice_to(&cs, 12);
    string_of(&head)
}

/// The user name of a redeemed code: the given one, or the code when it
/// is missing or empty.
pub fn consume_username(code: &str, username: Option<&str>) -> (res: String)
    ensures
        res@ == (match username {
            Some(u) => if u@.len() > 0 { u@ } else { code@ },
            None => code@,
        }),
{
    match username {
        Some(u) => if chars_of(u).len() > 0 {
            u.to_owned()
        } else {
            code.to_owned()
        },
        None => code.to_owned(),
    }
}

/// The password of a redeemed code: the given one, or `{code}_{seconds}`
/// when it is missing or empty.
pub fn consume_password(code: &str, password: Option<&str>, now_secs: i64) -> (res: String)
    ensures
        res@ == (match password {
            Some(p) => if p@.len() > 0 { p@ } else { code@ + "_"@ + decimal_text(now_secs as int) },
            None => code@ + "_"@ + decimal_text(now_secs as int),
        }),
{
    if let Some(p) = password {
        if chars_of(p).len() > 0 {
            return p.to_owned();
        }
    }
    let mut s = String::new();
    push_text(&mut s, code);
    push_text(&mut s, "_");
    let d = decimal_string(now_secs);
    push_text(&mut s, d.as_str());
    s
}

/// The role of a user created from a code: the code's role, but never
/// admin (map user then, and when the code has none).
pub fn invited_role(role: Option<SystemUserRole>) -> (res: SystemUserRole)
    ensures
        res == redeemed_role(role),
{
    match role {
        Some(r) => if r == SystemUserRole::Admin {
            SystemUserRole::MapUser
        } else {
            r
        },
        None => SystemUserRole::MapUser,
    }
}

/// What redeeming a code does once the code is found.
#[derive(Clone, Copy, PartialEq, Eq, Structural, Debug)]
pub enum ConsumeStep {
    /// A user of that name exists: answer with it (`EXISTING`).
    Existing(i64),
    /// Create the user (`SUCCESS`).
    Create,
}

/// The step of a redemption, given how many live invitation rows its
/// claim soft-deleted and the user that already has the name.
pub open spec fn consume_outcome(claimed_rows: u64, existing_user: Option<i64>) -> Result<ConsumeStep, InviteError> {
    if claimed_rows == 0 {
        Err(InviteError::AlreadyConsumed)
    } else {
        match existing_user {
            Some(u) => Ok(ConsumeStep::Existing(u)),
            None => Ok(ConsumeStep::Create),
        }
    }
}

/// Redeeming: a code someone else claimed first is refused; an existing
/// user of the name is answered; otherwise the user is created.
pub fn consume_step(claimed_rows: u64, existing_user: Option<i64>) -> (res: Result<ConsumeStep, InviteError>)
    ensures
        res == consume_outcome(claimed_rows, existing_user),
{
    if claimed_rows == 0 {
        Err(InviteError::AlreadyConsumed)
    } else {
        match existing_user {
            Some(u) => Ok(ConsumeStep::Existing(u)),
            None => Ok(ConsumeStep::Create),
        }
    }
}

/// The rows a redemption's claim soft-deletes: the invitation row while it
/// is live, none once it is not.
pub open spec fn claimed_rows_of(live: bool) -> u64 {
    if live {
        1
    } else {
        0
    }
}

/// Whether the invitation is live after a redemption: the claim is kept
/// only when the user is created; a refusal, or an answer with an existing
/// user, rolls the claim back.
pub open spec fn live_after(live: bool, step: Result<ConsumeStep, InviteError>) -> bool {
    match step {
        Ok(ConsumeStep::Create) => false,
        _ => live,
    }
}

/// An invitation is consumed at most once: a redemption that creates a
/// user leaves the invitation claimed, so every later redemption of the
/// code is refused as already consumed, whatever name it asks for; and a
/// redemption answered with an existing user leaves the invitation live.
pub proof fn invitation_consumed_at_most_once(live: bool, first_user: Option<i64>, later_user: Option<i64>)
    ensures
        ({
            let first = consume_outcome(claimed_rows_of(live), first_user);
            &&& first == Ok::<ConsumeStep, InviteError>(ConsumeStep::Create) ==> consume_outcome(
                claimed_rows_of(live_after(live, first)),
                later_user,
            ) == Err::<ConsumeStep, InviteError>(InviteError::AlreadyConsumed)
            &&& first matches Ok(ConsumeStep::Existing(_)) ==> live_after(live, first) == live
            &&& !live ==> first == Err::<ConsumeStep, InviteError>(InviteError::AlreadyConsumed)
        }),
{
}

/// The result word of a redemption.
pub fn consume_result_word(step: ConsumeStep) -> (res: &'static str)
    ensures
        res@ == (match step {
            ConsumeStep::Existing(_) => "EXISTING"@,
            ConsumeStep::Create => "SUCCESS"@,
        }),
{
    match step {
        ConsumeStep::Existing(_) => "EXISTING",
        ConsumeStep::Create => "SUCCESS",
    }
}

/// A column that lists sort by.
#[derive(Clone, Copy, PartialEq, Eq, Structural, Debug)]
pub enum SortColumn {
    CreateTime,
    Id,
    UpdateTime,
    Username,
    Nickname,
}

/// An order of the invitation list.
#[derive(Clone, Copy, PartialEq, Eq, Structural, Debug)]
pub enum InvitationSort {
    CreateTime,
    CreateTimeReverse,
    Id,
    IdReverse,
    UpdateTime,
    UpdateTimeReverse,
    Username,
    UsernameReverse,
}

/// The column and direction (descending when `true`) of an order.
pub fn invitation_sort(s: InvitationSort) -> (res: (SortColumn, bool))
    ensures
        res == (match s {
            InvitationSort::CreateTime => (SortColumn::CreateTime, false),
            InvitationSort::CreateTimeReverse => (SortColumn::CreateTime, true),
            InvitationSort::Id => (SortColumn::Id, false),
            InvitationSort::IdReverse => (SortColumn::Id, true),
            InvitationSort::UpdateTime => (SortColumn::UpdateTime, false),
            InvitationSort::UpdateTimeReverse => (SortColumn::UpdateTime, true),
            InvitationSort::Username => (SortColumn::Username, false),
            InvitationSort::UsernameReverse => (SortColumn::Username, true),
        }),
{
    match s {
        InvitationSort::CreateTime => (SortColumn::CreateTime, false),
        InvitationSort::CreateTimeReverse => (SortColumn::CreateTime, true),
        InvitationSort::Id => (SortColumn::Id, false),
        InvitationSort::IdReverse => (SortColumn::Id, true),
        InvitationSort::UpdateTime => (SortColumn::UpdateTime, false),
        InvitationSort::UpdateTimeReverse => (SortColumn::UpdateTime, true),
        InvitationSort::Username => (SortColumn::Username, false),
        InvitationSort::UsernameReverse => (SortColumn::Username, true),
    }
}

/// The offset of a page: `(current - 1) * size`, both saturating.
pub fn saturating_offset(size: u64, current: u64) -> (res: u64)
    ensures
        res == (if current == 0 {
            0
        } else if (current - 1) * size > u64::MAX {
            u64::MAX
        } else {
            ((current - 1) * size) as u64
        }),
{
    let before: u64 = if current == 0 { 0 } else { current - 1 };
    match before.checked_mul(size) {
        Some(v) => v,
        None => u64::MAX,
    }
}

} // verus!
