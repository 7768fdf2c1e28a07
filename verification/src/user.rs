//! System users: the list's order and page, and the session keys that a
//! kick-out clears.

use vstd::prelude::*;
use crate::invitation::SortColumn;
use crate::oauth::{access_key_text, refresh_key_text};
use crate::text::{chars_of, decimal_text, parse_i64, parse_i64_exec, push_text, decimal_string};

verus! {

/// A user request that cannot be served.
#[derive(Clone, Copy, PartialEq, Eq, Structural, Debug)]
pub enum UserError {
    NotFound,
    InvalidOldPassword,
    InvalidUserId,
}

impl UserError {
    /// The message sent back to the client.
    pub fn message(&self) -> (res: &'static str)
        ensures
            res@ == (match *self {
                UserError::NotFound => "User not found"@,
                UserError::InvalidOldPassword => "Invalid old password"@,
                UserError::InvalidUserId => "Invalid user id"@,
            }),
    {
        match self {
            UserError::NotFound => "User not found",
            UserError::InvalidOldPassword => "Invalid old password",
            UserError::InvalidUserId => "Invalid user id",
        }
    }
}

/// An order of the user list.
#[derive(Clone, Copy, PartialEq, Eq, Structural, Debug)]
pub enum UserSort {
    CreateTime,
    CreateTimeReverse,
    Id,
    IdReverse,
    Nickname,
    NicknameReverse,
}

/// The column and direction (descending when `true`) of an order.
pub fn user_sort(s: UserSort) -> (res: (SortColumn, bool))
    ensures
        res == (match s {
            UserSort::CreateTime => (SortColumn::CreateTime, false),
            UserSort::CreateTimeReverse => (SortColumn::CreateTime, true),
            UserSort::Id => (SortColumn::Id, false),
            UserSort::IdReverse => (SortColumn::Id, true),
            UserSort::Nickname => (SortColumn::Nickname, false),
            UserSort::NicknameReverse => (SortColumn::Nickname, true),
        }),
{
    match s {
        UserSort::CreateTime => (SortColumn::CreateTime, false),
        UserSort::CreateTimeReverse => (SortColumn::CreateTime, true),
        UserSort::Id => (SortColumn::Id, false),
        UserSort::IdReverse => (SortColumn::Id, true),
        UserSort::Nickname => (SortColumn::Nickname, false),
        UserSort::NicknameReverse => (SortColumn::Nickname, true),
    }
}

/// The limit and offset of a user list page: the size (10 by default, no
/// cap, taken as `u64`) and `(current - 1)` (saturating, taken as `u64`)
/// times it, saturating.
pub open spec fn user_page(size: Option<i64>, current: Option<i64>) -> (u64, u64) {
    let s: u64 = (match size {
        Some(s) => s,
        None => 10,
    }) as u64;
    let c: i64 = match current {
        Some(c) => c,
        None => 1,
    };
    let before: u64 = (if c == i64::MIN { i64::MIN } else { (c - 1) as i64 }) as u64;
    (s, if before * s > u64::MAX { u64::MAX } else { (before * s) as u64 })
}

/// The limit and offset of a user list page.
pub fn user_page_window(size: Option<i64>, current: Option<i64>) -> (res: (u64, u64))
    ensures
        res == user_page(size, current),
{
    let s: u64 = (match size {
        Some(s) => s,
        None => 10,
    }) as u64;
    let c: i64 = match current {
        Some(c) => c,
        None => 1,
    };
    let back: i64 = if c == i64::MIN { c } else { c - 1 };
    let before: u64 = back as u64;
    let offset: u64 = match before.checked_mul(s) {
        Some(v) => v,
        None => u64::MAX,
    };
    (s, offset)
}

/// The session-key patterns of a user: every access key and every
/// refresh key of the id.
pub open spec fn kick_patterns(id: i64) -> (Seq<char>, Seq<char>) {
    (
        "jwt:access:"@ + decimal_text(id as int) + ":*"@,
        "jwt:refresh:"@ + decimal_text(id as int) + ":*"@,
    )
}

/// A kick-out reaches every session of the user and no other: each pattern
/// is a fixed text followed by `*`, and the store key of every access
/// (refresh) token of that user is that text followed by the token's id.
pub proof fn kick_patterns_cover_the_users_sessions(id: i64, jti: Seq<char>)
    ensures
        kick_patterns(id).0.len() > 0 && kick_patterns(id).0.last() == '*',
        access_key_text(id, jti) == kick_patterns(id).0.drop_last() + jti,
        kick_patterns(id).1.len() > 0 && kick_patterns(id).1.last() == '*',
        refresh_key_text(id, jti) == kick_patterns(id).1.drop_last() + jti,
{
    reveal_strlit(":*");
    reveal_strlit(":");
    let d = decimal_text(id as int);
    let a = "jwt:access:"@ + d;
    let r = "jwt:refresh:"@ + d;
    assert((a + ":*"@).drop_last() =~= a + ":"@);
    assert((r + ":*"@).drop_last() =~= r + ":"@);
    assert(access_key_text(id, jti) =~= a + ":"@ + jti);
    assert(refresh_key_text(id, jti) =~= r + ":"@ + jti);
}

/// The key patterns a kick-out clears, from the user id as sent: it must
/// read as an `i64`.
pub fn kick_out_patterns(work_id: &str) -> (res: Result<(String, String), UserError>)
    ensures
        match parse_i64(work_id@) {
            None => res == Err::<(String, String), UserError>(UserError::InvalidUserId),
            Some(id) => res matches Ok((a, r)) && (a@, r@) == kick_patterns(id),
        },
{
    let cs = chars_of(work_id);
    match parse_i64_exec(&cs) {
        None => Err(UserError::InvalidUserId),
        Some(id) => {
            let d = decimal_string(id);
            let mut a = String::new();
            push_text(&mut a, "jwt:access:");
            push_text(&mut a, d.as_str());
            push_text(&mut a, ":*");
            let mut r = String::new();
            push_text(&mut r, "jwt:refresh:");
            push_text(&mut r, d.as_str());
            push_text(&mut r, ":*");
            Ok((a, r))
        },
    }
}

} // verus!
