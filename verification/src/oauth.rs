//! Sign-in decisions: role codes, the environment name, the requested
//! scope, the login-environment policy, and what the token endpoints do
//! with a token's claims and the session store's answer.

use vstd::prelude::*;
use crate::text::{chars_of, decimal_string, decimal_text, push_text, string_of, text_eq, trim, trim_exec};

verus! {

/// The role of a system user.
#[derive(Clone, Copy, PartialEq, Eq, Structural, Debug)]
pub enum SystemUserRole {
    Admin,
    MapManager,
    MapBeta,
    MapPunctuate,
    MapUser,
    Visitor,
}

/// The role code that clients match on.
pub open spec fn role_code_text(role: SystemUserRole) -> Seq<char> {
    match role {
        SystemUserRole::Admin => "ADMIN"@,
        SystemUserRole::MapManager => "MAP_MANAGER"@,
        SystemUserRole::MapBeta => "MAP_NEIGUI"@,
        SystemUserRole::MapPunctuate => "MAP_PUNCTUATE"@,
        SystemUserRole::MapUser => "MAP_USER"@,
        SystemUserRole::Visitor => "VISITOR"@,
    }
}

/// The role code of a role.
pub fn role_code(role: SystemUserRole) -> (res: String)
    ensures
        res@ == role_code_text(role),
{
    match role {
        SystemUserRole::Admin => "ADMIN".to_owned(),
        SystemUserRole::MapManager => "MAP_MANAGER".to_owned(),
        SystemUserRole::MapBeta => "MAP_NEIGUI".to_owned(),
        SystemUserRole::MapPunctuate => "MAP_PUNCTUATE".to_owned(),
        SystemUserRole::MapUser => "MAP_USER".to_owned(),
        SystemUserRole::Visitor => "VISITOR".to_owned(),
    }
}

/// `c` with an ASCII capital letter made small.
pub open spec fn ascii_lower(c: char) -> char {
    if 'A' <= c && c <= 'Z' {
        ((c as u32) + 32) as char
    } else {
        c
    }
}

/// `s` with its ASCII capitals made small (`str::to_ascii_lowercase`).
pub open spec fn ascii_lowercase(s: Seq<char>) -> Seq<char> {
    s.map_values(|c: char| ascii_lower(c))
}

fn ascii_lower_exec(c: char) -> (res: char)
    ensures
        res == ascii_lower(c),
{
    if 'A' <= c && c <= 'Z' {
        let b: u8 = c as u8;
        (b + 32u8) as char
    } else {
        c
    }
}

fn ascii_lowercase_exec(s: &Vec<char>) -> (res: Vec<char>)
    ensures
        res@ == ascii_lowercase(s@),
{
    let mut out: Vec<char> = Vec::new();
    let mut i: usize = 0;
    while i < s.len()
        invariant
            i <= s@.len(),
            out@ == ascii_lowercase(s@.take(i as int)),
        decreases s@.len() - i,
    {
        out.push(ascii_lower_exec(s[i]));
        assert(s@.take(i + 1) == s@.take(i as int).push(s@[i as int]));
        assert(ascii_lowercase(s@.take(i + 1)) =~= ascii_lowercase(s@.take(i as int)).push(ascii_lower(s@[i as int])));
        i += 1;
    }
    assert(s@.take(s@.len() as int) == s@);
    out
}

/// `s` trimmed and made lower case.
pub open spec fn normalized(s: Seq<char>) -> Seq<char> {
    ascii_lowercase(trim(s))
}

fn normalize(s: &str) -> (res: Vec<char>)
    ensures
        res@ == normalized(s@),
{
    let cs = chars_of(s);
    let t = trim_exec(&cs);
    ascii_lowercase_exec(&t)
}

/// The environment name sent with a login: the configured value trimmed
/// and made lower case, or `dev` where it is unset or blank.
pub open spec fn environment_text(value: Option<Seq<char>>) -> Seq<char> {
    match value {
        Some(v) => if normalized(v).len() > 0 { normalized(v) } else { "dev"@ },
        None => "dev"@,
    }
}

/// The environment name sent with a login, from the configured value.
pub fn environment_from(value: Option<&str>) -> (res: String)
    ensures
        res@ == environment_text(match value {
            Some(v) => Some(v@),
            None => None,
        }),
{
    match value {
        Some(v) => {
            let n = normalize(v);
            if n.len() > 0 {
                string_of(&n)
            } else {
                "dev".to_owned()
            }
        },
        None => "dev".to_owned(),
    }
}

/// The scope a token is issued for.
#[derive(Clone, Copy, PartialEq, Eq, Structural, Debug)]
pub enum OauthScopeType {
    All,
}

/// A scope request that names no supported scope; it carries the scope
/// as it was read (trimmed, lower case).
pub struct UnsupportedScope {
    pub scope: String,
}

impl UnsupportedScope {
    /// `Unsupported scope: {scope}`.
    pub fn message(&self) -> (res: String)
        ensures
            res@ == "Unsupported scope: "@ + self.scope@,
    {
        let mut s = String::new();
        push_text(&mut s, "Unsupported scope: ");
        push_text(&mut s, self.scope.as_str());
        s
    }
}

/// Maps a requested scope to a scope: empty or `all` (any case, any
/// surrounding whitespace) is every scope; anything else is refused.
pub fn map_scope(scope: &str) -> (res: Result<OauthScopeType, UnsupportedScope>)
    ensures
        (normalized(scope@) == Seq::<char>::empty() || normalized(scope@) == "all"@) <==> res is Ok,
        res is Ok ==> res == Ok::<OauthScopeType, UnsupportedScope>(OauthScopeType::All),
        res matches Err(e) ==> e.scope@ == normalized(scope@),
{
    let n = normalize(scope);
    let s = string_of(&n);
    if n.len() == 0 || text_eq(s.as_str(), "all") {
        assert(n@.len() == 0 ==> n@ =~= Seq::<char>::empty());
        Ok(OauthScopeType::All)
    } else {
        assert(n@ != Seq::<char>::empty());
        Err(UnsupportedScope { scope: s })
    }
}

/// A login-environment policy of a user.
#[derive(Clone, Copy, PartialEq, Eq, Structural, Debug)]
pub enum AccessPolicyItem {
    IpSameLastIp,
    DevSameLastDevice,
    IpBlockDisallowIp,
    DevBlockDisallowDevice,
    /// A policy that has no stored data to check against (allow lists,
    /// regions); it lets the login through.
    Unchecked,
}

/// The user's most recent login device: its IP, if recorded, and its
/// device id (the user agent).
pub struct LastDevice {
    pub ipv4: Option<String>,
    pub device_id: String,
}

/// Why a login environment was refused.
#[derive(Clone, Copy, PartialEq, Eq, Structural, Debug)]
pub enum AccessDenied {
    IpMismatch,
    DeviceMismatch,
    IpBlocked,
    DeviceBlocked,
}

/// The last device as plain values.
pub open spec fn last_view(last: Option<LastDevice>) -> Option<(Option<Seq<char>>, Seq<char>)> {
    match last {
        Some(d) => Some(
            (
                match d.ipv4 {
                    Some(i) => Some(i@),
                    None => None,
                },
                d.device_id@,
            ),
        ),
        None => None,
    }
}

/// What one policy says of a login: a recorded last IP must equal the
/// request's IP; a last device must have the request's user agent; a
/// blocked IP or device is refused; with no history the `same` policies
/// let it through.
pub open spec fn policy_denial(
    p: AccessPolicyItem,
    last: Option<(Option<Seq<char>>, Seq<char>)>,
    ip: Seq<char>,
    user_agent: Seq<char>,
    ip_blocked: bool,
    device_blocked: bool,
) -> Option<AccessDenied> {
    match p {
        AccessPolicyItem::IpSameLastIp => match last {
            Some((Some(l), _)) => if l != ip { Some(AccessDenied::IpMismatch) } else { None },
            _ => None,
        },
        AccessPolicyItem::DevSameLastDevice => match last {
            Some((_, d)) => if d != user_agent { Some(AccessDenied::DeviceMismatch) } else { None },
            None => None,
        },
        AccessPolicyItem::IpBlockDisallowIp => if ip_blocked { Some(AccessDenied::IpBlocked) } else { None },
        AccessPolicyItem::DevBlockDisallowDevice => if device_blocked {
            Some(AccessDenied::DeviceBlocked)
        } else {
            None
        },
        AccessPolicyItem::Unchecked => None,
    }
}

/// The first refusal among the first `n` policies, in order.
pub open spec fn first_denial(
    ps: Seq<AccessPolicyItem>,
    last: Option<(Option<Seq<char>>, Seq<char>)>,
    ip: Seq<char>,
    user_agent: Seq<char>,
    ip_blocked: bool,
    device_blocked: bool,
    n: int,
) -> Option<AccessDenied>
    decreases n,
{
    if n <= 0 {
        None
    } else {
        match first_denial(ps, last, ip, user_agent, ip_blocked, device_blocked, n - 1) {
            Some(d) => Some(d),
            None => policy_denial(ps[n - 1], last, ip, user_agent, ip_blocked, device_blocked),
        }
    }
}

proof fn lemma_denial_sticks(
    ps: Seq<AccessPolicyItem>,
    last: Option<(Option<Seq<char>>, Seq<char>)>,
    ip: Seq<char>,
    user_agent: Seq<char>,
    ip_blocked: bool,
    device_blocked: bool,
    n: int,
    m: int,
)
    requires
        n <= m,
        first_denial(ps, last, ip, user_agent, ip_blocked, device_blocked, n) is Some,
    ensures
        first_denial(ps, last, ip, user_agent, ip_blocked, device_blocked, m) == first_denial(
            ps,
            last,
            ip,
            user_agent,
            ip_blocked,
            device_blocked,
            n,
        ),
    decreases m - n,
{
    if n < m {
        lemma_denial_sticks(ps, last, ip, user_agent, ip_blocked, device_blocked, n, m - 1);
    }
}

/// `p` refuses the login for reason `d`: an IP-same policy when a last IP
/// is recorded and differs from the request's IP (whatever the user agent);
/// a device-same policy when there is a last device whose id differs from
/// the user agent; a block policy when the IP or the device is blocked.
pub open spec fn refuses(
    p: AccessPolicyItem,
    d: AccessDenied,
    last: Option<(Option<Seq<char>>, Seq<char>)>,
    ip: Seq<char>,
    user_agent: Seq<char>,
    ip_blocked: bool,
    device_blocked: bool,
) -> bool {
    ||| p == AccessPolicyItem::IpSameLastIp && d == AccessDenied::IpMismatch && last is Some && (last->0).0 is Some
        && (last->0).0->0 != ip
    ||| p == AccessPolicyItem::DevSameLastDevice && d == AccessDenied::DeviceMismatch && last is Some && (last->0).1
        != user_agent
    ||| p == AccessPolicyItem::IpBlockDisallowIp && d == AccessDenied::IpBlocked && ip_blocked
    ||| p == AccessPolicyItem::DevBlockDisallowDevice && d == AccessDenied::DeviceBlocked && device_blocked
}

/// None of the first `n` policies refuses the login.
pub open spec fn none_refuse(
    ps: Seq<AccessPolicyItem>,
    last: Option<(Option<Seq<char>>, Seq<char>)>,
    ip: Seq<char>,
    user_agent: Seq<char>,
    ip_blocked: bool,
    device_blocked: bool,
    n: int,
) -> bool {
    forall|k: int, d: AccessDenied| 0 <= k < n ==> !#[trigger] refuses(ps[k], d, last, ip, user_agent, ip_blocked, device_blocked)
}

proof fn lemma_policy_refuses(
    p: AccessPolicyItem,
    last: Option<(Option<Seq<char>>, Seq<char>)>,
    ip: Seq<char>,
    user_agent: Seq<char>,
    ip_blocked: bool,
    device_blocked: bool,
)
    ensures
        forall|d: AccessDenied|
            #[trigger] refuses(p, d, last, ip, user_agent, ip_blocked, device_blocked) <==> policy_denial(
                p,
                last,
                ip,
                user_agent,
                ip_blocked,
                device_blocked,
            ) == Some(d),
{
}

proof fn lemma_first_denial_refuses(
    ps: Seq<AccessPolicyItem>,
    last: Option<(Option<Seq<char>>, Seq<char>)>,
    ip: Seq<char>,
    user_agent: Seq<char>,
    ip_blocked: bool,
    device_blocked: bool,
    n: int,
)
    requires
        0 <= n <= ps.len(),
    ensures
        first_denial(ps, last, ip, user_agent, ip_blocked, device_blocked, n) is None <==> none_refuse(
            ps,
            last,
            ip,
            user_agent,
            ip_blocked,
            device_blocked,
            n,
        ),
        first_denial(ps, last, ip, user_agent, ip_blocked, device_blocked, n) is Some ==> exists|k: int|
            0 <= k < n && #[trigger] refuses(
                ps[k],
                first_denial(ps, last, ip, user_agent, ip_blocked, device_blocked, n)->0,
                last,
                ip,
                user_agent,
                ip_blocked,
                device_blocked,
            ) && none_refuse(ps, last, ip, user_agent, ip_blocked, device_blocked, k),
    decreases n,
{
    if n > 0 {
        lemma_first_denial_refuses(ps, last, ip, user_agent, ip_blocked, device_blocked, n - 1);
        lemma_policy_refuses(ps[n - 1], last, ip, user_agent, ip_blocked, device_blocked);
        let prev = first_denial(ps, last, ip, user_agent, ip_blocked, device_blocked, n - 1);
        if prev is Some {
            let k = choose|k: int|
                0 <= k < n - 1 && #[trigger] refuses(ps[k], prev->0, last, ip, user_agent, ip_blocked, device_blocked)
                    && none_refuse(ps, last, ip, user_agent, ip_blocked, device_blocked, k);
            assert(!none_refuse(ps, last, ip, user_agent, ip_blocked, device_blocked, n));
        } else {
            let pd = policy_denial(ps[n - 1], last, ip, user_agent, ip_blocked, device_blocked);
            if pd is Some {
                assert(refuses(ps[n - 1], pd->0, last, ip, user_agent, ip_blocked, device_blocked));
            } else {
                assert forall|k: int, d: AccessDenied| 0 <= k < n implies !#[trigger] refuses(
                    ps[k],
                    d,
                    last,
                    ip,
                    user_agent,
                    ip_blocked,
                    device_blocked,
                ) by {
                    if k < n - 1 {
                    }
                }
            }
        }
    }
}

proof fn lemma_first_refusal_decides(
    ps: Seq<AccessPolicyItem>,
    last: Option<(Option<Seq<char>>, Seq<char>)>,
    ip: Seq<char>,
    user_agent: Seq<char>,
    ip_blocked: bool,
    device_blocked: bool,
    k: int,
    d: AccessDenied,
)
    requires
        0 <= k < ps.len(),
        refuses(ps[k], d, last, ip, user_agent, ip_blocked, device_blocked),
        none_refuse(ps, last, ip, user_agent, ip_blocked, device_blocked, k),
    ensures
        first_denial(ps, last, ip, user_agent, ip_blocked, device_blocked, ps.len() as int) == Some(d),
{
    lemma_first_denial_refuses(ps, last, ip, user_agent, ip_blocked, device_blocked, k);
    lemma_policy_refuses(ps[k], last, ip, user_agent, ip_blocked, device_blocked);
    lemma_denial_sticks(ps, last, ip, user_agent, ip_blocked, device_blocked, k + 1, ps.len() as int);
}

/// A login is refused exactly when one of the user's policies refuses it,
/// and the reason is that of the first policy in the list that refuses:
/// under an IP-same policy, a recorded last IP that differs from the
/// request's IP is refused as an IP mismatch whatever the user agent; under
/// a device-same policy, a last device whose id differs from the user agent
/// is refused as a device mismatch; a blocked IP or device is refused under
/// its block policy; no other policy refuses anything.
pub proof fn access_policy_verdict(
    ps: Seq<AccessPolicyItem>,
    last: Option<(Option<Seq<char>>, Seq<char>)>,
    ip: Seq<char>,
    user_agent: Seq<char>,
    ip_blocked: bool,
    device_blocked: bool,
)
    ensures
        first_denial(ps, last, ip, user_agent, ip_blocked, device_blocked, ps.len() as int) is None <==> forall|
            k: int,
            d: AccessDenied,
        | 0 <= k < ps.len() ==> !#[trigger] refuses(ps[k], d, last, ip, user_agent, ip_blocked, device_blocked),
        forall|d: AccessDenied|
            #[trigger] first_denial(ps, last, ip, user_agent, ip_blocked, device_blocked, ps.len() as int) == Some(d)
                ==> exists|k: int|
                0 <= k < ps.len() && #[trigger] refuses(ps[k], d, last, ip, user_agent, ip_blocked, device_blocked)
                    && forall|t: int, e: AccessDenied|
                    0 <= t < k ==> !#[trigger] refuses(ps[t], e, last, ip, user_agent, ip_blocked, device_blocked),
        forall|k: int, d: AccessDenied|
            0 <= k < ps.len() && #[trigger] refuses(ps[k], d, last, ip, user_agent, ip_blocked, device_blocked) && (
            forall|t: int, e: AccessDenied|
                0 <= t < k ==> !#[trigger] refuses(ps[t], e, last, ip, user_agent, ip_blocked, device_blocked))
                ==> first_denial(ps, last, ip, user_agent, ip_blocked, device_blocked, ps.len() as int) == Some(d),
{
    lemma_first_denial_refuses(ps, last, ip, user_agent, ip_blocked, device_blocked, ps.len() as int);
    assert forall|k: int, d: AccessDenied|
        0 <= k < ps.len() && #[trigger] refuses(ps[k], d, last, ip, user_agent, ip_blocked, device_blocked) && (
        forall|t: int, e: AccessDenied|
            0 <= t < k ==> !#[trigger] refuses(ps[t], e, last, ip, user_agent, ip_blocked, device_blocked)) implies first_denial(
        ps,
        last,
        ip,
        user_agent,
        ip_blocked,
        device_blocked,
        ps.len() as int,
    ) == Some(d) by {
        lemma_first_refusal_decides(ps, last, ip, user_agent, ip_blocked, device_blocked, k, d);
    }
}

/// Checks a login's IP (without port) and user agent against the user's
/// policies, in order, given the last login device and whether the IP or
/// the device is on the user's blocked list.
pub fn check_access_policy(
    policies: &Vec<AccessPolicyItem>,
    last: &Option<LastDevice>,
    ip: &str,
    user_agent: &str,
    ip_blocked: bool,
    device_blocked: bool,
) -> (res: Result<(), AccessDenied>)
    ensures
        res == (match first_denial(
            policies@,
            last_view(*last),
            ip@,
            user_agent@,
            ip_blocked,
            device_blocked,
            policies@.len() as int,
        ) {
            Some(d) => Err(d),
            None => Ok(()),
        }),
{
    let ghost lv = last_view(*last);
    let mut i: usize = 0;
    while i < policies.len()
        invariant
            i <= policies@.len(),
            lv == last_view(*last),
            first_denial(policies@, lv, ip@, user_agent@, ip_blocked, device_blocked, i as int) is None,
        decreases policies@.len() - i,
    {
        let p = policies[i];
        let d: Option<AccessDenied> = match p {
            AccessPolicyItem::IpSameLastIp => match last {
                Some(dev) => match &dev.ipv4 {
                    Some(l) => if !text_eq(l.as_str(), ip) { Some(AccessDenied::IpMismatch) } else { None },
                    None => None,
                },
                None => None,
            },
            AccessPolicyItem::DevSameLastDevice => match last {
                Some(dev) => if !text_eq(dev.device_id.as_str(), user_agent) {
                    Some(AccessDenied::DeviceMismatch)
                } else {
                    None
                },
                None => None,
            },
            AccessPolicyItem::IpBlockDisallowIp => if ip_blocked { Some(AccessDenied::IpBlocked) } else { None },
            AccessPolicyItem::DevBlockDisallowDevice => if device_blocked {
                Some(AccessDenied::DeviceBlocked)
            } else {
                None
            },
            AccessPolicyItem::Unchecked => None,
        };
        assert(d == policy_denial(policies@[i as int], lv, ip@, user_agent@, ip_blocked, device_blocked));
        if let Some(x) = d {
            proof {
                lemma_denial_sticks(policies@, lv, ip@, user_agent@, ip_blocked, device_blocked, i + 1, policies@.len() as int);
            }
            return Err(x);
        }
        i += 1;
    }
    Ok(())
}

/// The session-store key of an access token: `jwt:access:{sub}:{jti}`.
pub open spec fn access_key_text(sub: i64, jti: Seq<char>) -> Seq<char> {
    "jwt:access:"@ + decimal_text(sub as int) + ":"@ + jti
}

/// The session-store key of a refresh token: `jwt:refresh:{sub}:{jti}`.
pub open spec fn refresh_key_text(sub: i64, jti: Seq<char>) -> Seq<char> {
    "jwt:refresh:"@ + decimal_text(sub as int) + ":"@ + jti
}

/// An access session and a refresh session never share a key, whatever
/// their subjects and ids: an access token cannot stand for a refresh
/// token in the store.
pub proof fn access_and_refresh_keys_differ(sub1: i64, jti1: Seq<char>, sub2: i64, jti2: Seq<char>)
    ensures
        access_key_text(sub1, jti1) != refresh_key_text(sub2, jti2),
{
    reveal_strlit("jwt:access:");
    reveal_strlit("jwt:refresh:");
    let a = access_key_text(sub1, jti1);
    let r = refresh_key_text(sub2, jti2);
    assert(a[4] == "jwt:access:"@[4]);
    assert(r[4] == "jwt:refresh:"@[4]);
}

/// The session-store key of an access token.
pub fn access_key(sub: i64, jti: &str) -> (res: String)
    ensures
        res@ == access_key_text(sub, jti@),
{
    let mut s = String::new();
    push_text(&mut s, "jwt:access:");
    let d = decimal_string(sub);
    push_text(&mut s, d.as_str());
    push_text(&mut s, ":");
    push_text(&mut s, jti);
    s
}

/// The session-store key of a refresh token.
pub fn refresh_key(sub: i64, jti: &str) -> (res: String)
    ensures
        res@ == refresh_key_text(sub, jti@),
{
    let mut s = String::new();
    push_text(&mut s, "jwt:refresh:");
    let d = decimal_string(sub);
    push_text(&mut s, d.as_str());
    push_text(&mut s, ":");
    push_text(&mut s, jti);
    s
}

/// The key of an IP's failed-login counter: `login_fail:{ip}`.
pub fn login_fail_key(ip: &str) -> (res: String)
    ensures
        res@ == "login_fail:"@ + ip@,
{
    let mut s = String::new();
    push_text(&mut s, "login_fail:");
    push_text(&mut s, ip);
    s
}

/// Why a token was refused.
#[derive(Clone, Copy, PartialEq, Eq, Structural, Debug)]
pub enum TokenError {
    RefreshAsAccess,
    Revoked,
    RedisUnavailable,
    NotRefresh,
    AnonymousRefresh,
    RefreshUsed,
}

impl TokenError {
    /// The message sent back to the client.
    pub fn message(&self) -> (res: &'static str)
        ensures
            res@ == (match *self {
                TokenError::RefreshAsAccess => "Refresh token cannot be used as an access token"@,
                TokenError::Revoked => "Token revoked"@,
                TokenError::RedisUnavailable => "Redis unavailable (REDIS_REQUIRED=true)"@,
                TokenError::NotRefresh => "Not a refresh token"@,
                TokenError::AnonymousRefresh => "Anonymous identity cannot be refreshed"@,
                TokenError::RefreshUsed => "Refresh token not found or already used"@,
            }),
    {
        match self {
            TokenError::RefreshAsAccess => "Refresh token cannot be used as an access token",
            TokenError::Revoked => "Token revoked",
            TokenError::RedisUnavailable => "Redis unavailable (REDIS_REQUIRED=true)",
            TokenError::NotRefresh => "Not a refresh token",
            TokenError::AnonymousRefresh => "Anonymous identity cannot be refreshed",
            TokenError::RefreshUsed => "Refresh token not found or already used",
        }
    }
}

/// The claim's token type is `refresh`.
pub open spec fn is_refresh_type(token_type: Option<Seq<char>>) -> bool {
    token_type == Some("refresh"@)
}

/// The token type as plain text.
pub open spec fn token_type_view(t: Option<String>) -> Option<Seq<char>> {
    match t {
        Some(s) => Some(s@),
        None => None,
    }
}

fn is_refresh_exec(token_type: &Option<String>) -> (res: bool)
    ensures
        res == is_refresh_type(token_type_view(*token_type)),
{
    match token_type {
        Some(t) => text_eq(t.as_str(), "refresh"),
        None => false,
    }
}

/// An access token must not be a refresh token; a token without a type
/// (issued before types existed) passes.
pub fn check_access_token_type(token_type: &Option<String>) -> (res: Result<(), TokenError>)
    ensures
        res == (if is_refresh_type(token_type_view(*token_type)) {
            Err(TokenError::RefreshAsAccess)
        } else {
            Ok(())
        }),
{
    if is_refresh_exec(token_type) {
        Err(TokenError::RefreshAsAccess)
    } else {
        Ok(())
    }
}

/// What the session store said of an access token's key.
#[derive(Clone, Copy, PartialEq, Eq, Structural, Debug)]
pub enum SessionLookup {
    /// There is no session store.
    NoStore,
    /// The store could not be reached or the read failed.
    Unavailable,
    /// The key is gone: the session was revoked.
    Missing,
    /// The key holds the cached user.
    Hit,
}

/// How an access token's user is found after the session lookup.
#[derive(Clone, Copy, PartialEq, Eq, Structural, Debug)]
pub enum AccessSource {
    /// From the cached payload.
    Cached,
    /// The anonymous identity (subject 0), without a lookup.
    Anonymous,
    /// From the user table, by subject.
    UserTable,
}

/// The decision after the session lookup: a hit uses the cache; a missing
/// key is a revoked session; an unreachable store fails when the store is
/// required, and otherwise (as with no store) falls back to the anonymous
/// identity for subject 0 and to the user table for the rest.
pub open spec fn access_source(lookup: SessionLookup, redis_required: bool, sub: i64) -> Result<AccessSource, TokenError> {
    match lookup {
        SessionLookup::Hit => Ok(AccessSource::Cached),
        SessionLookup::Missing => Err(TokenError::Revoked),
        _ => if lookup == SessionLookup::Unavailable && redis_required {
            Err(TokenError::RedisUnavailable)
        } else if sub == 0 {
            Ok(AccessSource::Anonymous)
        } else {
            Ok(AccessSource::UserTable)
        },
    }
}

/// Decides where an access token's user comes from after the session
/// lookup.
pub fn after_session_lookup(lookup: SessionLookup, redis_required: bool, sub: i64) -> (res: Result<AccessSource, TokenError>)
    ensures
        res == access_source(lookup, redis_required, sub),
{
    match lookup {
        SessionLookup::Hit => Ok(AccessSource::Cached),
        SessionLookup::Missing => Err(TokenError::Revoked),
        SessionLookup::Unavailable if redis_required => Err(TokenError::RedisUnavailable),
        _ => if sub == 0 {
            Ok(AccessSource::Anonymous)
        } else {
            Ok(AccessSource::UserTable)
        },
    }
}

/// A refresh needs a refresh-type token of a real user.
pub fn check_refresh_claims(token_type: &Option<String>, sub: i64) -> (res: Result<(), TokenError>)
    ensures
        res == (if !is_refresh_type(token_type_view(*token_type)) {
            Err(TokenError::NotRefresh)
        } else if sub == 0 {
            Err(TokenError::AnonymousRefresh)
        } else {
            Ok(())
        }),
{
    if !is_refresh_exec(token_type) {
        Err(TokenError::NotRefresh)
    } else if sub == 0 {
        Err(TokenError::AnonymousRefresh)
    } else {
        Ok(())
    }
}

/// The session store as the refresh endpoint finds it.
#[derive(Clone, Copy, PartialEq, Eq, Structural, Debug)]
pub enum StoreState {
    NoStore,
    ConnectFailed,
    Connected,
}

/// How a refresh proceeds.
#[derive(Clone, Copy, PartialEq, Eq, Structural, Debug)]
pub enum RefreshMode {
    /// Issue a new pair and retire the old refresh token.
    Rotate,
    /// Issue a new pair without touching the store (the old refresh token
    /// stays valid).
    IssueOnly,
}

/// Rotation needs the store; without it a refresh fails when the store is
/// required and otherwise only issues.
pub fn refresh_mode(store: StoreState, redis_required: bool) -> (res: Result<RefreshMode, TokenError>)
    ensures
        res == (match store {
            StoreState::Connected => Ok(RefreshMode::Rotate),
            _ => if redis_required { Err(TokenError::RedisUnavailable) } else { Ok(RefreshMode::IssueOnly) },
        }),
{
    match store {
        StoreState::Connected => Ok(RefreshMode::Rotate),
        _ => if redis_required {
            Err(TokenError::RedisUnavailable)
        } else {
            Ok(RefreshMode::IssueOnly)
        },
    }
}

/// What the atomic read-and-delete of the old refresh key gave: nothing
/// means the token was already used or revoked; a non-empty access id
/// names the access session to revoke with it.
pub fn access_to_revoke(sub: i64, old_access_jti: &Option<String>) -> (res: Result<Option<String>, TokenError>)
    ensures
        match old_access_jti {
            None => res == Err::<Option<String>, TokenError>(TokenError::RefreshUsed),
            Some(j) => if j@.len() == 0 {
                res matches Ok(None)
            } else {
                res matches Ok(Some(k)) && k@ == access_key_text(sub, j@)
            },
        },
{
    match old_access_jti {
        None => Err(TokenError::RefreshUsed),
        Some(j) => {
            let cs = chars_of(j.as_str());
            if cs.len() == 0 {
                Ok(None)
            } else {
                Ok(Some(access_key(sub, j.as_str())))
            }
        },
    }
}

/// What a lookup in the session store finds under a key.
pub open spec fn store_lookup(store: Map<Seq<char>, Seq<char>>, key: Seq<char>) -> SessionLookup {
    if store.contains_key(key) {
        SessionLookup::Hit
    } else {
        SessionLookup::Missing
    }
}

/// The session store after a refresh rotates the session of refresh id
/// `jti`: the refresh key is read and deleted, the access session it names
/// (if any) is deleted, and the new access and refresh sessions are
/// written, the refresh one naming the new access id.
pub open spec fn rotate_sessions(
    store: Map<Seq<char>, Seq<char>>,
    sub: i64,
    jti: Seq<char>,
    new_access: Seq<char>,
    new_refresh: Seq<char>,
    payload: Seq<char>,
) -> Map<Seq<char>, Seq<char>> {
    let rk = refresh_key_text(sub, jti);
    let old = store[rk];
    let s1 = store.remove(rk);
    let s2 = if old.len() > 0 { s1.remove(access_key_text(sub, old)) } else { s1 };
    s2.insert(access_key_text(sub, new_access), payload).insert(refresh_key_text(sub, new_refresh), new_access)
}

proof fn lemma_suffix_equal(p: Seq<char>, a: Seq<char>, b: Seq<char>)
    requires
        p + a == p + b,
    ensures
        a == b,
{
    assert(a =~= (p + a).skip(p.len() as int));
    assert(b =~= (p + b).skip(p.len() as int));
}

proof fn lemma_keys_injective(sub: i64, a: Seq<char>, b: Seq<char>)
    ensures
        access_key_text(sub, a) == access_key_text(sub, b) ==> a == b,
        refresh_key_text(sub, a) == refresh_key_text(sub, b) ==> a == b,
{
    let pa = "jwt:access:"@ + decimal_text(sub as int) + ":"@;
    let pr = "jwt:refresh:"@ + decimal_text(sub as int) + ":"@;
    if access_key_text(sub, a) == access_key_text(sub, b) {
        lemma_suffix_equal(pa, a, b);
    }
    if refresh_key_text(sub, a) == refresh_key_text(sub, b) {
        lemma_suffix_equal(pr, a, b);
    }
}

/// A refresh token is single-use: once a refresh has rotated its session
/// (with fresh ids for the new pair), its key is gone from the store, so a
/// second refresh with the same token reads nothing and is refused with
/// `RefreshUsed` (see `access_to_revoke`); and the access token paired with
/// it finds its session missing, so it is refused as revoked.
pub proof fn refresh_is_single_use(
    store: Map<Seq<char>, Seq<char>>,
    sub: i64,
    jti: Seq<char>,
    new_access: Seq<char>,
    new_refresh: Seq<char>,
    payload: Seq<char>,
    redis_required: bool,
)
    requires
        store.contains_key(refresh_key_text(sub, jti)),
        new_refresh != jti,
        new_access != store[refresh_key_text(sub, jti)],
    ensures
        !rotate_sessions(store, sub, jti, new_access, new_refresh, payload).contains_key(refresh_key_text(sub, jti)),
        store[refresh_key_text(sub, jti)].len() > 0 ==> access_source(
            store_lookup(
                rotate_sessions(store, sub, jti, new_access, new_refresh, payload),
                access_key_text(sub, store[refresh_key_text(sub, jti)]),
            ),
            redis_required,
            sub,
        ) == Err::<AccessSource, TokenError>(TokenError::Revoked),
{
    let old = store[refresh_key_text(sub, jti)];
    lemma_keys_injective(sub, new_refresh, jti);
    lemma_keys_injective(sub, new_access, old);
    access_and_refresh_keys_differ(sub, new_access, sub, jti);
    access_and_refresh_keys_differ(sub, old, sub, new_refresh);
}

} // verus!
