//! The WebSocket session registry: which connections each user holds, the
//! per-user and global connection limits, and the debounce of purge
//! broadcasts. Connections are named by ids that the registry hands out;
//! the channels themselves stay with the caller.

use vstd::prelude::*;
use vstd::string::*;

verus! {

/// Connections one user may hold at once.
pub const WS_USER_CONNECTION_LIMIT: usize = 8;

/// Connections the registry holds at once, over all users.
pub const WS_GLOBAL_CONNECTION_LIMIT: usize = 2048;

/// Events a connection's queue holds before its consumer counts as too slow.
pub const WS_CHANNEL_CAPACITY: usize = 128;

/// The debounce window of purge broadcasts, in milliseconds.
pub const PURGE_DEBOUNCE_WINDOW_MS: u64 = 30000;

/// One user's connections, oldest first.
pub struct UserSessions {
    pub user_id: String,
    pub conns: Vec<u64>,
}

/// The registry: users with at least one connection, and the next
/// connection id to hand out.
pub struct SessionRegistry {
    pub sessions: Vec<UserSessions>,
    pub next_id: u64,
}

/// Why a registration is refused.
#[derive(Clone, Copy, PartialEq, Eq, Structural, Debug)]
pub enum WsError {
    UserLimit,
    GlobalLimit,
}

impl WsError {
    /// The reason given to the refused connection.
    pub fn message(&self) -> (res: &'static str)
        ensures
            res@ == (match *self {
                WsError::UserLimit => "too many connections for this user"@,
                WsError::GlobalLimit => "too many websocket connections"@,
            }),
    {
        match self {
            WsError::UserLimit => "too many connections for this user",
            WsError::GlobalLimit => "too many websocket connections",
        }
    }
}

/// The registry as plain values.
pub open spec fn sessions_view(s: Seq<UserSessions>) -> Seq<(Seq<char>, Seq<u64>)> {
    s.map_values(|u: UserSessions| (u.user_id@, u.conns@))
}

/// The first entry of user `user` at or after `k`.
pub open spec fn find_user(v: Seq<(Seq<char>, Seq<u64>)>, user: Seq<char>, k: int) -> Option<int>
    decreases v.len() - k,
{
    if k < 0 || k >= v.len() {
        None
    } else if v[k].0 == user {
        Some(k)
    } else {
        find_user(v, user, k + 1)
    }
}

/// The connections of a user (none when the user has no entry).
pub open spec fn user_conns(v: Seq<(Seq<char>, Seq<u64>)>, user: Seq<char>) -> Seq<u64> {
    match find_user(v, user, 0) {
        Some(i) => v[i].1,
        None => Seq::empty(),
    }
}

/// The number of connections of the first `n` entries.
pub open spec fn total_conns(v: Seq<(Seq<char>, Seq<u64>)>, n: int) -> int
    decreases n,
{
    if n <= 0 {
        0
    } else {
        total_conns(v, n - 1) + v[n - 1].1.len()
    }
}

/// The registry after connection `id` of `user` is added (the user's entry
/// is created at the end when it has none).
pub open spec fn add_conn(v: Seq<(Seq<char>, Seq<u64>)>, user: Seq<char>, id: u64) -> Seq<(Seq<char>, Seq<u64>)> {
    match find_user(v, user, 0) {
        Some(i) => v.update(i, (user, v[i].1.push(id))),
        None => v.push((user, seq![id])),
    }
}

/// `s` without the occurrences of `id`.
pub open spec fn without(s: Seq<u64>, id: u64) -> Seq<u64>
    decreases s.len(),
{
    if s.len() == 0 {
        s
    } else {
        let p = without(s.drop_last(), id);
        if s.last() == id {
            p
        } else {
            p.push(s.last())
        }
    }
}

/// The registry after connection `id` of `user` is dropped (a user left
/// without connections loses its entry).
pub open spec fn remove_conn(v: Seq<(Seq<char>, Seq<u64>)>, user: Seq<char>, id: u64) -> Seq<(Seq<char>, Seq<u64>)> {
    match find_user(v, user, 0) {
        Some(i) => if without(v[i].1, id).len() == 0 {
            v.remove(i)
        } else {
            v.update(i, (user, without(v[i].1, id)))
        },
        None => v,
    }
}

/// A registry that registrations and removals can reach: one entry per
/// user, each with a connection; connection ids distinct and below
/// `next_id`; within the per-user and global limits.
pub open spec fn registry_wf(v: Seq<(Seq<char>, Seq<u64>)>, next_id: u64) -> bool {
    &&& forall|a: int, b: int| 0 <= a < b < v.len() ==> #[trigger] v[a].0 != #[trigger] v[b].0
    &&& forall|a: int| 0 <= a < v.len() ==> #[trigger] v[a].1.len() > 0 && v[a].1.len() <= WS_USER_CONNECTION_LIMIT
    &&& forall|a: int, j: int| 0 <= a < v.len() && 0 <= j < v[a].1.len() ==> #[trigger] v[a].1[j] < next_id
    &&& total_conns(v, v.len() as int) <= WS_GLOBAL_CONNECTION_LIMIT
}

/// The registry after dropping, among the first `n` targets of a send,
/// each whose delivery failed (a target without a recorded outcome counts
/// as delivered).
pub open spec fn drop_failed(
    v: Seq<(Seq<char>, Seq<u64>)>,
    targets: Seq<(Seq<char>, u64)>,
    delivered: Seq<bool>,
    n: int,
) -> Seq<(Seq<char>, Seq<u64>)>
    decreases n,
{
    if n <= 0 {
        v
    } else {
        let p = drop_failed(v, targets, delivered, n - 1);
        if n - 1 < delivered.len() && !delivered[n - 1] {
            remove_conn(p, targets[n - 1].0, targets[n - 1].1)
        } else {
            p
        }
    }
}

/// The connection ids, among the first `n` targets, whose delivery failed.
pub open spec fn failed_ids(targets: Seq<(Seq<char>, u64)>, delivered: Seq<bool>, n: int) -> Seq<u64>
    decreases n,
{
    if n <= 0 {
        Seq::empty()
    } else {
        let p = failed_ids(targets, delivered, n - 1);
        if n - 1 < delivered.len() && !delivered[n - 1] {
            p.push(targets[n - 1].1)
        } else {
            p
        }
    }
}

/// The targets as plain values.
pub open spec fn targets_view(t: Seq<(String, u64)>) -> Seq<(Seq<char>, u64)> {
    t.map_values(|p: (String, u64)| (p.0@, p.1))
}

impl SessionRegistry {
    /// The registry as plain values.
    pub open spec fn view_sessions(&self) -> Seq<(Seq<char>, Seq<u64>)> {
        sessions_view(self.sessions@)
    }

    /// An empty registry.
    pub fn new() -> (res: SessionRegistry)
        ensures
            res.view_sessions() == Seq::<(Seq<char>, Seq<u64>)>::empty(),
            res.next_id == 0,
            registry_wf(res.view_sessions(), res.next_id),
    {
        let r = SessionRegistry { sessions: Vec::new(), next_id: 0 };
        assert(r.view_sessions() =~= Seq::<(Seq<char>, Seq<u64>)>::empty());
        r
    }
}

proof fn lemma_find_user(v: Seq<(Seq<char>, Seq<u64>)>, user: Seq<char>, k: int)
    requires
        0 <= k,
    ensures
        match find_user(v, user, k) {
            Some(i) => k <= i < v.len() && v[i].0 == user && forall|j: int| k <= j < i ==> #[trigger] v[j].0 != user,
            None => forall|j: int| k <= j < v.len() ==> #[trigger] v[j].0 != user,
        },
    decreases v.len() - k,
{
    if k < v.len() && v[k].0 != user {
        lemma_find_user(v, user, k + 1);
    }
}

proof fn lemma_find_user_at(v: Seq<(Seq<char>, Seq<u64>)>, user: Seq<char>, i: int)
    requires
        0 <= i < v.len(),
        v[i].0 == user,
        forall|j: int| 0 <= j < i ==> #[trigger] v[j].0 != user,
    ensures
        find_user(v, user, 0) == Some(i),
{
    lemma_find_user(v, user, 0);
    match find_user(v, user, 0) {
        Some(k) => {
            if k < i {
                assert(v[k].0 != user);
            } else if k > i {
                assert(v[i].0 != user);
            }
        },
        None => {
            assert(v[i].0 != user);
        },
    }
}

proof fn lemma_total_update(v: Seq<(Seq<char>, Seq<u64>)>, i: int, e: (Seq<char>, Seq<u64>), n: int)
    requires
        0 <= i < v.len(),
        0 <= n <= v.len(),
    ensures
        total_conns(v.update(i, e), n) == total_conns(v, n) + (if i < n { e.1.len() - v[i].1.len() } else { 0 }),
    decreases n,
{
    if n > 0 {
        lemma_total_update(v, i, e, n - 1);
    }
}

proof fn lemma_total_push(v: Seq<(Seq<char>, Seq<u64>)>, e: (Seq<char>, Seq<u64>), n: int)
    requires
        0 <= n <= v.len(),
    ensures
        total_conns(v.push(e), n) == total_conns(v, n),
        total_conns(v.push(e), v.len() + 1int) == total_conns(v, v.len() as int) + e.1.len(),
    decreases n,
{
    if n > 0 {
        lemma_total_push(v, e, n - 1);
    }
    assert(v.push(e).drop_last() == v);
    lemma_total_prefix(v.push(e), v, v.len() as int);
}

proof fn lemma_total_prefix(a: Seq<(Seq<char>, Seq<u64>)>, b: Seq<(Seq<char>, Seq<u64>)>, n: int)
    requires
        0 <= n <= a.len(),
        n <= b.len(),
        forall|j: int| 0 <= j < n ==> #[trigger] a[j] == b[j],
    ensures
        total_conns(a, n) == total_conns(b, n),
    decreases n,
{
    if n > 0 {
        lemma_total_prefix(a, b, n - 1);
    }
}

proof fn lemma_total_remove(v: Seq<(Seq<char>, Seq<u64>)>, i: int, n: int)
    requires
        0 <= i < v.len(),
        i < n <= v.len(),
    ensures
        total_conns(v.remove(i), n - 1) == total_conns(v, n) - v[i].1.len(),
    decreases n,
{
    if n - 1 > i {
        lemma_total_remove(v, i, n - 1);
        assert(v.remove(i)[n - 2] == v[n - 1]);
    } else {
        lemma_total_prefix(v.remove(i), v, i);
    }
}

proof fn lemma_without(s: Seq<u64>, id: u64)
    ensures
        without(s, id).len() <= s.len(),
        forall|j: int| 0 <= j < without(s, id).len() ==> s.contains(#[trigger] without(s, id)[j]) && without(s, id)[j] != id,
        !s.contains(id) ==> without(s, id) == s,
    decreases s.len(),
{
    if s.len() > 0 {
        lemma_without(s.drop_last(), id);
        let p = without(s.drop_last(), id);
        assert forall|j: int| 0 <= j < without(s, id).len() implies s.contains(#[trigger] without(s, id)[j]) && without(s, id)[j] != id by {
            if j < p.len() {
                assert(without(s, id)[j] == p[j]);
                let k = choose|k: int| 0 <= k < s.drop_last().len() && s.drop_last()[k] == p[j];
                assert(s[k] == p[j]);
            } else {
                assert(without(s, id)[j] == s.last());
                assert(s[s.len() - 1] == s.last());
            }
        }
        if !s.contains(id) {
            assert(!s.drop_last().contains(id)) by {
                if s.drop_last().contains(id) {
                    let k = choose|k: int| 0 <= k < s.drop_last().len() && s.drop_last()[k] == id;
                    assert(s[k] == id);
                }
            }
            assert(s.last() != id) by {
                assert(s[s.len() - 1] == s.last());
            }
            assert(s.drop_last().push(s.last()) == s);
        }
    }
}

fn find_user_exec(sessions: &Vec<UserSessions>, user: &String) -> (res: Option<usize>)
    ensures
        match res {
            Some(i) => i < sessions@.len() && find_user(sessions_view(sessions@), user@, 0) == Some(i as int),
            None => find_user(sessions_view(sessions@), user@, 0) is None,
        },
{
    let ghost v = sessions_view(sessions@);
    let mut i: usize = 0;
    while i < sessions.len()
        invariant
            i <= sessions@.len(),
            v == sessions_view(sessions@),
            find_user(v, user@, 0) == find_user(v, user@, i as int),
        decreases sessions@.len() - i,
    {
        if sessions[i].user_id == *user {
            return Some(i);
        }
        i += 1;
    }
    None
}

impl SessionRegistry {
    /// The number of connections held.
    pub fn connection_count(&self) -> (res: usize)
        requires
            registry_wf(self.view_sessions(), self.next_id),
        ensures
            res == total_conns(self.view_sessions(), self.view_sessions().len() as int),
    {
        let ghost v = self.view_sessions();
        let mut total: usize = 0;
        let mut i: usize = 0;
        while i < self.sessions.len()
            invariant
                i <= self.sessions@.len(),
                v == self.view_sessions(),
                registry_wf(v, self.next_id),
                total == total_conns(v, i as int),
            decreases self.sessions@.len() - i,
        {
            proof {
                lemma_total_bound(v, i + 1);
                lemma_total_mono(v, i + 1, v.len() as int);
            }
            total = total + self.sessions[i].conns.len();
            i += 1;
        }
        total
    }

    /// Registers a connection of `user`: refused when the user already
    /// holds 8 connections, else when the registry holds 2048 (or has run
    /// out of ids); otherwise the connection gets the next id and is added
    /// to the user's list.
    pub fn register(&mut self, user: &str) -> (res: Result<u64, WsError>)
        requires
            registry_wf(old(self).view_sessions(), old(self).next_id),
        ensures
            registry_wf(final(self).view_sessions(), final(self).next_id),
            ({
                let v = old(self).view_sessions();
                let held = user_conns(v, user@).len();
                let total = total_conns(v, v.len() as int);
                match res {
                    Err(WsError::UserLimit) => held >= WS_USER_CONNECTION_LIMIT && final(self).view_sessions() == v
                        && final(self).next_id == old(self).next_id,
                    Err(WsError::GlobalLimit) => held < WS_USER_CONNECTION_LIMIT && (total >= WS_GLOBAL_CONNECTION_LIMIT
                        || old(self).next_id == u64::MAX) && final(self).view_sessions() == v && final(self).next_id
                        == old(self).next_id,
                    Ok(id) => held < WS_USER_CONNECTION_LIMIT && total < WS_GLOBAL_CONNECTION_LIMIT && id == old(self).next_id
                        && final(self).next_id == id + 1 && final(self).view_sessions() == add_conn(v, user@, id),
                }
            }),
    {
        let ghost v = self.view_sessions();
        let u = user.to_owned();
        let found = find_user_exec(&self.sessions, &u);
        proof {
            lemma_find_user(v, user@, 0);
        }
        if let Some(i) = found {
            if self.sessions[i].conns.len() >= WS_USER_CONNECTION_LIMIT {
                return Err(WsError::UserLimit);
            }
        }
        let total = self.connection_count();
        if total >= WS_GLOBAL_CONNECTION_LIMIT || self.next_id == u64::MAX {
            return Err(WsError::GlobalLimit);
        }
        let id = self.next_id;
        self.next_id = self.next_id + 1;
        match found {
            Some(i) => {
                let mut e = self.sessions.remove(i);
                e.conns.push(id);
                e.user_id = u;
                self.sessions.insert(i, e);
                proof {
                    assert(self.view_sessions() =~= v.update(i as int, (user@, v[i as int].1.push(id))));
                    lemma_total_update(v, i as int, (user@, v[i as int].1.push(id)), v.len() as int);
                    let w = self.view_sessions();
                    assert forall|a: int, b: int| 0 <= a < b < w.len() implies #[trigger] w[a].0 != #[trigger] w[b].0 by {
                        assert(w[a].0 == v[a].0 && w[b].0 == v[b].0);
                    }
                    assert forall|a: int| 0 <= a < w.len() implies #[trigger] w[a].1.len() > 0 && w[a].1.len() <= WS_USER_CONNECTION_LIMIT by {
                        if a != i {
                            assert(w[a] == v[a]);
                        }
                    }
                    assert forall|a: int, j: int| 0 <= a < w.len() && 0 <= j < w[a].1.len() implies #[trigger] w[a].1[j] < self.next_id by {
                        if a != i {
                            assert(w[a] == v[a]);
                        } else if j < v[a].1.len() {
                            assert(w[a].1[j] == v[a].1[j]);
                        }
                    }
                }
            },
            None => {
                let mut conns: Vec<u64> = Vec::new();
                conns.push(id);
                self.sessions.push(UserSessions { user_id: u, conns });
                proof {
                    assert(self.view_sessions() =~= v.push((user@, seq![id])));
                    lemma_total_push(v, (user@, seq![id]), v.len() as int);
                    let w = self.view_sessions();
                    assert forall|a: int, b: int| 0 <= a < b < w.len() implies #[trigger] w[a].0 != #[trigger] w[b].0 by {
                        assert(w[a] == v[a]);
                        if b < v.len() {
                            assert(w[b] == v[b]);
                        }
                    }
                    assert forall|a: int| 0 <= a < w.len() implies #[trigger] w[a].1.len() > 0 && w[a].1.len() <= WS_USER_CONNECTION_LIMIT by {
                        if a < v.len() {
                            assert(w[a] == v[a]);
                        }
                    }
                    assert forall|a: int, j: int| 0 <= a < w.len() && 0 <= j < w[a].1.len() implies #[trigger] w[a].1[j] < self.next_id by {
                        if a < v.len() {
                            assert(w[a] == v[a]);
                        }
                    }
                }
            },
        }
        Ok(id)
    }

    /// Drops connection `id` of `user` (a user left without connections
    /// loses its entry); nothing happens when the user does not hold it.
    pub fn remove(&mut self, user: &str, id: u64)
        requires
            registry_wf(old(self).view_sessions(), old(self).next_id),
        ensures
            registry_wf(final(self).view_sessions(), final(self).next_id),
            final(self).view_sessions() == remove_conn(old(self).view_sessions(), user@, id),
            final(self).next_id == old(self).next_id,
    {
        let ghost v = self.view_sessions();
        let u = user.to_owned();
        let found = find_user_exec(&self.sessions, &u);
        proof {
            lemma_find_user(v, user@, 0);
        }
        if let Some(i) = found {
            let mut e = self.sessions.remove(i);
            let ghost before = e.conns@;
            let mut kept: Vec<u64> = Vec::new();
            let mut k: usize = 0;
            while k < e.conns.len()
                invariant
                    k <= e.conns@.len(),
                    e.conns@ == before,
                    kept@ == without(before.take(k as int), id),
                decreases e.conns@.len() - k,
            {
                assert(before.take(k + 1).drop_last() == before.take(k as int));
                if e.conns[k] != id {
                    kept.push(e.conns[k]);
                }
                k += 1;
            }
            assert(before.take(before.len() as int) == before);
            proof {
                lemma_without(before, id);
            }
            if kept.len() == 0 {
                proof {
                    assert(sessions_view(self.sessions@) =~= v.remove(i as int));
                    lemma_total_remove(v, i as int, v.len() as int);
                    let w = v.remove(i as int);
                    assert forall|a: int, b: int| 0 <= a < b < w.len() implies #[trigger] w[a].0 != #[trigger] w[b].0 by {
                        let a2 = if a < i { a } else { a + 1 };
                        let b2 = if b < i { b } else { b + 1 };
                        assert(w[a] == v[a2] && w[b] == v[b2]);
                    }
                    assert forall|a: int| 0 <= a < w.len() implies #[trigger] w[a].1.len() > 0 && w[a].1.len() <= WS_USER_CONNECTION_LIMIT by {
                        let a2 = if a < i { a } else { a + 1 };
                        assert(w[a] == v[a2]);
                    }
                    assert forall|a: int, j: int| 0 <= a < w.len() && 0 <= j < w[a].1.len() implies #[trigger] w[a].1[j] < self.next_id by {
                        let a2 = if a < i { a } else { a + 1 };
                        assert(w[a] == v[a2]);
                        assert(w[a].1[j] == v[a2].1[j]);
                    }
                }
            } else {
                e.conns = kept;
                e.user_id = u;
                self.sessions.insert(i, e);
                proof {
                    let l = without(before, id);
                    assert(self.view_sessions() =~= v.update(i as int, (user@, l)));
                    lemma_total_update(v, i as int, (user@, l), v.len() as int);
                    let w = self.view_sessions();
                    assert forall|a: int, b: int| 0 <= a < b < w.len() implies #[trigger] w[a].0 != #[trigger] w[b].0 by {
                        assert(w[a].0 == v[a].0 && w[b].0 == v[b].0);
                    }
                    assert forall|a: int| 0 <= a < w.len() implies #[trigger] w[a].1.len() > 0 && w[a].1.len() <= WS_USER_CONNECTION_LIMIT by {
                        if a != i {
                            assert(w[a] == v[a]);
                        }
                    }
                    assert forall|a: int, j: int| 0 <= a < w.len() && 0 <= j < w[a].1.len() implies #[trigger] w[a].1[j] < self.next_id by {
                        if a != i {
                            assert(w[a] == v[a]);
                        } else {
                            assert(before.contains(l[j]));
                            let t = choose|t: int| 0 <= t < before.len() && before[t] == l[j];
                            assert(v[a].1[t] == l[j]);
                        }
                    }
                }
            }
        }
    }
}

proof fn lemma_total_bound(v: Seq<(Seq<char>, Seq<u64>)>, n: int)
    requires
        0 <= n <= v.len(),
    ensures
        total_conns(v, n) >= 0,
    decreases n,
{
    if n > 0 {
        lemma_total_bound(v, n - 1);
    }
}

proof fn lemma_total_mono(v: Seq<(Seq<char>, Seq<u64>)>, m: int, n: int)
    requires
        0 <= m <= n <= v.len(),
    ensures
        total_conns(v, m) <= total_conns(v, n),
    decreases n,
{
    if n > m {
        lemma_total_mono(v, m, n - 1);
    }
}

/// Registering a connection and dropping it again leaves the registry as
/// it was.
pub proof fn register_then_remove(v: Seq<(Seq<char>, Seq<u64>)>, next_id: u64, user: Seq<char>)
    requires
        registry_wf(v, next_id),
    ensures
        remove_conn(add_conn(v, user, next_id), user, next_id) == v,
{
    lemma_find_user(v, user, 0);
    let w = add_conn(v, user, next_id);
    match find_user(v, user, 0) {
        Some(i) => {
            let l = v[i].1;
            assert(w == v.update(i, (user, l.push(next_id))));
            assert forall|j: int| 0 <= j < i implies #[trigger] w[j].0 != user by {
                assert(w[j] == v[j]);
            }
            lemma_find_user_at(w, user, i);
            assert(!l.contains(next_id)) by {
                if l.contains(next_id) {
                    let t = choose|t: int| 0 <= t < l.len() && l[t] == next_id;
                    assert(v[i].1[t] < next_id);
                }
            }
            lemma_without(l, next_id);
            assert(l.push(next_id).drop_last() == l);
            assert(without(l.push(next_id), next_id) == l);
            assert(v[i].1.len() > 0);
            assert(w.update(i, (user, l)) =~= v);
        },
        None => {
            assert(w == v.push((user, seq![next_id])));
            assert forall|j: int| 0 <= j < v.len() implies #[trigger] w[j].0 != user by {
                assert(w[j] == v[j]);
            }
            lemma_find_user_at(w, user, v.len() as int);
            assert(seq![next_id].drop_last() == Seq::<u64>::empty());
            assert(seq![next_id].last() == next_id);
            assert(without(Seq::<u64>::empty(), next_id) == Seq::<u64>::empty());
            assert(without(seq![next_id], next_id) == Seq::<u64>::empty());
            assert(w.remove(v.len() as int) =~= v);
        },
    }
}

proof fn lemma_without_filter(s: Seq<u64>, id: u64)
    ensures
        without(s, id) == s.filter(|c: u64| c != id),
    decreases s.len(),
{
    reveal(Seq::filter);
    if s.len() > 0 {
        lemma_without_filter(s.drop_last(), id);
    }
}

proof fn lemma_find_same_names(v: Seq<(Seq<char>, Seq<u64>)>, w: Seq<(Seq<char>, Seq<u64>)>, user: Seq<char>)
    requires
        v.len() == w.len(),
        forall|j: int| 0 <= j < v.len() ==> (#[trigger] w[j]).0 == v[j].0,
    ensures
        find_user(w, user, 0) == find_user(v, user, 0),
{
    lemma_find_user(v, user, 0);
    lemma_find_user(w, user, 0);
    match find_user(v, user, 0) {
        Some(i) => {
            assert(w[i].0 == user);
            lemma_find_user_at(w, user, i);
        },
        None => {
            if find_user(w, user, 0) is Some {
                let k = find_user(w, user, 0)->0;
                assert(v[k].0 == w[k].0);
            }
        },
    }
}

/// Registering and dropping connections, user by user: a registration
/// appends the new id to that user's connections; a removal drops that id
/// from them (keeping the others in order); neither changes the
/// connections of any other user.
pub proof fn connections_change_only_for_their_user(
    v: Seq<(Seq<char>, Seq<u64>)>,
    next_id: u64,
    user: Seq<char>,
    other: Seq<char>,
    id: u64,
)
    requires
        registry_wf(v, next_id),
        other != user,
    ensures
        user_conns(add_conn(v, user, id), user) == user_conns(v, user).push(id),
        user_conns(add_conn(v, user, id), other) == user_conns(v, other),
        user_conns(remove_conn(v, user, id), user) == user_conns(v, user).filter(|c: u64| c != id),
        user_conns(remove_conn(v, user, id), other) == user_conns(v, other),
{
    lemma_find_user(v, user, 0);
    lemma_find_user(v, other, 0);
    match find_user(v, user, 0) {
        Some(i) => {
            let l = v[i].1;
            lemma_without_filter(l, id);
            let w = v.update(i, (user, l.push(id)));
            assert forall|j: int| 0 <= j < v.len() implies (#[trigger] w[j]).0 == v[j].0 by {}
            lemma_find_same_names(v, w, user);
            lemma_find_same_names(v, w, other);
            if find_user(v, other, 0) is Some {
                assert(find_user(v, other, 0)->0 != i);
            }
            let r = without(l, id);
            if r.len() == 0 {
                let x = v.remove(i);
                assert forall|j: int| 0 <= j < x.len() implies #[trigger] x[j].0 != user by {
                    if j < i {
                        assert(x[j] == v[j]);
                    } else {
                        assert(x[j] == v[j + 1]);
                        assert(v[i].0 != v[j + 1].0);
                    }
                }
                lemma_find_user(x, user, 0);
                assert(l.filter(|c: u64| c != id) =~= Seq::<u64>::empty());
                match find_user(v, other, 0) {
                    Some(k) => {
                        let k2 = if k < i { k } else { k - 1 };
                        assert(x[k2] == v[k]);
                        assert forall|j: int| 0 <= j < k2 implies #[trigger] x[j].0 != other by {
                            if j < i {
                                assert(x[j] == v[j]);
                            } else {
                                assert(x[j] == v[j + 1]);
                            }
                        }
                        lemma_find_user_at(x, other, k2);
                    },
                    None => {
                        lemma_find_user(x, other, 0);
                        if find_user(x, other, 0) is Some {
                            let k = find_user(x, other, 0)->0;
                            if k < i {
                                assert(x[k] == v[k]);
                            } else {
                                assert(x[k] == v[k + 1]);
                            }
                        }
                    },
                }
            } else {
                let x = v.update(i, (user, r));
                assert forall|j: int| 0 <= j < v.len() implies (#[trigger] x[j]).0 == v[j].0 by {}
                lemma_find_same_names(v, x, user);
                lemma_find_same_names(v, x, other);
            }
        },
        None => {
            let w = v.push((user, seq![id]));
            assert forall|j: int| 0 <= j < v.len() implies #[trigger] w[j].0 != user by {
                assert(w[j] == v[j]);
            }
            lemma_find_user_at(w, user, v.len() as int);
            assert(seq![id] =~= Seq::<u64>::empty().push(id));
            match find_user(v, other, 0) {
                Some(k) => {
                    assert forall|j: int| 0 <= j < k implies #[trigger] w[j].0 != other by {
                        assert(w[j] == v[j]);
                    }
                    assert(w[k] == v[k]);
                    lemma_find_user_at(w, other, k);
                },
                None => {
                    lemma_find_user(w, other, 0);
                    if find_user(w, other, 0) is Some {
                        let k = find_user(w, other, 0)->0;
                        if k < v.len() {
                            assert(w[k] == v[k]);
                        }
                    }
                },
            }
            reveal(Seq::filter);
            assert(Seq::<u64>::empty().filter(|c: u64| c != id) =~= Seq::<u64>::empty());
        },
    }
}

/// Every connection of the registry, user by user (the targets of a
/// broadcast).
pub open spec fn all_conns(v: Seq<(Seq<char>, Seq<u64>)>, n: int) -> Seq<(Seq<char>, u64)>
    decreases n,
{
    if n <= 0 {
        Seq::empty()
    } else {
        all_conns(v, n - 1) + v[n - 1].1.map_values(|c: u64| (v[n - 1].0, c))
    }
}

/// The connections of the listed users, in list order (the targets of a
/// message to users; a user without connections contributes none).
pub open spec fn users_conns(v: Seq<(Seq<char>, Seq<u64>)>, users: Seq<Seq<char>>, n: int) -> Seq<(Seq<char>, u64)>
    decreases n,
{
    if n <= 0 {
        Seq::empty()
    } else {
        users_conns(v, users, n - 1) + user_conns(v, users[n - 1]).map_values(|c: u64| (users[n - 1], c))
    }
}

proof fn lemma_all_conns(v: Seq<(Seq<char>, Seq<u64>)>, n: int)
    requires
        0 <= n <= v.len(),
    ensures
        forall|u: Seq<char>, c: u64|
            #[trigger] all_conns(v, n).contains((u, c)) <==> exists|a: int| 0 <= a < n && v[a].0 == u && #[trigger] v[a].1.contains(c),
    decreases n,
{
    if n > 0 {
        lemma_all_conns(v, n - 1);
        let p = all_conns(v, n - 1);
        let q = v[n - 1].1.map_values(|c: u64| (v[n - 1].0, c));
        assert(all_conns(v, n) == p + q);
        assert forall|u: Seq<char>, c: u64| #[trigger] all_conns(v, n).contains((u, c)) <==> exists|a: int|
            0 <= a < n && v[a].0 == u && #[trigger] v[a].1.contains(c) by {
            let r = p + q;
            if r.contains((u, c)) {
                let k = choose|k: int| 0 <= k < r.len() && r[k] == (u, c);
                if k < p.len() {
                    assert(p[k] == (u, c));
                    assert(p.contains((u, c)));
                    assert(all_conns(v, n - 1).contains((u, c)));
                } else {
                    assert(q[k - p.len()] == (u, c));
                    assert(v[n - 1].1[k - p.len()] == c);
                    assert(v[n - 1].0 == u);
                    assert(v[n - 1].1.contains(c));
                }
            }
            if exists|a: int| 0 <= a < n && v[a].0 == u && #[trigger] v[a].1.contains(c) {
                let a = choose|a: int| 0 <= a < n && v[a].0 == u && #[trigger] v[a].1.contains(c);
                if a < n - 1 {
                    assert(all_conns(v, n - 1).contains((u, c)));
                    let k = choose|k: int| 0 <= k < p.len() && p[k] == (u, c);
                    assert(r[k] == (u, c));
                } else {
                    let j = choose|j: int| 0 <= j < v[a].1.len() && v[a].1[j] == c;
                    assert(q[j] == (u, c));
                    assert(r[p.len() + j] == (u, c));
                }
            }
        }
    }
}

/// A broadcast reaches every registered connection and nothing else: the
/// targets hold `(user, id)` exactly when `id` is a connection of `user`.
pub proof fn broadcast_reaches_every_connection(v: Seq<(Seq<char>, Seq<u64>)>, next_id: u64, u: Seq<char>, c: u64)
    requires
        registry_wf(v, next_id),
    ensures
        all_conns(v, v.len() as int).contains((u, c)) <==> user_conns(v, u).contains(c),
{
    lemma_all_conns(v, v.len() as int);
    lemma_find_user(v, u, 0);
    match find_user(v, u, 0) {
        Some(i) => {
            if exists|a: int| 0 <= a < v.len() && v[a].0 == u && #[trigger] v[a].1.contains(c) {
                let a = choose|a: int| 0 <= a < v.len() && v[a].0 == u && #[trigger] v[a].1.contains(c);
                if a != i {
                    if a < i {
                        assert(v[a].0 != v[i].0);
                    } else {
                        assert(v[i].0 != v[a].0);
                    }
                }
            }
            if v[i].1.contains(c) {
                assert(v[i].0 == u);
            }
        },
        None => {},
    }
}

fn push_conns(out: &mut Vec<(String, u64)>, user: &String, conns: &Vec<u64>)
    ensures
        final(out)@.map_values(|p: (String, u64)| (p.0@, p.1)) == old(out)@.map_values(|p: (String, u64)| (p.0@, p.1))
            + conns@.map_values(|c: u64| (user@, c)),
{
    let ghost start = out@.map_values(|p: (String, u64)| (p.0@, p.1));
    let mut k: usize = 0;
    while k < conns.len()
        invariant
            k <= conns@.len(),
            out@.map_values(|p: (String, u64)| (p.0@, p.1)) == start + conns@.take(k as int).map_values(|c: u64| (user@, c)),
        decreases conns@.len() - k,
    {
        let ghost before = out@;
        out.push((user.clone(), conns[k]));
        proof {
            assert(out@.map_values(|p: (String, u64)| (p.0@, p.1)) == before.map_values(|p: (String, u64)| (p.0@, p.1)).push(
                (user@, conns@[k as int]),
            ));
            assert(conns@.take(k + 1).map_values(|c: u64| (user@, c)) == conns@.take(k as int).map_values(|c: u64| (user@, c)).push(
                (user@, conns@[k as int]),
            ));
        }
        k += 1;
    }
    assert(conns@.take(conns@.len() as int) == conns@);
}

impl SessionRegistry {
    /// After a send, drops each target connection whose delivery failed
    /// (its queue was full or closed), and gives their ids.
    pub fn drop_undelivered(&mut self, targets: &Vec<(String, u64)>, delivered: &Vec<bool>) -> (res: Vec<u64>)
        requires
            registry_wf(old(self).view_sessions(), old(self).next_id),
        ensures
            registry_wf(final(self).view_sessions(), final(self).next_id),
            final(self).view_sessions() == drop_failed(
                old(self).view_sessions(),
                targets_view(targets@),
                delivered@,
                targets@.len() as int,
            ),
            final(self).next_id == old(self).next_id,
            res@ == failed_ids(targets_view(targets@), delivered@, targets@.len() as int),
    {
        let ghost v0 = self.view_sessions();
        let ghost tv = targets_view(targets@);
        let mut dropped: Vec<u64> = Vec::new();
        let mut i: usize = 0;
        while i < targets.len()
            invariant
                i <= targets@.len(),
                tv == targets_view(targets@),
                registry_wf(self.view_sessions(), self.next_id),
                self.view_sessions() == drop_failed(v0, tv, delivered@, i as int),
                self.next_id == old(self).next_id,
                dropped@ == failed_ids(tv, delivered@, i as int),
            decreases targets@.len() - i,
        {
            if i < delivered.len() && !delivered[i] {
                let t = &targets[i];
                assert(tv[i as int] == (t.0@, t.1));
                self.remove(t.0.as_str(), t.1);
                dropped.push(t.1);
            }
            i += 1;
        }
        dropped
    }

    /// Every connection, user by user, oldest first (a broadcast's targets).
    pub fn broadcast_targets(&self) -> (res: Vec<(String, u64)>)
        ensures
            res@.map_values(|p: (String, u64)| (p.0@, p.1)) == all_conns(self.view_sessions(), self.view_sessions().len() as int),
    {
        let ghost v = self.view_sessions();
        let mut out: Vec<(String, u64)> = Vec::new();
        let mut i: usize = 0;
        while i < self.sessions.len()
            invariant
                i <= self.sessions@.len(),
                v == self.view_sessions(),
                out@.map_values(|p: (String, u64)| (p.0@, p.1)) == all_conns(v, i as int),
            decreases self.sessions@.len() - i,
        {
            push_conns(&mut out, &self.sessions[i].user_id, &self.sessions[i].conns);
            i += 1;
        }
        out
    }

    /// The connections of the listed users, in list order (a message's
    /// targets; users without connections are skipped).
    pub fn user_targets(&self, users: &Vec<String>) -> (res: Vec<(String, u64)>)
        ensures
            res@.map_values(|p: (String, u64)| (p.0@, p.1)) == users_conns(
                self.view_sessions(),
                users@.map_values(|s: String| s@),
                users@.len() as int,
            ),
    {
        let ghost v = self.view_sessions();
        let ghost us = users@.map_values(|s: String| s@);
        let mut out: Vec<(String, u64)> = Vec::new();
        let mut i: usize = 0;
        while i < users.len()
            invariant
                i <= users@.len(),
                v == self.view_sessions(),
                us == users@.map_values(|s: String| s@),
                out@.map_values(|p: (String, u64)| (p.0@, p.1)) == users_conns(v, us, i as int),
            decreases users@.len() - i,
        {
            let found = find_user_exec(&self.sessions, &users[i]);
            proof {
                lemma_find_user(v, users@[i as int]@, 0);
            }
            match found {
                Some(k) => {
                    push_conns(&mut out, &users[i], &self.sessions[k].conns);
                },
                None => {
                    assert(user_conns(v, us[i as int]).map_values(|c: u64| (us[i as int], c)) =~= Seq::<(Seq<char>, u64)>::empty());
                },
            }
            i += 1;
        }
        out
    }
}

/// When each event was last broadcast (milliseconds on a monotonic clock).
pub struct DebounceTable {
    pub last: Vec<(String, u64)>,
}

/// The last push of `event`, if any.
pub open spec fn last_push(t: Seq<(Seq<char>, u64)>, event: Seq<char>, k: int) -> Option<int>
    decreases t.len() - k,
{
    if k < 0 || k >= t.len() {
        None
    } else if t[k].0 == event {
        Some(k)
    } else {
        last_push(t, event, k + 1)
    }
}

/// The table as plain values.
pub open spec fn debounce_view(t: Seq<(String, u64)>) -> Seq<(Seq<char>, u64)> {
    t.map_values(|p: (String, u64)| (p.0@, p.1))
}

/// Whether a broadcast of `event` at `now` goes out: not when the same
/// event went out less than `window` ago (time before the last push counts
/// as no time).
pub open spec fn debounce_allows(t: Seq<(Seq<char>, u64)>, event: Seq<char>, now: u64, window: u64) -> bool {
    match last_push(t, event, 0) {
        Some(i) => !(now >= t[i].1 && now - t[i].1 < window) && !(now < t[i].1 && 0 < window),
        None => true,
    }
}

/// The table after a broadcast of `event` at `now` goes out.
pub open spec fn debounce_record(t: Seq<(Seq<char>, u64)>, event: Seq<char>, now: u64) -> Seq<(Seq<char>, u64)> {
    match last_push(t, event, 0) {
        Some(i) => t.update(i, (event, now)),
        None => t.push((event, now)),
    }
}

/// No event is noted twice.
pub open spec fn events_unique(t: Seq<(Seq<char>, u64)>) -> bool {
    forall|a: int, b: int| 0 <= a < b < t.len() ==> #[trigger] t[a].0 != #[trigger] t[b].0
}

/// Noting a broadcast keeps each event noted once.
pub proof fn record_keeps_events_unique(t: Seq<(Seq<char>, u64)>, event: Seq<char>, now: u64)
    requires
        events_unique(t),
    ensures
        events_unique(debounce_record(t, event, now)),
{
    lemma_last_push(t, event, 0);
    let u = debounce_record(t, event, now);
    match last_push(t, event, 0) {
        Some(i) => {
            assert forall|a: int, b: int| 0 <= a < b < u.len() implies #[trigger] u[a].0 != #[trigger] u[b].0 by {
                assert(t[a].0 != t[b].0);
            }
        },
        None => {
            assert forall|a: int, b: int| 0 <= a < b < u.len() implies #[trigger] u[a].0 != #[trigger] u[b].0 by {
                if b == t.len() {
                    assert(t[a].0 != event);
                } else {
                    assert(t[a].0 != t[b].0);
                }
            }
        },
    }
}

impl DebounceTable {
    /// A table with no broadcast noted.
    pub fn new() -> (res: DebounceTable)
        ensures
            debounce_view(res.last@) == Seq::<(Seq<char>, u64)>::empty(),
            events_unique(debounce_view(res.last@)),
    {
        let t = DebounceTable { last: Vec::new() };
        assert(debounce_view(t.last@) =~= Seq::<(Seq<char>, u64)>::empty());
        t
    }

    /// Decides whether a broadcast of `event` at `now` goes out, and notes
    /// it when it does (a suppressed one leaves the table alone).
    pub fn allow(&mut self, event: &str, now: u64, window: u64) -> (res: bool)
        ensures
            res == debounce_allows(debounce_view(old(self).last@), event@, now, window),
            debounce_view(final(self).last@) == (if res {
                debounce_record(debounce_view(old(self).last@), event@, now)
            } else {
                debounce_view(old(self).last@)
            }),
            events_unique(debounce_view(old(self).last@)) ==> events_unique(debounce_view(final(self).last@)),
    {
        proof {
            if events_unique(debounce_view(self.last@)) {
                record_keeps_events_unique(debounce_view(self.last@), event@, now);
            }
        }
        let ghost t = debounce_view(self.last@);
        let e = event.to_owned();
        let mut i: usize = 0;
        while i < self.last.len()
            invariant
                i <= self.last@.len(),
                t == debounce_view(self.last@),
                self.last@ == old(self).last@,
                e@ == event@,
                last_push(t, event@, 0) == last_push(t, event@, i as int),
            decreases self.last@.len() - i,
        {
            if self.last[i].0 == e {
                let prev = self.last[i].1;
                proof {
                    assert(t[i as int] == (self.last@[i as int].0@, prev));
                    assert(last_push(t, event@, i as int) == Some(i as int));
                }
                let elapsed: u64 = if now >= prev { now - prev } else { 0 };
                if elapsed < window {
                    return false;
                }
                self.last.set(i, (e, now));
                proof {
                    assert(debounce_view(self.last@) =~= t.update(i as int, (event@, now)));
                }
                return true;
            }
            i += 1;
        }
        self.last.push((e, now));
        proof {
            assert(debounce_view(self.last@) =~= t.push((event@, now)));
        }
        true
    }
}

proof fn lemma_last_push(t: Seq<(Seq<char>, u64)>, event: Seq<char>, k: int)
    requires
        0 <= k,
    ensures
        match last_push(t, event, k) {
            Some(i) => k <= i < t.len() && t[i].0 == event && forall|j: int| k <= j < i ==> #[trigger] t[j].0 != event,
            None => forall|j: int| k <= j < t.len() ==> #[trigger] t[j].0 != event,
        },
    decreases t.len() - k,
{
    if k < t.len() && t[k].0 != event {
        lemma_last_push(t, event, k + 1);
    }
}

proof fn lemma_last_push_at(t: Seq<(Seq<char>, u64)>, event: Seq<char>, i: int)
    requires
        0 <= i < t.len(),
        t[i].0 == event,
        forall|j: int| 0 <= j < i ==> #[trigger] t[j].0 != event,
    ensures
        last_push(t, event, 0) == Some(i),
{
    lemma_last_push(t, event, 0);
    match last_push(t, event, 0) {
        Some(k) => {
            if k < i {
                assert(t[k].0 != event);
            } else if k > i {
                assert(t[i].0 != event);
            }
        },
        None => {
            assert(t[i].0 != event);
        },
    }
}

/// The debounce: once an event goes out at `t1`, the same event at any
/// `t2` from `t1` until the window has run is suppressed; once it has run,
/// it goes out again.
pub proof fn debounce_suppresses_repeat(t: Seq<(Seq<char>, u64)>, event: Seq<char>, t1: u64, t2: u64, window: u64)
    requires
        t1 <= t2,
    ensures
        debounce_allows(debounce_record(t, event, t1), event, t2, window) == (t2 - t1 >= window),
{
    lemma_last_push(t, event, 0);
    let r = debounce_record(t, event, t1);
    match last_push(t, event, 0) {
        Some(i) => {
            assert forall|j: int| 0 <= j < i implies #[trigger] r[j].0 != event by {
                assert(r[j] == t[j]);
            }
            lemma_last_push_at(r, event, i);
        },
        None => {
            assert forall|j: int| 0 <= j < t.len() implies #[trigger] r[j].0 != event by {
                assert(r[j] == t[j]);
            }
            lemma_last_push_at(r, event, t.len() as int);
        },
    }
}

} // verus!
