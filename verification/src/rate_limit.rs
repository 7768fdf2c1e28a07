//! IP rate limiting: a fixed window anchored at the first count of a key,
//! and the in-process table that stands in when Redis is unavailable.

use vstd::prelude::*;
use vstd::string::*;
use crate::text::push_text;

verus! {

/// One counted key: its count in the current window and when the window
/// ends (the first count's time plus the window length).
pub struct RateEntry {
    pub key: String,
    pub count: u32,
    pub expires_at: i64,
}

/// The in-process counts, one entry per key.
pub struct RateTable {
    pub entries: Vec<RateEntry>,
}

impl RateTable {
    /// A table with no key counted.
    pub fn new() -> (res: RateTable)
        ensures
            res.entries@ == Seq::<RateEntry>::empty(),
            keys_unique(res.entries@),
    {
        RateTable { entries: Vec::new() }
    }
}

/// No two entries have the same key.
pub open spec fn keys_unique(entries: Seq<RateEntry>) -> bool {
    forall|a: int, b: int| 0 <= a < b < entries.len() ==> #[trigger] entries[a].key@ != #[trigger] entries[b].key@
}

/// The entries, among the first `n`, whose window has not ended at `now`.
pub open spec fn live_entries(entries: Seq<RateEntry>, now: i64, n: int) -> Seq<RateEntry>
    decreases n,
{
    if n <= 0 {
        Seq::empty()
    } else {
        let p = live_entries(entries, now, n - 1);
        if now < entries[n - 1].expires_at {
            p.push(entries[n - 1])
        } else {
            p
        }
    }
}

/// The entries whose window has not ended at `now`, in order.
pub open spec fn sweep(entries: Seq<RateEntry>, now: i64) -> Seq<RateEntry> {
    live_entries(entries, now, entries.len() as int)
}

proof fn lemma_live_entries(entries: Seq<RateEntry>, now: i64, n: int)
    requires
        0 <= n <= entries.len(),
    ensures
        forall|k: int| 0 <= k < live_entries(entries, now, n).len() ==> now < #[trigger] live_entries(entries, now, n)[k].expires_at,
        forall|k: int| 0 <= k < live_entries(entries, now, n).len() ==> exists|j: int| #![trigger entries[j]] 0 <= j < n && entries[j] == #[trigger] live_entries(entries, now, n)[k],
        keys_unique(entries) ==> keys_unique(live_entries(entries, now, n)),
        forall|j: int| 0 <= j < n && now < #[trigger] entries[j].expires_at ==> live_entries(entries, now, n).contains(entries[j]),
    decreases n,
{
    if n > 0 {
        lemma_live_entries(entries, now, n - 1);
        let p = live_entries(entries, now, n - 1);
        let q = live_entries(entries, now, n);
        assert forall|k: int| 0 <= k < q.len() implies exists|j: int| #![trigger entries[j]] 0 <= j < n && entries[j] == #[trigger] q[k] by {
            if k < p.len() {
                assert(q[k] == p[k]);
                let j = choose|j: int| #![trigger entries[j]] 0 <= j < n - 1 && entries[j] == p[k];
                assert(entries[j] == q[k]);
            } else {
                assert(q[k] == entries[n - 1]);
            }
        }
        if keys_unique(entries) {
            assert forall|a: int, b: int| 0 <= a < b < q.len() implies #[trigger] q[a].key@ != #[trigger] q[b].key@ by {
                if b < p.len() {
                    assert(q[a] == p[a] && q[b] == p[b]);
                } else {
                    assert(q[a] == p[a]);
                    let j = choose|j: int| #![trigger entries[j]] 0 <= j < n - 1 && entries[j] == p[a];
                    assert(entries[j].key@ != entries[n - 1].key@);
                }
            }
        }
        assert forall|j: int| 0 <= j < n && now < #[trigger] entries[j].expires_at implies q.contains(entries[j]) by {
            if j < n - 1 {
                assert(p.contains(entries[j]));
                let k = choose|k: int| 0 <= k < p.len() && p[k] == entries[j];
                assert(q[k] == p[k]);
            } else {
                assert(q[q.len() - 1] == entries[j]);
            }
        }
    }
}

/// Drops the entries whose window has ended at `now`.
pub fn sweep_stale_entries(table: &mut RateTable, now: i64)
    ensures
        final(table).entries@ == sweep(old(table).entries@, now),
{
    let ghost start = table.entries@;
    let mut kept: Vec<RateEntry> = Vec::new();
    let mut rest: Vec<RateEntry> = Vec::new();
    std::mem::swap(&mut rest, &mut table.entries);
    let mut i: usize = 0;
    let n = rest.len();
    while i < n
        invariant
            n == start.len(),
            i <= n,
            rest@ == start.skip(i as int),
            kept@ == live_entries(start, now, i as int),
        decreases n - i,
    {
        let e = rest.remove(0);
        proof {
            assert(e == start[i as int]);
        }
        if now < e.expires_at {
            kept.push(e);
        }
        i += 1;
        proof {
            assert(rest@ =~= start.skip(i as int));
        }
    }
    table.entries = kept;
}

/// An entry as plain values: key, count, window end.
pub open spec fn entry_view(e: RateEntry) -> (Seq<char>, u32, i64) {
    (e.key@, e.count, e.expires_at)
}

/// The entries as plain values.
pub open spec fn table_view(entries: Seq<RateEntry>) -> Seq<(Seq<char>, u32, i64)> {
    entries.map_values(|e: RateEntry| entry_view(e))
}

/// `a + b` clamped to the `i64` range (`i64::saturating_add`).
pub open spec fn sat_add(a: i64, b: i64) -> i64 {
    if a + b > i64::MAX {
        i64::MAX
    } else if a + b < i64::MIN {
        i64::MIN
    } else {
        (a + b) as i64
    }
}

/// `a + b` clamped to the `i64` range.
pub fn sat_add_i64(a: i64, b: i64) -> (res: i64)
    ensures
        res == sat_add(a, b),
{
    let s: i128 = a as i128 + b as i128;
    if s > 9223372036854775807i128 {
        9223372036854775807i64
    } else if s < -9223372036854775808i128 {
        -9223372036854775808i64
    } else {
        s as i64
    }
}

/// When a window opened at `now` ends (the window length is taken as an
/// `i64`, as `window_secs as i64` does).
pub open spec fn window_end(now: i64, window_secs: u64) -> i64 {
    sat_add(now, window_secs as i64)
}

/// A count plus one, staying at `u32::MAX`.
pub open spec fn bump(c: u32) -> u32 {
    if c == u32::MAX {
        c
    } else {
        (c + 1) as u32
    }
}

/// The first entry with key `key`.
pub open spec fn find_key(t: Seq<(Seq<char>, u32, i64)>, key: Seq<char>, k: int) -> Option<int>
    decreases t.len() - k,
{
    if k < 0 || k >= t.len() {
        None
    } else if t[k].0 == key {
        Some(k)
    } else {
        find_key(t, key, k + 1)
    }
}

/// One count of `key` at `now` on the live entries: the key's window is
/// kept while it runs (and its count goes up by one), or opens at `now`
/// with count 1; the new table and the count.
pub open spec fn count_step(live: Seq<(Seq<char>, u32, i64)>, key: Seq<char>, window_secs: u64, now: i64) -> (
    Seq<(Seq<char>, u32, i64)>,
    u32,
) {
    let fresh = window_end(now, window_secs);
    match find_key(live, key, 0) {
        Some(i) => {
            let base: (u32, i64) = if now >= live[i].2 { (0u32, fresh) } else { (live[i].1, live[i].2) };
            (live.update(i, (key, bump(base.0), base.1)), bump(base.0))
        },
        None => (live.push((key, 1u32, fresh)), 1u32),
    }
}

proof fn lemma_find_key(t: Seq<(Seq<char>, u32, i64)>, key: Seq<char>, k: int)
    requires
        0 <= k,
    ensures
        match find_key(t, key, k) {
            Some(i) => k <= i < t.len() && t[i].0 == key && forall|j: int| k <= j < i ==> #[trigger] t[j].0 != key,
            None => forall|j: int| k <= j < t.len() ==> #[trigger] t[j].0 != key,
        },
    decreases t.len() - k,
{
    if k < t.len() && t[k].0 != key {
        lemma_find_key(t, key, k + 1);
    }
}

fn find_rate_key(entries: &Vec<RateEntry>, k: &String) -> (res: Option<usize>)
    ensures
        match res {
            Some(i) => find_key(table_view(entries@), k@, 0) == Some(i as int),
            None => find_key(table_view(entries@), k@, 0) is None,
        },
{
    let ghost t = table_view(entries@);
    let mut i: usize = 0;
    while i < entries.len()
        invariant
            i <= entries@.len(),
            t == table_view(entries@),
            find_key(t, k@, 0) == find_key(t, k@, i as int),
        decreases entries@.len() - i,
    {
        if entries[i].key == *k {
            return Some(i);
        }
        i += 1;
    }
    None
}

/// No two entries (as plain values) share a key.
pub open spec fn unique_keys(t: Seq<(Seq<char>, u32, i64)>) -> bool {
    forall|a: int, b: int| 0 <= a < b < t.len() ==> #[trigger] t[a].0 != #[trigger] t[b].0
}

proof fn lemma_keys_unique_view(entries: Seq<RateEntry>)
    ensures
        keys_unique(entries) <==> unique_keys(table_view(entries)),
{
    let t = table_view(entries);
    if keys_unique(entries) {
        assert forall|a: int, b: int| 0 <= a < b < t.len() implies #[trigger] t[a].0 != #[trigger] t[b].0 by {
            assert(entries[a].key@ != entries[b].key@);
        }
    }
    if unique_keys(t) {
        assert forall|a: int, b: int| 0 <= a < b < entries.len() implies #[trigger] entries[a].key@ != #[trigger] entries[b].key@ by {
            assert(t[a].0 != t[b].0);
        }
    }
}

proof fn lemma_sweep_view_unique(t: Seq<(Seq<char>, u32, i64)>, now: i64, n: int)
    requires
        0 <= n <= t.len(),
        unique_keys(t),
    ensures
        unique_keys(sweep_view(t, now, n)),
        forall|k: int| 0 <= k < sweep_view(t, now, n).len() ==> exists|j: int| 0 <= j < n && #[trigger] t[j] == #[trigger] sweep_view(t, now, n)[k],
    decreases n,
{
    if n > 0 {
        lemma_sweep_view_unique(t, now, n - 1);
        let p = sweep_view(t, now, n - 1);
        let q = sweep_view(t, now, n);
        assert forall|k: int| #![trigger q[k]] 0 <= k < q.len() implies exists|j: int| 0 <= j < n && #[trigger] t[j] == q[k] by {
            if k < p.len() {
                assert(q[k] == p[k]);
                let j = choose|j: int| 0 <= j < n - 1 && #[trigger] t[j] == p[k];
            } else {
                assert(q[k] == t[n - 1]);
            }
        }
        if now < t[n - 1].2 {
            assert forall|a: int, b: int| 0 <= a < b < q.len() implies #[trigger] q[a].0 != #[trigger] q[b].0 by {
                if b < p.len() {
                    assert(q[a] == p[a] && q[b] == p[b]);
                } else {
                    assert(q[a] == p[a]);
                    let j = choose|j: int| 0 <= j < n - 1 && #[trigger] t[j] == p[a];
                    assert(t[j].0 != t[n - 1].0);
                }
            }
        }
    }
}

proof fn lemma_open_failures_unique(t: Seq<(Seq<char>, u32, i64)>, now: i64, n: int)
    requires
        0 <= n <= t.len(),
        unique_keys(t),
    ensures
        unique_keys(open_failures(t, now, n)),
        forall|k: int| 0 <= k < open_failures(t, now, n).len() ==> exists|j: int| 0 <= j < n && #[trigger] t[j] == #[trigger] open_failures(t, now, n)[k],
    decreases n,
{
    if n > 0 {
        lemma_open_failures_unique(t, now, n - 1);
        let p = open_failures(t, now, n - 1);
        let q = open_failures(t, now, n);
        assert forall|k: int| #![trigger q[k]] 0 <= k < q.len() implies exists|j: int| 0 <= j < n && #[trigger] t[j] == q[k] by {
            if k < p.len() {
                assert(q[k] == p[k]);
                let j = choose|j: int| 0 <= j < n - 1 && #[trigger] t[j] == p[k];
            } else {
                assert(q[k] == t[n - 1]);
            }
        }
        if sat_sub(now, t[n - 1].2) < LOGIN_RATE_LIMIT_WINDOW_SECS {
            assert forall|a: int, b: int| 0 <= a < b < q.len() implies #[trigger] q[a].0 != #[trigger] q[b].0 by {
                if b < p.len() {
                    assert(q[a] == p[a] && q[b] == p[b]);
                } else {
                    assert(q[a] == p[a]);
                    let j = choose|j: int| 0 <= j < n - 1 && #[trigger] t[j] == p[a];
                    assert(t[j].0 != t[n - 1].0);
                }
            }
        }
    }
}

/// Setting the entry of a key, in place or added, keeps the keys unique.
proof fn lemma_set_key_unique(t: Seq<(Seq<char>, u32, i64)>, key: Seq<char>, c: u32, e: i64)
    requires
        unique_keys(t),
    ensures
        unique_keys(match find_key(t, key, 0) {
            Some(i) => t.update(i, (key, c, e)),
            None => t.push((key, c, e)),
        }),
{
    lemma_find_key(t, key, 0);
    match find_key(t, key, 0) {
        Some(i) => {
            let u = t.update(i, (key, c, e));
            assert forall|a: int, b: int| 0 <= a < b < u.len() implies #[trigger] u[a].0 != #[trigger] u[b].0 by {
                assert(t[a].0 != t[b].0);
            }
        },
        None => {
            let u = t.push((key, c, e));
            assert forall|a: int, b: int| 0 <= a < b < u.len() implies #[trigger] u[a].0 != #[trigger] u[b].0 by {
                if b == t.len() {
                    assert(t[a].0 != key);
                } else {
                    assert(t[a].0 != t[b].0);
                }
            }
        },
    }
}

/// A count keeps the table's keys unique.
pub proof fn count_keeps_keys_unique(t: Seq<(Seq<char>, u32, i64)>, key: Seq<char>, window_secs: u64, now: i64)
    requires
        unique_keys(t),
    ensures
        unique_keys(count_step(sweep_view(t, now, t.len() as int), key, window_secs, now).0),
{
    let live = sweep_view(t, now, t.len() as int);
    lemma_sweep_view_unique(t, now, t.len() as int);
    lemma_find_key(live, key, 0);
    match find_key(live, key, 0) {
        Some(i) => {
            let fresh = window_end(now, window_secs);
            let base: (u32, i64) = if now >= live[i].2 { (0u32, fresh) } else { (live[i].1, live[i].2) };
            lemma_set_key_unique(live, key, bump(base.0), base.1);
        },
        None => {
            lemma_set_key_unique(live, key, 1u32, window_end(now, window_secs));
        },
    }
}

/// A login check and a recorded failure keep the failure table's IPs
/// unique.
pub proof fn login_tables_keep_ips_unique(t: Seq<(Seq<char>, u32, i64)>, ip: Seq<char>, now: i64)
    requires
        unique_keys(t),
    ensures
        unique_keys(after_check(t, ip, now)),
        unique_keys(after_failure(t, ip, now)),
{
    let live = open_failures(t, now, t.len() as int);
    lemma_open_failures_unique(t, now, t.len() as int);
    let cur = current_failures(live, ip, now);
    lemma_set_key_unique(live, ip, cur.0, cur.1);
    lemma_set_key_unique(live, ip, bump(cur.0), cur.1);
}

/// Counts one request of `key` at time `now` in the in-process table:
/// stale entries are dropped first, then `count_step` (a count stays at
/// `u32::MAX` rather than wrap). Returns the key's count in its window.
pub fn count_local(table: &mut RateTable, key: &str, window_secs: u64, now: i64) -> (res: u32)
    ensures
        (table_view(final(table).entries@), res) == count_step(
            sweep_view(table_view(old(table).entries@), now, old(table).entries@.len() as int),
            key@,
            window_secs,
            now,
        ),
        keys_unique(old(table).entries@) ==> keys_unique(final(table).entries@),
{
    proof {
        lemma_sweep_view(table.entries@, now, table.entries@.len() as int);
        lemma_keys_unique_view(table.entries@);
        if keys_unique(table.entries@) {
            count_keeps_keys_unique(table_view(table.entries@), key@, window_secs, now);
        }
    }
    sweep_stale_entries(table, now);
    let ghost live = table_view(table.entries@);
    let fresh = sat_add_i64(now, window_secs as i64);
    let k = key.to_owned();
    let found = find_rate_key(&table.entries, &k);
    proof {
        lemma_find_key(live, key@, 0);
    }
    match found {
        Some(i) => {
            let mut e = table.entries.remove(i);
            if now >= e.expires_at {
                e.count = 0;
                e.expires_at = fresh;
            }
            if e.count < u32::MAX {
                e.count = e.count + 1;
            }
            e.key = k;
            let c = e.count;
            table.entries.insert(i, e);
            proof {
                assert(table_view(table.entries@) =~= live.update(i as int, (key@, c, table.entries@[i as int].expires_at)));
                lemma_keys_unique_view(table.entries@);
            }
            c
        },
        None => {
            table.entries.push(RateEntry { key: k, count: 1, expires_at: fresh });
            proof {
                assert(table_view(table.entries@) =~= live.push((key@, 1u32, fresh)));
                lemma_keys_unique_view(table.entries@);
            }
            1
        },
    }
}

proof fn lemma_live_filter(entries: Seq<RateEntry>, now: i64, n: int)
    requires
        0 <= n <= entries.len(),
    ensures
        live_entries(entries, now, n) == entries.take(n).filter(|e: RateEntry| now < e.expires_at),
    decreases n,
{
    if n == 0 {
        reveal(Seq::filter);
        assert(entries.take(0).filter(|e: RateEntry| now < e.expires_at) =~= Seq::<RateEntry>::empty());
    } else {
        lemma_live_filter(entries, now, n - 1);
        assert(entries.take(n) =~= entries.take(n - 1).push(entries[n - 1]));
        entries.take(n - 1).lemma_filter_push(entries[n - 1], |e: RateEntry| now < e.expires_at);
    }
}

/// A sweep keeps, in order, exactly the entries whose window ends after
/// `now`: the table filtered by `now < expires_at`.
pub proof fn sweep_keeps_exactly_the_open_windows(entries: Seq<RateEntry>, now: i64)
    ensures
        sweep(entries, now) == entries.filter(|e: RateEntry| now < e.expires_at),
{
    lemma_live_filter(entries, now, entries.len() as int);
    assert(entries.take(entries.len() as int) =~= entries);
}

/// The live entries, as plain values, among the first `n`.
pub open spec fn sweep_view(t: Seq<(Seq<char>, u32, i64)>, now: i64, n: int) -> Seq<(Seq<char>, u32, i64)>
    decreases n,
{
    if n <= 0 {
        Seq::empty()
    } else {
        let p = sweep_view(t, now, n - 1);
        if now < t[n - 1].2 {
            p.push(t[n - 1])
        } else {
            p
        }
    }
}

proof fn lemma_sweep_view(entries: Seq<RateEntry>, now: i64, n: int)
    requires
        0 <= n <= entries.len(),
    ensures
        table_view(live_entries(entries, now, n)) == sweep_view(table_view(entries), now, n),
    decreases n,
{
    if n > 0 {
        lemma_sweep_view(entries, now, n - 1);
        let p = live_entries(entries, now, n - 1);
        assert(table_view(p.push(entries[n - 1])) == table_view(p).push(entry_view(entries[n - 1])));
    }
}

proof fn lemma_sweep_keeps_first(t: Seq<(Seq<char>, u32, i64)>, key: Seq<char>, now: i64, i: int, n: int)
    requires
        0 <= i < n <= t.len(),
        t[i].0 == key,
        now < t[i].2,
        forall|j: int| 0 <= j < i ==> #[trigger] t[j].0 != key,
    ensures
        find_key(sweep_view(t, now, n), key, 0) matches Some(k) && sweep_view(t, now, n)[k] == t[i],
    decreases n,
{
    if n - 1 > i {
        lemma_sweep_keeps_first(t, key, now, i, n - 1);
        let p = sweep_view(t, now, n - 1);
        let k = find_key(p, key, 0)->0;
        lemma_find_key(p, key, 0);
        if now < t[n - 1].2 {
            lemma_find_key_prefix(p, t[n - 1], key, 0);
        }
    } else {
        let p = sweep_view(t, now, i);
        lemma_sweep_view_keys(t, now, i, key);
        lemma_find_key(p, key, 0);
        lemma_find_key_prefix(p, t[i], key, 0);
        lemma_find_key(p.push(t[i]), key, 0);
    }
}

proof fn lemma_sweep_view_keys(t: Seq<(Seq<char>, u32, i64)>, now: i64, n: int, key: Seq<char>)
    requires
        0 <= n <= t.len(),
        forall|j: int| 0 <= j < n ==> #[trigger] t[j].0 != key,
    ensures
        forall|j: int| 0 <= j < sweep_view(t, now, n).len() ==> #[trigger] sweep_view(t, now, n)[j].0 != key,
    decreases n,
{
    if n > 0 {
        lemma_sweep_view_keys(t, now, n - 1, key);
        let p = sweep_view(t, now, n - 1);
        if now < t[n - 1].2 {
            assert forall|j: int| 0 <= j < p.push(t[n - 1]).len() implies #[trigger] p.push(t[n - 1])[j].0 != key by {
                if j < p.len() {
                    assert(p.push(t[n - 1])[j] == p[j]);
                }
            }
        }
    }
}

proof fn lemma_find_key_prefix(p: Seq<(Seq<char>, u32, i64)>, x: (Seq<char>, u32, i64), key: Seq<char>, k: int)
    requires
        0 <= k <= p.len(),
    ensures
        find_key(p, key, k) matches Some(i) ==> find_key(p.push(x), key, k) == Some(i),
        find_key(p, key, k) is None ==> find_key(p.push(x), key, k) == (if x.0 == key { Some(p.len() as int) } else { None::<int> }),
    decreases p.len() - k,
{
    if k < p.len() {
        assert(p.push(x)[k] == p[k]);
        if p[k].0 != key {
            lemma_find_key_prefix(p, x, key, k + 1);
        }
    } else {
        assert(p.push(x)[k] == x);
        if x.0 != key {
            assert(find_key(p.push(x), key, k + 1) is None);
        }
    }
}

/// The fixed window: once a key is counted at `t1`, a count at any `t2`
/// before its window ends is the next count in the same window (the first
/// count of a window anchors it; later counts do not move its end).
pub proof fn count_again_within_window(
    t0: Seq<(Seq<char>, u32, i64)>,
    key: Seq<char>,
    window_secs: u64,
    t1: i64,
    t2: i64,
)
    ensures
        ({
            let (t1_table, c1) = count_step(sweep_view(t0, t1, t0.len() as int), key, window_secs, t1);
            find_key(t1_table, key, 0) matches Some(i) && {
                let end = t1_table[i].2;
                &&& t1_table[i].1 == c1
                &&& (t2 < end ==> count_step(sweep_view(t1_table, t2, t1_table.len() as int), key, window_secs, t2)
                    == (sweep_view(t1_table, t2, t1_table.len() as int).update(
                        find_key(sweep_view(t1_table, t2, t1_table.len() as int), key, 0)->0,
                        (key, bump(c1), end),
                    ), bump(c1)))
            }
        }),
{
    let live = sweep_view(t0, t1, t0.len() as int);
    let (t1_table, c1) = count_step(live, key, window_secs, t1);
    lemma_find_key(live, key, 0);
    let i = match find_key(live, key, 0) {
        Some(i) => {
            assert(t1_table == live.update(i, t1_table[i]));
            assert forall|j: int| 0 <= j < i implies #[trigger] t1_table[j].0 != key by {
                assert(t1_table[j] == live[j]);
            }
            i
        },
        None => {
            assert(t1_table == live.push(t1_table[live.len() as int]));
            assert forall|j: int| 0 <= j < live.len() implies #[trigger] t1_table[j].0 != key by {
                assert(t1_table[j] == live[j]);
            }
            live.len() as int
        },
    };
    lemma_find_key(t1_table, key, 0);
    assert(find_key(t1_table, key, 0) == Some(i)) by {
        lemma_find_key_unique(t1_table, key, i);
    }
    if t2 < t1_table[i].2 {
        lemma_sweep_keeps_first(t1_table, key, t2, i, t1_table.len() as int);
    }
}

proof fn lemma_find_key_unique(t: Seq<(Seq<char>, u32, i64)>, key: Seq<char>, i: int)
    requires
        0 <= i < t.len(),
        t[i].0 == key,
        forall|j: int| 0 <= j < i ==> #[trigger] t[j].0 != key,
    ensures
        find_key(t, key, 0) == Some(i),
{
    lemma_find_key(t, key, 0);
    match find_key(t, key, 0) {
        Some(k) => {
            if k < i {
                assert(t[k].0 != key);
            } else if k > i {
                assert(t[i].0 != key);
            }
        },
        None => {
            assert(t[i].0 != key);
        },
    }
}

/// A key without a live entry starts a new window at `now` with count 1.
pub proof fn count_opens_window(live: Seq<(Seq<char>, u32, i64)>, key: Seq<char>, window_secs: u64, now: i64)
    requires
        forall|j: int| 0 <= j < live.len() ==> #[trigger] live[j].0 != key,
    ensures
        count_step(live, key, window_secs, now) == (live.push((key, 1u32, window_end(now, window_secs))), 1u32),
{
    lemma_find_key(live, key, 0);
    if let Some(k) = find_key(live, key, 0) {
        assert(live[k].0 != key);
    }
}

/// The Redis key of a rate bucket for an IP: `rl:{bucket}:{ip}`.
pub open spec fn rate_key_text(bucket: Seq<char>, ip: Seq<char>) -> Seq<char> {
    "rl:"@ + bucket + ":"@ + ip
}

/// The Redis key of a rate bucket for an IP (the IP without its port).
pub fn rate_key(bucket: &str, ip: &str) -> (res: String)
    ensures
        res@ == rate_key_text(bucket@, ip@),
{
    let mut s = String::new();
    push_text(&mut s, "rl:");
    push_text(&mut s, bucket);
    push_text(&mut s, ":");
    push_text(&mut s, ip);
    s
}

/// A request refused by a rate limit.
#[derive(Clone, Copy, PartialEq, Eq, Structural, Debug)]
pub enum RateLimited {
    TooManyRequests,
    TooManyLoginFailures,
}

impl RateLimited {
    /// The message sent back to the client.
    pub fn message(&self) -> (res: &'static str)
        ensures
            res@ == (match *self {
                RateLimited::TooManyRequests => "Too many requests; please try again later"@,
                RateLimited::TooManyLoginFailures => "Too many failed login attempts; try again in a minute"@,
            }),
    {
        match self {
            RateLimited::TooManyRequests => "Too many requests; please try again later",
            RateLimited::TooManyLoginFailures => "Too many failed login attempts; try again in a minute",
        }
    }
}

/// The verdict on a request given its count in the window: refused exactly
/// when the count is above the limit.
pub fn rate_verdict(count: u32, limit: u32) -> (res: Result<(), RateLimited>)
    ensures
        res is Err <==> count > limit,
        res is Err ==> res == Err::<(), RateLimited>(RateLimited::TooManyRequests),
{
    if count > limit {
        Err(RateLimited::TooManyRequests)
    } else {
        Ok(())
    }
}

/// The count that Redis reports for a window: 1 when the key was just
/// created, else the incremented value (negative read as 0, then taken as
/// a `u32`).
pub open spec fn redis_window_count(created: bool, incremented: i64) -> u32 {
    if created {
        1
    } else if incremented < 0 {
        0
    } else {
        incremented as u32
    }
}

/// The count that Redis reports for a window.
pub fn window_count(created: bool, incremented: i64) -> (res: u32)
    ensures
        res == redis_window_count(created, incremented),
{
    if created {
        1
    } else if incremented < 0 {
        0
    } else {
        incremented as u32
    }
}

/// Whether the window key needs its expiry set again: only when INCR
/// created it afresh (it expired between SET and INCR); any other refresh
/// would slide the fixed window.
pub fn needs_expiry(created: bool, incremented: i64) -> (res: bool)
    ensures
        res == (!created && incremented == 1),
{
    !created && incremented == 1
}

/// One request counted in Redis at `now` for a window of `window_secs`,
/// on a key that holds `(count, expires_at)` or nothing: a key that is
/// missing or has expired is created with count 1 (`SET NX EX`); a live
/// key is incremented (`INCR`), its expiry set again only where
/// `needs_expiry` says so. Gives the key after the request and the count
/// reported.
pub open spec fn redis_count_step(key: Option<(int, int)>, now: i64, window_secs: u64) -> (Option<(int, int)>, u32) {
    match key {
        Some((v, e)) => if now < e {
            let n = v + 1;
            let e2 = if n == 1 { now + window_secs } else { e };
            (Some((n, e2)), redis_window_count(false, n as i64))
        } else {
            (Some((1, now + window_secs)), redis_window_count(true, 0))
        },
        None => (Some((1, now + window_secs)), redis_window_count(true, 0)),
    }
}

/// The key and the reported counts after requests at the given times,
/// starting from a missing key.
pub open spec fn redis_counts(times: Seq<i64>, window_secs: u64) -> (Option<(int, int)>, Seq<u32>)
    decreases times.len(),
{
    if times.len() == 0 {
        (None, Seq::empty())
    } else {
        let prev = redis_counts(times.drop_last(), window_secs);
        let step = redis_count_step(prev.0, times.last(), window_secs);
        (step.0, prev.1.push(step.1))
    }
}

proof fn lemma_redis_counts(times: Seq<i64>, window_secs: u64)
    requires
        times.len() > 0,
        times.len() <= u32::MAX,
        forall|i: int| 0 <= i < times.len() ==> times[0] <= #[trigger] times[i] < times[0] + window_secs,
    ensures
        redis_counts(times, window_secs).0 == Some((times.len() as int, times[0] + window_secs)),
        redis_counts(times, window_secs).1.len() == times.len(),
        forall|j: int| 0 <= j < times.len() ==> #[trigger] redis_counts(times, window_secs).1[j] == j + 1,
    decreases times.len(),
{
    let pre = times.drop_last();
    if pre.len() > 0 {
        assert(forall|i: int| 0 <= i < pre.len() ==> pre[i] == times[i]);
        lemma_redis_counts(pre, window_secs);
        let n = times.len() as int;
        assert(times.last() == times[n - 1]);
        assert((n as i64) as u32 == n);
    } else {
        assert(redis_counts(pre, window_secs).0 is None);
        assert(redis_counts(pre, window_secs).1 =~= Seq::<u32>::empty());
    }
}

/// The IP rate-limit window holds across requests in Redis: of requests
/// of one key that all come within `window_secs` of the first (which found
/// no live window), the `j`-th is reported with count `j` (so `rate_verdict`
/// lets exactly the first `limit` through), and the window keeps the end
/// the first request gave it; a request once that end has passed opens a
/// new window with count 1.
pub proof fn redis_window_holds(times: Seq<i64>, window_secs: u64, later: i64)
    requires
        times.len() > 0,
        times.len() <= u32::MAX,
        forall|i: int| 0 <= i < times.len() ==> times[0] <= #[trigger] times[i] < times[0] + window_secs,
    ensures
        forall|j: int| 0 <= j < times.len() ==> #[trigger] redis_counts(times, window_secs).1[j] == j + 1,
        redis_counts(times, window_secs).0 == Some((times.len() as int, times[0] + window_secs)),
        later >= times[0] + window_secs ==> redis_count_step(redis_counts(times, window_secs).0, later, window_secs).1
            == 1,
{
    lemma_redis_counts(times, window_secs);
}

/// Failed password logins allowed per IP in a window.
pub const LOGIN_RATE_LIMIT_PER_MINUTE: u32 = 5;

/// The length of a login-failure window, in seconds.
pub const LOGIN_RATE_LIMIT_WINDOW_SECS: i64 = 60;

/// What the login gate does with the failure count Redis reports: refuse
/// at 5 or more, allow below, and fall back to the in-process table when
/// Redis gave no count.
#[derive(Clone, Copy, PartialEq, Eq, Structural, Debug)]
pub enum LoginGate {
    Refuse,
    Allow,
    UseLocal,
}

/// What the login gate does with the failure count Redis reports.
pub fn login_gate(count: Option<u32>) -> (res: LoginGate)
    ensures
        res == (match count {
            Some(c) => if c >= LOGIN_RATE_LIMIT_PER_MINUTE { LoginGate::Refuse } else { LoginGate::Allow },
            None => LoginGate::UseLocal,
        }),
{
    match count {
        Some(c) => if c >= LOGIN_RATE_LIMIT_PER_MINUTE {
            LoginGate::Refuse
        } else {
            LoginGate::Allow
        },
        None => LoginGate::UseLocal,
    }
}

/// `a - b` clamped to the `i64` range.
pub open spec fn sat_sub(a: i64, b: i64) -> i64 {
    if a - b > i64::MAX {
        i64::MAX
    } else if a - b < i64::MIN {
        i64::MIN
    } else {
        (a - b) as i64
    }
}

fn sat_sub_i64(a: i64, b: i64) -> (res: i64)
    ensures
        res == sat_sub(a, b),
{
    let s: i128 = a as i128 - b as i128;
    if s > 9223372036854775807i128 {
        9223372036854775807i64
    } else if s < -9223372036854775808i128 {
        -9223372036854775808i64
    } else {
        s as i64
    }
}

/// The failed logins of one IP in its window, which opened at `window_start`.
pub struct FailureEntry {
    pub ip: String,
    pub count: u32,
    pub window_start: i64,
}

/// The in-process failed-login counts (used while Redis is unavailable).
pub struct FailureTable {
    pub entries: Vec<FailureEntry>,
}

impl FailureTable {
    /// A table with no failure noted.
    pub fn new() -> (res: FailureTable)
        ensures
            res.entries@ == Seq::<FailureEntry>::empty(),
            unique_keys(failures_view(res.entries@)),
    {
        FailureTable { entries: Vec::new() }
    }
}

/// An entry as plain values: IP, count, window start.
pub open spec fn failure_view(e: FailureEntry) -> (Seq<char>, u32, i64) {
    (e.ip@, e.count, e.window_start)
}

/// The entries as plain values.
pub open spec fn failures_view(entries: Seq<FailureEntry>) -> Seq<(Seq<char>, u32, i64)> {
    entries.map_values(|e: FailureEntry| failure_view(e))
}

/// The entries, among the first `n`, whose window is still open at `now`.
pub open spec fn open_failures(t: Seq<(Seq<char>, u32, i64)>, now: i64, n: int) -> Seq<(Seq<char>, u32, i64)>
    decreases n,
{
    if n <= 0 {
        Seq::empty()
    } else {
        let p = open_failures(t, now, n - 1);
        if sat_sub(now, t[n - 1].2) < LOGIN_RATE_LIMIT_WINDOW_SECS {
            p.push(t[n - 1])
        } else {
            p
        }
    }
}

proof fn lemma_open_failures_filter(t: Seq<(Seq<char>, u32, i64)>, now: i64, n: int)
    requires
        0 <= n <= t.len(),
    ensures
        open_failures(t, now, n) == t.take(n).filter(
            |e: (Seq<char>, u32, i64)| sat_sub(now, e.2) < LOGIN_RATE_LIMIT_WINDOW_SECS,
        ),
    decreases n,
{
    let pred = |e: (Seq<char>, u32, i64)| sat_sub(now, e.2) < LOGIN_RATE_LIMIT_WINDOW_SECS;
    if n == 0 {
        reveal(Seq::filter);
        assert(t.take(0).filter(pred) =~= Seq::<(Seq<char>, u32, i64)>::empty());
    } else {
        lemma_open_failures_filter(t, now, n - 1);
        assert(t.take(n) =~= t.take(n - 1).push(t[n - 1]));
        t.take(n - 1).lemma_filter_push(t[n - 1], pred);
    }
}

/// The login limiter's sweep keeps, in order, exactly the entries whose
/// window (started at their time, saturating) has not yet run at `now`.
pub proof fn failure_sweep_keeps_open_windows(t: Seq<(Seq<char>, u32, i64)>, now: i64)
    ensures
        open_failures(t, now, t.len() as int) == t.filter(
            |e: (Seq<char>, u32, i64)| sat_sub(now, e.2) < LOGIN_RATE_LIMIT_WINDOW_SECS,
        ),
{
    lemma_open_failures_filter(t, now, t.len() as int);
    assert(t.take(t.len() as int) =~= t);
}

/// The IP's entry as the login limiter sees it at `now`: found, or new
/// with count 0; reopened at `now` with count 0 once its window has run.
pub open spec fn current_failures(t: Seq<(Seq<char>, u32, i64)>, ip: Seq<char>, now: i64) -> (u32, i64) {
    match find_key(t, ip, 0) {
        Some(i) => if sat_sub(now, t[i].2) >= LOGIN_RATE_LIMIT_WINDOW_SECS {
            (0u32, now)
        } else {
            (t[i].1, t[i].2)
        },
        None => (0u32, now),
    }
}

/// The table with the IP's entry set to `e` (in place, or added).
pub open spec fn set_failures(t: Seq<(Seq<char>, u32, i64)>, ip: Seq<char>, e: (u32, i64)) -> Seq<(Seq<char>, u32, i64)> {
    match find_key(t, ip, 0) {
        Some(i) => t.update(i, (ip, e.0, e.1)),
        None => t.push((ip, e.0, e.1)),
    }
}

fn sweep_login_failures(table: &mut FailureTable, now: i64)
    ensures
        failures_view(final(table).entries@) == open_failures(
            failures_view(old(table).entries@),
            now,
            old(table).entries@.len() as int,
        ),
{
    let ghost start = table.entries@;
    let mut kept: Vec<FailureEntry> = Vec::new();
    let mut rest: Vec<FailureEntry> = Vec::new();
    std::mem::swap(&mut rest, &mut table.entries);
    let mut i: usize = 0;
    let n = rest.len();
    while i < n
        invariant
            n == start.len(),
            i <= n,
            rest@ == start.skip(i as int),
            failures_view(kept@) == open_failures(failures_view(start), now, i as int),
        decreases n - i,
    {
        let e = rest.remove(0);
        proof {
            assert(e == start[i as int]);
            assert(failures_view(start)[i as int] == failure_view(e));
        }
        let ghost before = kept@;
        if sat_sub_i64(now, e.window_start) < LOGIN_RATE_LIMIT_WINDOW_SECS {
            kept.push(e);
            assert(failures_view(kept@) == failures_view(before).push(failure_view(e)));
        }
        i += 1;
        proof {
            assert(rest@ =~= start.skip(i as int));
        }
    }
    table.entries = kept;
}

fn find_failure(entries: &Vec<FailureEntry>, ip: &String) -> (res: Option<usize>)
    ensures
        match res {
            Some(i) => find_key(failures_view(entries@), ip@, 0) == Some(i as int),
            None => find_key(failures_view(entries@), ip@, 0) is None,
        },
{
    let ghost t = failures_view(entries@);
    let mut i: usize = 0;
    while i < entries.len()
        invariant
            i <= entries@.len(),
            t == failures_view(entries@),
            find_key(t, ip@, 0) == find_key(t, ip@, i as int),
        decreases entries@.len() - i,
    {
        if entries[i].ip == *ip {
            return Some(i);
        }
        i += 1;
    }
    None
}

/// Brings the IP's entry to `now` (after dropping closed windows): the new
/// table and the entry's count.
fn touch_failures(table: &mut FailureTable, ip: &str, now: i64) -> (res: usize)
    ensures
        res < final(table).entries@.len(),
        failures_view(final(table).entries@) == set_failures(
            open_failures(failures_view(old(table).entries@), now, old(table).entries@.len() as int),
            ip@,
            current_failures(
                open_failures(failures_view(old(table).entries@), now, old(table).entries@.len() as int),
                ip@,
                now,
            ),
        ),
        find_key(failures_view(final(table).entries@), ip@, 0) == Some(res as int),
{
    sweep_login_failures(table, now);
    let ghost t = failures_view(table.entries@);
    let k = ip.to_owned();
    proof {
        lemma_find_key(t, ip@, 0);
    }
    match find_failure(&table.entries, &k) {
        Some(i) => {
            let mut e = table.entries.remove(i);
            if sat_sub_i64(now, e.window_start) >= LOGIN_RATE_LIMIT_WINDOW_SECS {
                e.count = 0;
                e.window_start = now;
            }
            e.ip = k;
            table.entries.insert(i, e);
            proof {
                assert(failures_view(table.entries@) =~= t.update(i as int, failure_view(table.entries@[i as int])));
                lemma_find_key_unique(failures_view(table.entries@), ip@, i as int);
            }
            i
        },
        None => {
            let n = table.entries.len();
            table.entries.push(FailureEntry { ip: k, count: 0, window_start: now });
            proof {
                assert(failures_view(table.entries@) =~= t.push((ip@, 0u32, now)));
                assert forall|j: int| 0 <= j < n implies #[trigger] failures_view(table.entries@)[j].0 != ip@ by {
                    assert(failures_view(table.entries@)[j] == t[j]);
                }
                lemma_find_key_unique(failures_view(table.entries@), ip@, n as int);
            }
            n
        },
    }
}

proof fn lemma_set_failures(t: Seq<(Seq<char>, u32, i64)>, ip: Seq<char>, e: (u32, i64), e2: (u32, i64))
    ensures
        find_key(set_failures(t, ip, e), ip, 0) matches Some(j) && set_failures(t, ip, e)[j] == (ip, e.0, e.1)
            && set_failures(t, ip, e).update(j, (ip, e2.0, e2.1)) == set_failures(t, ip, e2),
{
    lemma_find_key(t, ip, 0);
    let s = set_failures(t, ip, e);
    match find_key(t, ip, 0) {
        Some(i) => {
            assert forall|j: int| 0 <= j < i implies #[trigger] s[j].0 != ip by {
                assert(s[j] == t[j]);
            }
            lemma_find_key_unique(s, ip, i);
            assert(s.update(i, (ip, e2.0, e2.1)) =~= set_failures(t, ip, e2));
        },
        None => {
            assert forall|j: int| 0 <= j < t.len() implies #[trigger] s[j].0 != ip by {
                assert(s[j] == t[j]);
            }
            lemma_find_key_unique(s, ip, t.len() as int);
            assert(s.update(t.len() as int, (ip, e2.0, e2.1)) =~= set_failures(t, ip, e2));
        },
    }
}

/// The table after a login check at `now`: closed windows dropped, the
/// IP's entry brought to `now` (added with count 0 if missing).
pub open spec fn after_check(t: Seq<(Seq<char>, u32, i64)>, ip: Seq<char>, now: i64) -> Seq<(Seq<char>, u32, i64)> {
    let live = open_failures(t, now, t.len() as int);
    set_failures(live, ip, current_failures(live, ip, now))
}

/// A login check at `now` refuses: the IP has 5 or more failures in its
/// open window.
pub open spec fn login_refused(t: Seq<(Seq<char>, u32, i64)>, ip: Seq<char>, now: i64) -> bool {
    current_failures(open_failures(t, now, t.len() as int), ip, now).0 >= LOGIN_RATE_LIMIT_PER_MINUTE
}

/// The table after a failed login at `now`: as after a check, with the
/// IP's count one higher (staying at `u32::MAX`).
pub open spec fn after_failure(t: Seq<(Seq<char>, u32, i64)>, ip: Seq<char>, now: i64) -> Seq<(Seq<char>, u32, i64)> {
    let live = open_failures(t, now, t.len() as int);
    let cur = current_failures(live, ip, now);
    set_failures(live, ip, (bump(cur.0), cur.1))
}

/// The local login check: refused while the IP has 5 or more failures in
/// its open window (the table keeps the IP's entry, brought to `now`).
pub fn check_login_rate_limit_local(table: &mut FailureTable, ip: &str, now: i64) -> (res: Result<(), RateLimited>)
    ensures
        failures_view(final(table).entries@) == after_check(failures_view(old(table).entries@), ip@, now),
        res is Err <==> login_refused(failures_view(old(table).entries@), ip@, now),
        res is Err ==> res == Err::<(), RateLimited>(RateLimited::TooManyLoginFailures),
        unique_keys(failures_view(old(table).entries@)) ==> unique_keys(failures_view(final(table).entries@)),
{
    proof {
        if unique_keys(failures_view(table.entries@)) {
            login_tables_keep_ips_unique(failures_view(table.entries@), ip@, now);
        }
    }
    let ghost live = open_failures(failures_view(table.entries@), now, table.entries@.len() as int);
    let ghost cur = current_failures(live, ip@, now);
    let i = touch_failures(table, ip, now);
    proof {
        lemma_set_failures(live, ip@, cur, cur);
        assert(failures_view(table.entries@)[i as int] == (ip@, cur.0, cur.1));
    }
    if table.entries[i].count >= LOGIN_RATE_LIMIT_PER_MINUTE {
        Err(RateLimited::TooManyLoginFailures)
    } else {
        Ok(())
    }
}

/// Records a failed login of the IP at `now` in the local table (the count
/// stays at `u32::MAX` rather than wrap).
pub fn record_login_failure_local(table: &mut FailureTable, ip: &str, now: i64)
    ensures
        failures_view(final(table).entries@) == after_failure(failures_view(old(table).entries@), ip@, now),
        unique_keys(failures_view(old(table).entries@)) ==> unique_keys(failures_view(final(table).entries@)),
{
    proof {
        if unique_keys(failures_view(table.entries@)) {
            login_tables_keep_ips_unique(failures_view(table.entries@), ip@, now);
        }
    }
    let ghost live = open_failures(failures_view(table.entries@), now, table.entries@.len() as int);
    let ghost cur = current_failures(live, ip@, now);
    let i = touch_failures(table, ip, now);
    let ghost t = failures_view(table.entries@);
    proof {
        lemma_set_failures(live, ip@, cur, (bump(cur.0), cur.1));
        assert(t[i as int] == (ip@, cur.0, cur.1));
    }
    let mut e = table.entries.remove(i);
    if e.count < u32::MAX {
        e.count = e.count + 1;
    }
    table.entries.insert(i, e);
    proof {
        assert(failures_view(table.entries@) =~= t.update(i as int, failure_view(table.entries@[i as int])));
    }
}

/// The IP's only entry in the table is `(ip, e.0, e.1)`.
pub open spec fn sole_entry(t: Seq<(Seq<char>, u32, i64)>, ip: Seq<char>, e: (u32, i64)) -> bool {
    exists|i: int|
        0 <= i < t.len() && #[trigger] t[i] == (ip, e.0, e.1) && forall|j: int| 0 <= j < t.len() && j != i ==> t[j].0 != ip
}

proof fn lemma_sweep_drops_expired(t: Seq<(Seq<char>, u32, i64)>, ip: Seq<char>, now: i64, n: int)
    requires
        0 <= n <= t.len(),
        forall|j: int| 0 <= j < t.len() && #[trigger] t[j].0 == ip ==> sat_sub(now, t[j].2) >= LOGIN_RATE_LIMIT_WINDOW_SECS,
    ensures
        forall|j: int| 0 <= j < open_failures(t, now, n).len() ==> (#[trigger] open_failures(t, now, n)[j]).0 != ip,
    decreases n,
{
    if n > 0 {
        lemma_sweep_drops_expired(t, ip, now, n - 1);
        let p = open_failures(t, now, n - 1);
        if sat_sub(now, t[n - 1].2) < LOGIN_RATE_LIMIT_WINDOW_SECS {
            assert(t[n - 1].0 != ip);
            assert forall|j: int| 0 <= j < p.push(t[n - 1]).len() implies (#[trigger] p.push(t[n - 1])[j]).0 != ip by {
                if j < p.len() {
                    assert(p.push(t[n - 1])[j] == p[j]);
                }
            }
        }
    }
}

proof fn lemma_sweep_keeps_sole(t: Seq<(Seq<char>, u32, i64)>, ip: Seq<char>, e: (u32, i64), now: i64, n: int)
    requires
        0 <= n <= t.len(),
        sole_entry(t, ip, e),
        sat_sub(now, e.1) < LOGIN_RATE_LIMIT_WINDOW_SECS,
    ensures
        ({
            let i = choose|i: int|
                0 <= i < t.len() && #[trigger] t[i] == (ip, e.0, e.1) && forall|j: int| 0 <= j < t.len() && j != i ==> t[j].0 != ip;
            let o = open_failures(t, now, n);
            &&& i < n ==> sole_entry(o, ip, e)
            &&& i >= n ==> forall|j: int| 0 <= j < o.len() ==> (#[trigger] o[j]).0 != ip
        }),
    decreases n,
{
    let i = choose|i: int|
        0 <= i < t.len() && #[trigger] t[i] == (ip, e.0, e.1) && forall|j: int| 0 <= j < t.len() && j != i ==> t[j].0 != ip;
    if n > 0 {
        lemma_sweep_keeps_sole(t, ip, e, now, n - 1);
        let p = open_failures(t, now, n - 1);
        let o = open_failures(t, now, n);
        if n - 1 == i {
            assert(o == p.push(t[i]));
            assert(o[p.len() as int] == (ip, e.0, e.1));
            assert forall|j: int| 0 <= j < o.len() && j != p.len() implies o[j].0 != ip by {
                assert(o[j] == p[j]);
            }
        } else if n - 1 < i {
            if sat_sub(now, t[n - 1].2) < LOGIN_RATE_LIMIT_WINDOW_SECS {
                assert(t[n - 1].0 != ip);
                assert forall|j: int| 0 <= j < o.len() implies (#[trigger] o[j]).0 != ip by {
                    if j < p.len() {
                        assert(o[j] == p[j]);
                    }
                }
            }
        } else {
            if sat_sub(now, t[n - 1].2) < LOGIN_RATE_LIMIT_WINDOW_SECS {
                assert(t[n - 1].0 != ip);
                let k = choose|k: int|
                    0 <= k < p.len() && #[trigger] p[k] == (ip, e.0, e.1) && forall|j: int| 0 <= j < p.len() && j != k ==> p[j].0 != ip;
                assert(o[k] == (ip, e.0, e.1));
                assert forall|j: int| 0 <= j < o.len() && j != k implies o[j].0 != ip by {
                    if j < p.len() {
                        assert(o[j] == p[j]);
                    }
                }
            }
        }
    }
}

proof fn lemma_sole_find(t: Seq<(Seq<char>, u32, i64)>, ip: Seq<char>, e: (u32, i64))
    requires
        sole_entry(t, ip, e),
    ensures
        find_key(t, ip, 0) matches Some(i) && t[i] == (ip, e.0, e.1),
{
    let i = choose|i: int|
        0 <= i < t.len() && #[trigger] t[i] == (ip, e.0, e.1) && forall|j: int| 0 <= j < t.len() && j != i ==> t[j].0 != ip;
    assert forall|j: int| 0 <= j < i implies #[trigger] t[j].0 != ip by {}
    lemma_find_key_unique(t, ip, i);
}

proof fn lemma_set_sole(t: Seq<(Seq<char>, u32, i64)>, ip: Seq<char>, old_e: Option<(u32, i64)>, e: (u32, i64))
    requires
        match old_e {
            Some(x) => sole_entry(t, ip, x),
            None => forall|j: int| 0 <= j < t.len() ==> (#[trigger] t[j]).0 != ip,
        },
    ensures
        sole_entry(set_failures(t, ip, e), ip, e),
{
    match old_e {
        Some(x) => {
            lemma_sole_find(t, ip, x);
            lemma_find_key(t, ip, 0);
            let i = find_key(t, ip, 0)->0;
            let u = t.update(i, (ip, e.0, e.1));
            assert(set_failures(t, ip, e) == u);
            assert(u[i] == (ip, e.0, e.1));
            let k = choose|k: int|
                0 <= k < t.len() && #[trigger] t[k] == (ip, x.0, x.1) && forall|j: int| 0 <= j < t.len() && j != k ==> t[j].0 != ip;
            assert(k == i);
            assert forall|j: int| 0 <= j < u.len() && j != i implies u[j].0 != ip by {
                assert(u[j] == t[j]);
            }
        },
        None => {
            lemma_find_key(t, ip, 0);
            let u = t.push((ip, e.0, e.1));
            assert(set_failures(t, ip, e) == u);
            assert(u[t.len() as int] == (ip, e.0, e.1));
            assert forall|j: int| 0 <= j < u.len() && j != t.len() implies u[j].0 != ip by {
                assert(u[j] == t[j]);
            }
        },
    }
}

/// Each failed login inside the window counts: with the IP's one entry
/// `(count, start)` and its window still open, a failure leaves it as
/// `(count + 1, start)` (staying at `u32::MAX`).
pub proof fn failure_is_counted(t: Seq<(Seq<char>, u32, i64)>, ip: Seq<char>, e: (u32, i64), now: i64)
    requires
        sole_entry(t, ip, e),
        sat_sub(now, e.1) < LOGIN_RATE_LIMIT_WINDOW_SECS,
    ensures
        sole_entry(after_failure(t, ip, now), ip, (bump(e.0), e.1)),
{
    let i = choose|i: int|
        0 <= i < t.len() && #[trigger] t[i] == (ip, e.0, e.1) && forall|j: int| 0 <= j < t.len() && j != i ==> t[j].0 != ip;
    lemma_sweep_keeps_sole(t, ip, e, now, t.len() as int);
    let live = open_failures(t, now, t.len() as int);
    lemma_sole_find(live, ip, e);
    assert(current_failures(live, ip, now) == e);
    lemma_set_sole(live, ip, Some(e), (bump(e.0), e.1));
}

/// A check does not count: with the IP's one entry `(count, start)` and
/// its window still open, a check leaves the entry as it was, and refuses
/// exactly when the count is 5 or more.
pub proof fn check_does_not_count(t: Seq<(Seq<char>, u32, i64)>, ip: Seq<char>, e: (u32, i64), now: i64)
    requires
        sole_entry(t, ip, e),
        sat_sub(now, e.1) < LOGIN_RATE_LIMIT_WINDOW_SECS,
    ensures
        sole_entry(after_check(t, ip, now), ip, e),
        login_refused(t, ip, now) <==> e.0 >= LOGIN_RATE_LIMIT_PER_MINUTE,
{
    lemma_sweep_keeps_sole(t, ip, e, now, t.len() as int);
    let live = open_failures(t, now, t.len() as int);
    lemma_sole_find(live, ip, e);
    assert(current_failures(live, ip, now) == e);
    lemma_set_sole(live, ip, Some(e), e);
}

/// A failed login of an IP without an open window opens one at `now`
/// with count 1.
pub proof fn first_failure_opens_window(t: Seq<(Seq<char>, u32, i64)>, ip: Seq<char>, now: i64)
    requires
        forall|j: int| 0 <= j < t.len() && #[trigger] t[j].0 == ip ==> sat_sub(now, t[j].2) >= LOGIN_RATE_LIMIT_WINDOW_SECS,
    ensures
        sole_entry(after_failure(t, ip, now), ip, (1u32, now)),
{
    lemma_sweep_drops_expired(t, ip, now, t.len() as int);
    let live = open_failures(t, now, t.len() as int);
    lemma_find_key(live, ip, 0);
    assert(current_failures(live, ip, now) == (0u32, now));
    lemma_set_sole(live, ip, None, (1u32, now));
}

/// Five failed logins of an IP within a minute of the first (which came
/// with no window open) lock it out until that minute is over.
pub proof fn five_failures_lock_out(
    t: Seq<(Seq<char>, u32, i64)>,
    ip: Seq<char>,
    n1: i64,
    n2: i64,
    n3: i64,
    n4: i64,
    n5: i64,
    at: i64,
)
    requires
        forall|j: int| 0 <= j < t.len() && #[trigger] t[j].0 == ip ==> sat_sub(n1, t[j].2) >= LOGIN_RATE_LIMIT_WINDOW_SECS,
        sat_sub(n2, n1) < LOGIN_RATE_LIMIT_WINDOW_SECS,
        sat_sub(n3, n1) < LOGIN_RATE_LIMIT_WINDOW_SECS,
        sat_sub(n4, n1) < LOGIN_RATE_LIMIT_WINDOW_SECS,
        sat_sub(n5, n1) < LOGIN_RATE_LIMIT_WINDOW_SECS,
        sat_sub(at, n1) < LOGIN_RATE_LIMIT_WINDOW_SECS,
    ensures
        login_refused(
            after_failure(
                after_failure(after_failure(after_failure(after_failure(t, ip, n1), ip, n2), ip, n3), ip, n4),
                ip,
                n5,
            ),
            ip,
            at,
        ),
{
    first_failure_opens_window(t, ip, n1);
    let t1 = after_failure(t, ip, n1);
    failure_is_counted(t1, ip, (1u32, n1), n2);
    let t2 = after_failure(t1, ip, n2);
    failure_is_counted(t2, ip, (2u32, n1), n3);
    let t3 = after_failure(t2, ip, n3);
    failure_is_counted(t3, ip, (3u32, n1), n4);
    let t4 = after_failure(t3, ip, n4);
    failure_is_counted(t4, ip, (4u32, n1), n5);
    let t5 = after_failure(t4, ip, n5);
    check_does_not_count(t5, ip, (5u32, n1), at);
}

} // verus!
