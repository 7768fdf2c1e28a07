//! Marker requests: the search conditions, the id lists they produce, the
//! optimistic version check, the batch and page limits, the merge of a
//! marker's `extra` object, and the per-marker views of its item links and
//! linkage groups.

use vstd::prelude::*;
use crate::ids::strictly_increasing;

verus! {

/// A marker search names areas, items or item types; at most one of them.
#[derive(Clone, Copy, PartialEq, Eq, Structural, Debug)]
pub enum SearchMode {
    /// No condition: the search finds nothing.
    Nothing,
    ByArea,
    ByItem,
    ByType,
}

/// A search that names more than one kind of condition.
#[derive(Clone, Copy, PartialEq, Eq, Structural, Debug)]
pub enum SearchError {
    Conflict,
}

impl SearchError {
    /// The message sent back to the client.
    pub fn message(&self) -> (res: &'static str)
        ensures
            res@ == "条件冲突"@,
    {
        "条件冲突"
    }
}

/// A condition list is given and not empty.
pub open spec fn given(list: Option<Seq<i64>>) -> bool {
    match list {
        Some(v) => v.len() > 0,
        None => false,
    }
}

/// The ids of an optional list.
pub open spec fn list_view(list: Option<Vec<i64>>) -> Option<Seq<i64>> {
    match list {
        Some(v) => Some(v@),
        None => None,
    }
}

fn given_exec(list: &Option<Vec<i64>>) -> (res: bool)
    ensures
        res == given(list_view(*list)),
{
    match list {
        Some(v) => v.len() > 0,
        None => false,
    }
}

/// Which condition a search uses: two or more non-empty lists conflict;
/// none finds nothing.
pub fn search_mode(areas: &Option<Vec<i64>>, items: &Option<Vec<i64>>, types: &Option<Vec<i64>>) -> (res: Result<SearchMode, SearchError>)
    ensures
        ({
            let a = given(list_view(*areas));
            let i = given(list_view(*items));
            let t = given(list_view(*types));
            res == (if (a && i) || (a && t) || (t && i) {
                Err(SearchError::Conflict)
            } else if a {
                Ok(SearchMode::ByArea)
            } else if i {
                Ok(SearchMode::ByItem)
            } else if t {
                Ok(SearchMode::ByType)
            } else {
                Ok(SearchMode::Nothing)
            })
        }),
{
    let a = given_exec(areas);
    let i = given_exec(items);
    let t = given_exec(types);
    if (a && i) || (a && t) || (t && i) {
        Err(SearchError::Conflict)
    } else if a {
        Ok(SearchMode::ByArea)
    } else if i {
        Ok(SearchMode::ByItem)
    } else if t {
        Ok(SearchMode::ByType)
    } else {
        Ok(SearchMode::Nothing)
    }
}

/// The ids, ascending, each once.
pub fn sorted_distinct_ids(ids: &Vec<i64>) -> (res: Vec<i64>)
    ensures
        strictly_increasing(res@),
        forall|x: i64| #[trigger] res@.contains(x) <==> ids@.contains(x),
{
    let mut out: Vec<i64> = Vec::new();
    let mut i: usize = 0;
    while i < ids.len()
        invariant
            i <= ids@.len(),
            strictly_increasing(out@),
            forall|x: i64| #[trigger] out@.contains(x) <==> ids@.take(i as int).contains(x),
        decreases ids@.len() - i,
    {
        let ghost before = out@;
        crate::ids::insert_sorted(&mut out, ids[i]);
        proof {
            let p = ids@.take(i as int);
            let q = ids@.take(i + 1);
            assert(q == p.push(ids@[i as int]));
            assert forall|x: i64| #[trigger] out@.contains(x) <==> q.contains(x) by {
                assert(before.contains(x) <==> p.contains(x));
                assert(q[i as int] == ids@[i as int]);
                if q.contains(x) {
                    let t = choose|t: int| 0 <= t < q.len() && #[trigger] q[t] == x;
                    if t < i {
                        assert(p[t] == x);
                    }
                }
                if p.contains(x) {
                    let t = choose|t: int| 0 <= t < p.len() && #[trigger] p[t] == x;
                    assert(q[t] == x);
                }
            }
        }
        i += 1;
    }
    assert(ids@.take(ids@.len() as int) == ids@);
    out
}

/// An update that lost the race: the marker is gone, or it changed since
/// the client read it.
#[derive(Clone, Copy, PartialEq, Eq, Structural, Debug)]
pub enum VersionConflict {
    Stale,
}

impl VersionConflict {
    /// The message sent back to the client.
    pub fn message(&self) -> (res: &'static str)
        ensures
            res@ == "该点位已更新，请重新提交"@,
    {
        "该点位已更新，请重新提交"
    }
}

/// The optimistic check of a marker update: the marker must exist, and a
/// version the client sends must be the stored one.
pub fn check_marker_version(stored: Option<i64>, sent: Option<i64>) -> (res: Result<(), VersionConflict>)
    ensures
        res is Ok <==> (stored is Some && (sent matches Some(v) ==> v == stored->0)),
        res is Err ==> res == Err::<(), VersionConflict>(VersionConflict::Stale),
{
    match stored {
        None => Err(VersionConflict::Stale),
        Some(cur) => match sent {
            Some(v) => if v != cur {
                Err(VersionConflict::Stale)
            } else {
                Ok(())
            },
            None => Ok(()),
        },
    }
}

/// The most ids a by-id list request may name.
pub const MAX_BATCH: usize = 1000;

/// A by-id request over the batch limit; it carries the number of ids.
#[derive(Clone, Copy, PartialEq, Eq, Structural, Debug)]
pub struct BatchTooLarge {
    pub len: usize,
}

/// Refuses a by-id request of more than 1000 ids.
pub fn check_batch(len: usize) -> (res: Result<(), BatchTooLarge>)
    ensures
        res is Ok <==> len <= MAX_BATCH,
        res is Err ==> res == Err::<(), BatchTooLarge>(BatchTooLarge { len }),
{
    if len > MAX_BATCH {
        Err(BatchTooLarge { len })
    } else {
        Ok(())
    }
}

/// The page a page request reads: its size (10 by default, at most 200)
/// and its offset (the pages before it, saturating), both as the `u64`
/// that the query takes.
pub open spec fn page_limit(size: Option<i64>) -> u64 {
    let s: i64 = match size {
        Some(s) => s,
        None => 10,
    };
    (if s < 200 { s } else { 200i64 }) as u64
}

/// The page's offset: `(current - 1)` (saturating, taken as `u64`) times
/// the size, saturating at `u64::MAX`.
pub open spec fn page_skip(size: Option<i64>, current: Option<i64>) -> u64 {
    let c: i64 = match current {
        Some(c) => c,
        None => 1,
    };
    let before: u64 = (if c == i64::MIN { i64::MIN } else { (c - 1) as i64 }) as u64;
    if before * page_limit(size) > u64::MAX { u64::MAX } else { (before * page_limit(size)) as u64 }
}

/// The limit and offset of a page request.
pub fn page_window(size: Option<i64>, current: Option<i64>) -> (res: (u64, u64))
    ensures
        res == (page_limit(size), page_skip(size, current)),
{
    let s: i64 = match size {
        Some(s) => s,
        None => 10,
    };
    let limit: u64 = (if s < 200 { s } else { 200i64 }) as u64;
    let c: i64 = match current {
        Some(c) => c,
        None => 1,
    };
    let back: i64 = if c == i64::MIN { c } else { c - 1 };
    let before: u64 = back as u64;
    let offset: u64 = match before.checked_mul(limit) {
        Some(v) => v,
        None => u64::MAX,
    };
    (limit, offset)
}

/// What a marker update does to its `extra` object.
pub enum ExtraUpdate<V> {
    /// The update sent no `extra`: the stored one stays.
    Keep,
    /// The new object, as its entries.
    Replace(Vec<(String, V)>),
}

/// Entries as plain keys and values.
pub open spec fn entries_view<V>(s: Seq<(String, V)>) -> Seq<(Seq<char>, V)> {
    s.map_values(|e: (String, V)| (e.0@, e.1))
}

/// The object that the first `n` entries build (a later key wins).
pub open spec fn entries_map<V>(s: Seq<(Seq<char>, V)>, n: int) -> Map<Seq<char>, V>
    decreases n,
{
    if n <= 0 {
        Map::empty()
    } else {
        entries_map(s, n - 1).insert(s[n - 1].0, s[n - 1].1)
    }
}

/// The object after the first `n` changes: a value sets its key, a `null`
/// removes it.
pub open spec fn merged_extra<V>(m: Map<Seq<char>, V>, changes: Seq<(Seq<char>, Option<V>)>, n: int) -> Map<Seq<char>, V>
    decreases n,
{
    if n <= 0 {
        m
    } else {
        let p = merged_extra(m, changes, n - 1);
        match changes[n - 1].1 {
            Some(v) => p.insert(changes[n - 1].0, v),
            None => p.remove(changes[n - 1].0),
        }
    }
}

proof fn lemma_merged_extra_key<V>(m: Map<Seq<char>, V>, changes: Seq<(Seq<char>, Option<V>)>, n: int, k: Seq<char>)
    requires
        0 <= n <= changes.len(),
    ensures
        (forall|t: int| 0 <= t < n ==> (#[trigger] changes[t]).0 != k) ==> (merged_extra(m, changes, n).dom().contains(k)
            == m.dom().contains(k) && (m.dom().contains(k) ==> merged_extra(m, changes, n)[k] == m[k])),
        forall|t: int|
            0 <= t < n && (#[trigger] changes[t]).0 == k && (forall|u: int| t < u < n ==> (#[trigger] changes[u]).0 != k)
                ==> match changes[t].1 {
                Some(v) => merged_extra(m, changes, n).dom().contains(k) && merged_extra(m, changes, n)[k] == v,
                None => !merged_extra(m, changes, n).dom().contains(k),
            },
    decreases n,
{
    if n > 0 {
        lemma_merged_extra_key(m, changes, n - 1, k);
    }
}

/// The stored `extra` object after a merge, key by key: a key that no
/// change names keeps its stored value (or stays absent); otherwise the
/// last change that names it decides: a value sets it, a `null` removes it.
pub proof fn extra_merge_last_change_wins<V>(m: Map<Seq<char>, V>, changes: Seq<(Seq<char>, Option<V>)>, k: Seq<char>)
    ensures
        (forall|t: int| 0 <= t < changes.len() ==> (#[trigger] changes[t]).0 != k) ==> (merged_extra(
            m,
            changes,
            changes.len() as int,
        ).dom().contains(k) == m.dom().contains(k) && (m.dom().contains(k) ==> merged_extra(m, changes, changes.len() as int)[k]
            == m[k])),
        forall|t: int|
            0 <= t < changes.len() && (#[trigger] changes[t]).0 == k && (forall|u: int|
                t < u < changes.len() ==> (#[trigger] changes[u]).0 != k) ==> match changes[t].1 {
                Some(v) => merged_extra(m, changes, changes.len() as int).dom().contains(k) && merged_extra(
                    m,
                    changes,
                    changes.len() as int,
                )[k] == v,
                None => !merged_extra(m, changes, changes.len() as int).dom().contains(k),
            },
{
    lemma_merged_extra_key(m, changes, changes.len() as int, k);
}

/// The entries list the object `m`: each key once, the keys are those of
/// `m`, and each value is `m`'s.
pub open spec fn lists_map<V>(s: Seq<(Seq<char>, V)>, m: Map<Seq<char>, V>) -> bool {
    &&& forall|a: int, b: int| 0 <= a < b < s.len() ==> s[a].0 != s[b].0
    &&& forall|k: Seq<char>| #[trigger] m.dom().contains(k) <==> exists|i: int| 0 <= i < s.len() && s[i].0 == k
    &&& forall|i: int| 0 <= i < s.len() ==> m[#[trigger] s[i].0] == s[i].1
}

fn find_key<V>(obj: &Vec<(String, V)>, key: &str) -> (res: Option<usize>)
    ensures
        match res {
            Some(j) => j < obj@.len() && obj@[j as int].0@ == key@,
            None => forall|i: int| 0 <= i < obj@.len() ==> obj@[i].0@ != key@,
        },
{
    let mut j: usize = 0;
    while j < obj.len()
        invariant
            j <= obj@.len(),
            forall|i: int| 0 <= i < j ==> obj@[i].0@ != key@,
        decreases obj@.len() - j,
    {
        if crate::text::text_eq(obj[j].0.as_str(), key) {
            return Some(j);
        }
        j += 1;
    }
    None
}

fn set_entry<V>(obj: &mut Vec<(String, V)>, key: String, value: V, Ghost(m): Ghost<Map<Seq<char>, V>>)
    requires
        lists_map(entries_view(old(obj)@), m),
    ensures
        lists_map(entries_view(final(obj)@), m.insert(key@, value)),
{
    let ghost before = entries_view(obj@);
    let ghost m2 = m.insert(key@, value);
    let ghost kv = key@;
    match find_key(obj, key.as_str()) {
        Some(j) => {
            obj.set(j, (key, value));
            proof {
                let after = entries_view(obj@);
                assert(after =~= before.update(j as int, (kv, value)));
                assert forall|k: Seq<char>| #[trigger] m2.dom().contains(k) <==> exists|i: int| 0 <= i < after.len() && after[i].0 == k by {
                    if m2.dom().contains(k) && k != kv {
                        assert(m.dom().contains(k));
                        let i = choose|i: int| 0 <= i < before.len() && before[i].0 == k;
                        assert(after[i].0 == k);
                    }
                    if k == kv {
                        assert(after[j as int].0 == k);
                    }
                    if exists|i: int| 0 <= i < after.len() && after[i].0 == k {
                        let i = choose|i: int| 0 <= i < after.len() && after[i].0 == k;
                        if i != j {
                            assert(before[i].0 == k);
                        }
                    }
                }
                assert forall|a: int, b: int| 0 <= a < b < after.len() implies after[a].0 != after[b].0 by {
                    assert(after[a].0 == before[a].0);
                    assert(after[b].0 == before[b].0);
                }
                assert forall|i: int| 0 <= i < after.len() implies m2[#[trigger] after[i].0] == after[i].1 by {
                    if i != j {
                        assert(before[i].0 != before[j as int].0 || i == j);
                        assert(before[i] == after[i]);
                        if i < j {
                            assert(before[i].0 != before[j as int].0);
                        } else {
                            assert(before[j as int].0 != before[i].0);
                        }
                    }
                }
            }
        },
        None => {
            obj.push((key, value));
            proof {
                let after = entries_view(obj@);
                assert(after =~= before.push((kv, value)));
                assert forall|k: Seq<char>| #[trigger] m2.dom().contains(k) <==> exists|i: int| 0 <= i < after.len() && after[i].0 == k by {
                    if m2.dom().contains(k) && k != kv {
                        assert(m.dom().contains(k));
                        let i = choose|i: int| 0 <= i < before.len() && before[i].0 == k;
                        assert(after[i].0 == k);
                    }
                    if k == kv {
                        assert(after[before.len() as int].0 == k);
                    }
                    if exists|i: int| 0 <= i < after.len() && after[i].0 == k {
                        let i = choose|i: int| 0 <= i < after.len() && after[i].0 == k;
                        if i < before.len() {
                            assert(before[i].0 == k);
                        }
                    }
                }
                assert forall|i: int| 0 <= i < after.len() implies m2[#[trigger] after[i].0] == after[i].1 by {
                    if i < before.len() {
                        assert(before[i] == after[i]);
                        assert(before[i].0 != kv);
                    }
                }
                assert forall|a: int, b: int| 0 <= a < b < after.len() implies after[a].0 != after[b].0 by {
                    assert(after[a].0 == before[a].0);
                    if b < before.len() {
                        assert(after[b].0 == before[b].0);
                    }
                }
            }
        },
    }
}

fn remove_entry<V>(obj: &mut Vec<(String, V)>, key: &str, Ghost(m): Ghost<Map<Seq<char>, V>>)
    requires
        lists_map(entries_view(old(obj)@), m),
    ensures
        lists_map(entries_view(final(obj)@), m.remove(key@)),
{
    let ghost before = entries_view(obj@);
    let ghost m2 = m.remove(key@);
    match find_key(obj, key) {
        Some(j) => {
            let _gone = obj.remove(j);
            proof {
                let after = entries_view(obj@);
                assert(after =~= before.remove(j as int));
                assert forall|k: Seq<char>| #[trigger] m2.dom().contains(k) <==> exists|i: int| 0 <= i < after.len() && after[i].0 == k by {
                    if m2.dom().contains(k) {
                        assert(m.dom().contains(k));
                        let i = choose|i: int| 0 <= i < before.len() && before[i].0 == k;
                        assert(i != j);
                        if i < j {
                            assert(after[i].0 == k);
                        } else {
                            assert(after[i - 1].0 == k);
                        }
                    }
                    if exists|i: int| 0 <= i < after.len() && after[i].0 == k {
                        let i = choose|i: int| 0 <= i < after.len() && after[i].0 == k;
                        if i < j {
                            assert(before[i].0 == k);
                            assert(before[i].0 != before[j as int].0);
                        } else {
                            assert(before[i + 1].0 == k);
                            assert(before[j as int].0 != before[i + 1].0);
                        }
                    }
                }
                assert forall|i: int| 0 <= i < after.len() implies m2[#[trigger] after[i].0] == after[i].1 by {
                    if i < j {
                        assert(after[i] == before[i]);
                        assert(before[i].0 != before[j as int].0);
                    } else {
                        assert(after[i] == before[i + 1]);
                        assert(before[j as int].0 != before[i + 1].0);
                    }
                }
                assert forall|a: int, b: int| 0 <= a < b < after.len() implies after[a].0 != after[b].0 by {
                    let a2 = if a < j { a } else { a + 1 };
                    let b2 = if b < j { b } else { b + 1 };
                    assert(after[a] == before[a2]);
                    assert(after[b] == before[b2]);
                }
            }
        },
        None => {
            proof {
                assert forall|k: Seq<char>| #[trigger] m2.dom().contains(k) <==> exists|i: int| 0 <= i < before.len() && before[i].0 == k by {
                    if exists|i: int| 0 <= i < before.len() && before[i].0 == k {
                        let i = choose|i: int| 0 <= i < before.len() && before[i].0 == k;
                        assert(obj@[i].0@ == k);
                    }
                }
                assert forall|i: int| 0 <= i < before.len() implies m2[#[trigger] before[i].0] == before[i].1 by {
                    assert(obj@[i].0@ == before[i].0);
                }
            }
        },
    }
}

/// Takes the entries out of a list in their order.
fn reversed<T>(v: Vec<T>) -> (res: Vec<T>)
    ensures
        res@ == v@.reverse(),
{
    let mut v = v;
    let ghost orig = v@;
    let mut out: Vec<T> = Vec::new();
    while v.len() > 0
        invariant
            out@ + v@.reverse() == orig.reverse(),
        decreases v@.len(),
    {
        let ghost before = v@;
        let x = v.pop().unwrap();
        proof {
            assert(before == v@.push(x));
            assert(before.reverse() =~= seq![x] + v@.reverse());
            assert(out@.push(x) + v@.reverse() =~= out@ + before.reverse());
        }
        out.push(x);
    }
    assert(v@.reverse() =~= Seq::<T>::empty());
    assert(out@ =~= out@ + v@.reverse());
    out
}

/// The stored object (none reads as empty).
pub open spec fn stored_object<V>(old: Option<Vec<(String, V)>>) -> Map<Seq<char>, V> {
    match old {
        Some(o) => entries_map(entries_view(o@), o@.len() as int),
        None => Map::empty(),
    }
}

/// Merges an update's `extra` into the stored one: without an `extra` in
/// the update the stored one stays; otherwise, starting from the stored
/// object (none, or not an object, reads as empty), each key with a value
/// is set and each key with `null` is removed.
pub fn merge_extra<V>(old: Option<Vec<(String, V)>>, new: Option<Vec<(String, Option<V>)>>) -> (res: ExtraUpdate<V>)
    ensures
        new is None ==> res is Keep,
        new matches Some(changes) ==> (res matches ExtraUpdate::Replace(out) && lists_map(
            entries_view(out@),
            merged_extra(stored_object(old), entries_view(changes@), changes@.len() as int),
        )),
{
    let changes = match new {
        Some(c) => c,
        None => {
            return ExtraUpdate::Keep;
        },
    };
    let ghost cv = entries_view(changes@);
    let n_changes = changes.len();
    let mut obj: Vec<(String, V)> = Vec::new();
    let ghost start: Map<Seq<char>, V> = stored_object(old);
    match old {
        Some(o) => {
            let ghost ov = entries_view(o@);
            let n_old = o.len();
            let mut rest = reversed(o);
            let ghost total = ov.len();
            assert(entries_view(rest@) =~= ov.subrange(0, total as int).reverse());
            let mut i: usize = 0;
            while rest.len() > 0
                invariant
                    ov.len() == total,
                    total == n_old,
                    i + rest@.len() == total,
                    entries_view(rest@) == ov.subrange(i as int, total as int).reverse(),
                    lists_map(entries_view(obj@), entries_map(ov, i as int)),
                decreases rest@.len(),
            {
                let ghost before = rest@;
                let (k, v) = rest.pop().unwrap();
                proof {
                    assert(before == rest@.push((k, v)));
                    assert(entries_view(before) =~= entries_view(rest@).push((k@, v)));
                    assert(ov.subrange(i as int, total as int).reverse() =~= ov.subrange(i + 1, total as int).reverse().push(ov[i as int]));
                    assert(entries_view(rest@) =~= entries_view(before).drop_last());
                    assert(ov.subrange(i + 1, total as int).reverse() =~= ov.subrange(i as int, total as int).reverse().drop_last());
                    assert(entries_view(before).last() == (k@, v));
                    assert(ov[i as int] == (k@, v));
                }
                let ghost m = entries_map(ov, i as int);
                set_entry(&mut obj, k, v, Ghost(m));
                i += 1;
            }
        },
        None => {},
    }
    proof {
        if old is None {
            assert(entries_view(obj@) =~= Seq::<(Seq<char>, V)>::empty());
        }
    }
    assert(lists_map(entries_view(obj@), start));
    let mut rest = reversed(changes);
    let ghost total = cv.len();
    assert(entries_view(rest@) =~= cv.subrange(0, total as int).reverse());
    let mut i: usize = 0;
    while rest.len() > 0
        invariant
            cv.len() == total,
            total == n_changes,
            i + rest@.len() == total,
            entries_view(rest@) == cv.subrange(i as int, total as int).reverse(),
            lists_map(entries_view(obj@), merged_extra(start, cv, i as int)),
        decreases rest@.len(),
    {
        let ghost before = rest@;
        let (k, v) = rest.pop().unwrap();
        proof {
            assert(before == rest@.push((k, v)));
            assert(entries_view(before) =~= entries_view(rest@).push((k@, v)));
            assert(cv.subrange(i as int, total as int).reverse() =~= cv.subrange(i + 1, total as int).reverse().push(cv[i as int]));
            assert(entries_view(rest@) =~= entries_view(before).drop_last());
            assert(cv.subrange(i + 1, total as int).reverse() =~= cv.subrange(i as int, total as int).reverse().drop_last());
            assert(entries_view(before).last() == (k@, v));
            assert(cv[i as int] == (k@, v));
        }
        let ghost m = merged_extra(start, cv, i as int);
        match v {
            Some(x) => set_entry(&mut obj, k, x, Ghost(m)),
            None => remove_entry(&mut obj, k.as_str(), Ghost(m)),
        }
        i += 1;
    }
    ExtraUpdate::Replace(obj)
}

/// A linkage row: its two markers and its group.
pub struct LinkageRow {
    pub from_id: i64,
    pub to_id: i64,
    pub group_id: String,
}

/// The group of the first of the first `n` linkage rows that touch the
/// marker.
pub open spec fn first_group(rows: Seq<LinkageRow>, marker_id: i64, n: int) -> Option<Seq<char>>
    decreases n,
{
    if n <= 0 {
        None
    } else {
        match first_group(rows, marker_id, n - 1) {
            Some(g) => Some(g),
            None => if rows[n - 1].from_id == marker_id || rows[n - 1].to_id == marker_id {
                Some(rows[n - 1].group_id@)
            } else {
                None
            },
        }
    }
}

proof fn lemma_first_group_sticks(rows: Seq<LinkageRow>, marker_id: i64, n: int, m: int)
    requires
        n <= m,
        first_group(rows, marker_id, n) is Some,
    ensures
        first_group(rows, marker_id, m) == first_group(rows, marker_id, n),
    decreases m - n,
{
    if n < m {
        lemma_first_group_sticks(rows, marker_id, n, m - 1);
    }
}

proof fn lemma_first_group(rows: Seq<LinkageRow>, marker_id: i64, n: int)
    requires
        0 <= n <= rows.len(),
    ensures
        first_group(rows, marker_id, n) is None <==> forall|t: int|
            0 <= t < n ==> (#[trigger] rows[t]).from_id != marker_id && rows[t].to_id != marker_id,
        forall|t: int|
            0 <= t < n && ((#[trigger] rows[t]).from_id == marker_id || rows[t].to_id == marker_id) && (forall|u: int|
                0 <= u < t ==> (#[trigger] rows[u]).from_id != marker_id && rows[u].to_id != marker_id)
                ==> first_group(rows, marker_id, n) == Some(rows[t].group_id@),
    decreases n,
{
    if n > 0 {
        lemma_first_group(rows, marker_id, n - 1);
        assert forall|t: int|
            0 <= t < n && ((#[trigger] rows[t]).from_id == marker_id || rows[t].to_id == marker_id) && (forall|u: int|
                0 <= u < t ==> (#[trigger] rows[u]).from_id != marker_id && rows[u].to_id != marker_id)
                implies first_group(rows, marker_id, n) == Some(rows[t].group_id@) by {
            if t == n - 1 {
                assert(first_group(rows, marker_id, n - 1) is None);
            }
        }
    }
}

/// A marker is shown with the group of the first linkage row that has it
/// at either end, and with none exactly when no row has it.
pub proof fn marker_group_is_the_first_touching_row(rows: Seq<LinkageRow>, marker_id: i64)
    ensures
        first_group(rows, marker_id, rows.len() as int) is None <==> forall|t: int|
            0 <= t < rows.len() ==> (#[trigger] rows[t]).from_id != marker_id && rows[t].to_id != marker_id,
        forall|t: int|
            0 <= t < rows.len() && ((#[trigger] rows[t]).from_id == marker_id || rows[t].to_id == marker_id) && (forall|
                u: int,
            | 0 <= u < t ==> (#[trigger] rows[u]).from_id != marker_id && rows[u].to_id != marker_id) ==> first_group(
                rows,
                marker_id,
                rows.len() as int,
            ) == Some(rows[t].group_id@),
{
    lemma_first_group(rows, marker_id, rows.len() as int);
}

/// The linkage group a marker is shown with: that of the first row that
/// touches it.
pub fn linkage_group_of(rows: &Vec<LinkageRow>, marker_id: i64) -> (res: Option<String>)
    ensures
        match res {
            Some(g) => first_group(rows@, marker_id, rows@.len() as int) == Some(g@),
            None => first_group(rows@, marker_id, rows@.len() as int) is None,
        },
{
    let mut i: usize = 0;
    while i < rows.len()
        invariant
            i <= rows@.len(),
            first_group(rows@, marker_id, i as int) is None,
        decreases rows@.len() - i,
    {
        let r = &rows[i];
        if r.from_id == marker_id || r.to_id == marker_id {
            proof {
                lemma_first_group_sticks(rows@, marker_id, i + 1, rows@.len() as int);
            }
            return Some(r.group_id.as_str().to_owned());
        }
        i += 1;
    }
    None
}

/// The value of the last pair with key `k` among the first `n`.
pub open spec fn last_value<V>(pairs: Seq<(i64, V)>, k: i64, n: int) -> Option<V>
    decreases n,
{
    if n <= 0 {
        None
    } else if pairs[n - 1].0 == k {
        Some(pairs[n - 1].1)
    } else {
        last_value(pairs, k, n - 1)
    }
}

/// The value of the first pair with key `k` among the first `n`.
pub open spec fn first_value<V>(pairs: Seq<(i64, V)>, k: i64, n: int) -> Option<V>
    decreases n,
{
    if n <= 0 {
        None
    } else {
        match first_value(pairs, k, n - 1) {
            Some(v) => Some(v),
            None => if pairs[n - 1].0 == k { Some(pairs[n - 1].1) } else { None },
        }
    }
}

proof fn lemma_first_value_sticks<V>(pairs: Seq<(i64, V)>, k: i64, n: int, m: int)
    requires
        n <= m,
        first_value(pairs, k, n) is Some,
    ensures
        first_value(pairs, k, m) == first_value(pairs, k, n),
    decreases m - n,
{
    if n < m {
        lemma_first_value_sticks(pairs, k, n, m - 1);
    }
}

proof fn lemma_last_value<V>(pairs: Seq<(i64, V)>, k: i64, n: int)
    requires
        0 <= n <= pairs.len(),
    ensures
        last_value(pairs, k, n) is None <==> forall|t: int| 0 <= t < n ==> (#[trigger] pairs[t]).0 != k,
        forall|t: int|
            0 <= t < n && (#[trigger] pairs[t]).0 == k && (forall|u: int| t < u < n ==> (#[trigger] pairs[u]).0 != k)
                ==> last_value(pairs, k, n) == Some(pairs[t].1),
    decreases n,
{
    if n > 0 {
        lemma_last_value(pairs, k, n - 1);
    }
}

proof fn lemma_first_value<V>(pairs: Seq<(i64, V)>, k: i64, n: int)
    requires
        0 <= n <= pairs.len(),
    ensures
        first_value(pairs, k, n) is None <==> forall|t: int| 0 <= t < n ==> (#[trigger] pairs[t]).0 != k,
        forall|t: int|
            0 <= t < n && (#[trigger] pairs[t]).0 == k && (forall|u: int| 0 <= u < t ==> (#[trigger] pairs[u]).0 != k)
                ==> first_value(pairs, k, n) == Some(pairs[t].1),
    decreases n,
{
    if n > 0 {
        lemma_first_value(pairs, k, n - 1);
        assert forall|t: int|
            0 <= t < n && (#[trigger] pairs[t]).0 == k && (forall|u: int| 0 <= u < t ==> (#[trigger] pairs[u]).0 != k)
                implies first_value(pairs, k, n) == Some(pairs[t].1) by {
            if t == n - 1 {
                assert(first_value(pairs, k, n - 1) is None);
            }
        }
    }
}

/// Lookups by key: the last pair with the key gives the value that
/// `last_value` finds, the first pair the one that `first_value` finds,
/// and neither finds one exactly when no pair has the key.
pub proof fn lookups_take_the_last_or_first_pair<V>(pairs: Seq<(i64, V)>, k: i64)
    ensures
        last_value(pairs, k, pairs.len() as int) is None <==> forall|t: int| 0 <= t < pairs.len() ==> (#[trigger] pairs[t]).0 != k,
        first_value(pairs, k, pairs.len() as int) is None <==> forall|t: int| 0 <= t < pairs.len() ==> (#[trigger] pairs[t]).0 != k,
        forall|t: int|
            0 <= t < pairs.len() && (#[trigger] pairs[t]).0 == k && (forall|u: int|
                t < u < pairs.len() ==> (#[trigger] pairs[u]).0 != k) ==> last_value(pairs, k, pairs.len() as int) == Some(
                pairs[t].1,
            ),
        forall|t: int|
            0 <= t < pairs.len() && (#[trigger] pairs[t]).0 == k && (forall|u: int| 0 <= u < t ==> (#[trigger] pairs[u]).0 != k)
                ==> first_value(pairs, k, pairs.len() as int) == Some(pairs[t].1),
{
    lemma_last_value(pairs, k, pairs.len() as int);
    lemma_first_value(pairs, k, pairs.len() as int);
}

/// The icon of an item: the last item row with that id (0 when none).
pub fn icon_of_item(item_icons: &Vec<(i64, i64)>, item_id: i64) -> (res: i64)
    ensures
        res == (match last_value(item_icons@, item_id, item_icons@.len() as int) {
            Some(v) => v,
            None => 0,
        }),
{
    let mut i: usize = item_icons.len();
    while i > 0
        invariant
            i <= item_icons@.len(),
            last_value(item_icons@, item_id, item_icons@.len() as int) == last_value(item_icons@, item_id, i as int),
        decreases i,
    {
        if item_icons[i - 1].0 == item_id {
            return item_icons[i - 1].1;
        }
        i -= 1;
    }
    0
}

/// The tags as plain text.
pub open spec fn tags_view(tags: Seq<(i64, String)>) -> Seq<(i64, Seq<char>)> {
    tags.map_values(|t: (i64, String)| (t.0, t.1@))
}

/// The tag of an icon: the first tag row of that icon (empty when none).
pub fn tag_of_icon(icon_tags: &Vec<(i64, String)>, icon_id: i64) -> (res: String)
    ensures
        res@ == (match first_value(tags_view(icon_tags@), icon_id, icon_tags@.len() as int) {
            Some(v) => v,
            None => Seq::empty(),
        }),
{
    let ghost tv = tags_view(icon_tags@);
    let mut i: usize = 0;
    while i < icon_tags.len()
        invariant
            i <= icon_tags@.len(),
            tv == tags_view(icon_tags@),
            first_value(tv, icon_id, i as int) is None,
        decreases icon_tags@.len() - i,
    {
        if icon_tags[i].0 == icon_id {
            proof {
                assert(tv[i as int] == (icon_id, icon_tags@[i as int].1@));
                lemma_first_value_sticks(tv, icon_id, i + 1, icon_tags@.len() as int);
            }
            return icon_tags[i].1.as_str().to_owned();
        }
        i += 1;
    }
    String::new()
}

/// The URL of an icon: that of the last icon row with the id, if any.
pub fn url_of_icon(urls: &Vec<(i64, String)>, icon_id: i64) -> (res: Option<String>)
    ensures
        match last_value(tags_view(urls@), icon_id, urls@.len() as int) {
            Some(u) => res matches Some(r) && r@ == u,
            None => res is None,
        },
{
    let ghost tv = tags_view(urls@);
    let mut i: usize = urls.len();
    while i > 0
        invariant
            i <= urls@.len(),
            tv == tags_view(urls@),
            last_value(tv, icon_id, urls@.len() as int) == last_value(tv, icon_id, i as int),
        decreases i,
    {
        if urls[i - 1].0 == icon_id {
            assert(tv[i - 1] == (icon_id, urls@[i - 1].1@));
            return Some(urls[i - 1].1.as_str().to_owned());
        }
        i -= 1;
    }
    None
}

/// An item link of a marker: the link's marker, item and count, with the
/// item's icon and that icon's tag.
pub struct ItemLinkView {
    pub marker_id: i64,
    pub item_id: i64,
    pub count: i32,
    pub icon_id: i64,
    pub icon_tag: String,
}

/// Resolves marker-item links against the item rows (their icons) and the
/// tag rows (the icons' tags), one view per link in order.
pub fn resolve_item_links(links: &Vec<(i64, i64, i32)>, item_icons: &Vec<(i64, i64)>, icon_tags: &Vec<(i64, String)>) -> (res: Vec<ItemLinkView>)
    ensures
        res@.len() == links@.len(),
        forall|k: int|
            0 <= k < res@.len() ==> {
                let x = #[trigger] res@[k];
                &&& x.marker_id == links@[k].0
                &&& x.item_id == links@[k].1
                &&& x.count == links@[k].2
                &&& x.icon_id == (match last_value(item_icons@, x.item_id, item_icons@.len() as int) {
                    Some(v) => v,
                    None => 0,
                })
                &&& x.icon_tag@ == (match first_value(tags_view(icon_tags@), x.icon_id, icon_tags@.len() as int) {
                    Some(v) => v,
                    None => Seq::empty(),
                })
            },
{
    let mut res: Vec<ItemLinkView> = Vec::new();
    let mut i: usize = 0;
    while i < links.len()
        invariant
            i <= links@.len(),
            res@.len() == i,
            forall|k: int|
                0 <= k < i ==> {
                    let x = #[trigger] res@[k];
                    &&& x.marker_id == links@[k].0
                    &&& x.item_id == links@[k].1
                    &&& x.count == links@[k].2
                    &&& x.icon_id == (match last_value(item_icons@, x.item_id, item_icons@.len() as int) {
                        Some(v) => v,
                        None => 0,
                    })
                    &&& x.icon_tag@ == (match first_value(tags_view(icon_tags@), x.icon_id, icon_tags@.len() as int) {
                        Some(v) => v,
                        None => Seq::empty(),
                    })
                },
        decreases links@.len() - i,
    {
        let (m, it, c) = links[i];
        let icon = icon_of_item(item_icons, it);
        let tag = tag_of_icon(icon_tags, icon);
        res.push(ItemLinkView { marker_id: m, item_id: it, count: c, icon_id: icon, icon_tag: tag });
        i += 1;
    }
    res
}

/// The positions of a marker's links, in order.
pub fn links_of_marker(links: &Vec<ItemLinkView>, marker_id: i64) -> (res: Vec<usize>)
    ensures
        forall|a: int, b: int| 0 <= a < b < res@.len() ==> res@[a] < res@[b],
        forall|k: int| 0 <= k < res@.len() ==> res@[k] < links@.len() && links@[res@[k] as int].marker_id == marker_id,
        forall|t: int| 0 <= t < links@.len() && links@[t].marker_id == marker_id ==> res@.contains(t as usize),
{
    let mut res: Vec<usize> = Vec::new();
    let mut i: usize = 0;
    while i < links.len()
        invariant
            i <= links@.len(),
            forall|a: int, b: int| 0 <= a < b < res@.len() ==> res@[a] < res@[b],
            forall|k: int| 0 <= k < res@.len() ==> res@[k] < i && links@[res@[k] as int].marker_id == marker_id,
            forall|t: int| 0 <= t < i && links@[t].marker_id == marker_id ==> res@.contains(t as usize),
        decreases links@.len() - i,
    {
        if links[i].marker_id == marker_id {
            let ghost before = res@;
            res.push(i);
            proof {
                assert forall|t: int| 0 <= t < i + 1 && links@[t].marker_id == marker_id implies res@.contains(t as usize) by {
                    if t < i {
                        let q = choose|q: int| 0 <= q < before.len() && before[q] == t as usize;
                        assert(res@[q] == t as usize);
                    } else {
                        assert(res@[before.len() as int] == i);
                    }
                }
            }
        }
        i += 1;
    }
    res
}

} // verus!
