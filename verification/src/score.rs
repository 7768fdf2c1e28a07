//! Contribution scores: the weight of one map-point edit, the per-user
//! tallies of a period's edits, and the per-user merge of stored score
//! rows.

use vstd::prelude::*;

verus! {

/// An edit of a map point, as the score run reads it: who made it,
/// whether it deleted the point, and its recorded content (JSON text).
pub struct ScoreHistory {
    pub creator_id: Option<i64>,
    pub deleted: bool,
    pub content: String,
}

/// The number of top-level fields of a JSON text that `serde_json` reads
/// as an object; `None` when it does not parse or is not an object.
pub uninterp spec fn json_object_size(s: Seq<char>) -> Option<usize>;

/// `serde_json::from_str::<serde_json::Value>`, then the length of the
/// object it read; what parses is left to the name.
#[verifier::external_body]
fn json_object_len(s: &str) -> (res: Option<usize>)
    ensures
        res == json_object_size(s@),
{
    match serde_json::from_str::<serde_json::Value>(s) {
        Ok(serde_json::Value::Object(m)) => Some(m.len()),
        Ok(_) => None,
        Err(_) => None,
    }
}

/// The weight of an edit given its object size: a deletion weighs 1, an
/// edit whose content is an object weighs its number of fields (at least
/// 1), any other edit 1.
pub open spec fn weight_for(deleted: bool, size: Option<usize>) -> usize {
    if deleted {
        1
    } else {
        match size {
            Some(n) => if n >= 1 { n } else { 1 },
            None => 1,
        }
    }
}

/// The weight of an edit.
pub open spec fn edit_weight(h: ScoreHistory) -> usize {
    weight_for(h.deleted, json_object_size(h.content@))
}

/// The weight of an edit given whether it deleted the point and the size
/// of its content object.
pub fn weight_of_edit(deleted: bool, size: Option<usize>) -> (res: usize)
    ensures
        res == weight_for(deleted, size),
{
    if deleted {
        1
    } else {
        match size {
            Some(n) => if n >= 1 { n } else { 1 },
            None => 1,
        }
    }
}

/// The weight of an edit: its number of changed fields.
pub fn entry_weight(h: &ScoreHistory) -> (res: usize)
    ensures
        res == edit_weight(*h),
{
    if h.deleted {
        return weight_of_edit(true, None);
    }
    let size = json_object_len(h.content.as_str());
    weight_of_edit(false, size)
}

/// The distinct creators among the first `n` edits, in order of first
/// appearance.
pub open spec fn creators_in_order(hs: Seq<ScoreHistory>, n: int) -> Seq<i64>
    decreases n,
{
    if n <= 0 {
        Seq::empty()
    } else {
        let p = creators_in_order(hs, n - 1);
        match hs[n - 1].creator_id {
            Some(c) => if p.contains(c) { p } else { p.push(c) },
            None => p,
        }
    }
}

/// The number of the first `n` edits made by `c`.
pub open spec fn creator_count(hs: Seq<ScoreHistory>, c: i64, n: int) -> nat
    decreases n,
{
    if n <= 0 {
        0
    } else {
        creator_count(hs, c, n - 1) + (if hs[n - 1].creator_id == Some(c) { 1nat } else { 0nat })
    }
}

/// The summed weight of the first `n` edits made by `c`.
pub open spec fn creator_weight(hs: Seq<ScoreHistory>, c: i64, n: int) -> nat
    decreases n,
{
    if n <= 0 {
        0
    } else {
        creator_weight(hs, c, n - 1) + (if hs[n - 1].creator_id == Some(c) {
            edit_weight(hs[n - 1]) as nat
        } else {
            0nat
        })
    }
}

proof fn lemma_absent_creator(hs: Seq<ScoreHistory>, c: i64, n: int)
    requires
        0 <= n <= hs.len(),
        !creators_in_order(hs, n).contains(c),
    ensures
        creator_count(hs, c, n) == 0,
        creator_weight(hs, c, n) == 0,
    decreases n,
{
    if n > 0 {
        let p = creators_in_order(hs, n - 1);
        assert(!p.contains(c)) by {
            if p.contains(c) {
                let t = choose|t: int| 0 <= t < p.len() && p[t] == c;
                match hs[n - 1].creator_id {
                    Some(d) => if !p.contains(d) {
                        assert(p.push(d)[t] == c);
                    },
                    None => {},
                }
            }
        }
        lemma_absent_creator(hs, c, n - 1);
        if hs[n - 1].creator_id == Some(c) {
            assert(creators_in_order(hs, n).contains(c)) by {
                if p.contains(c) {
                } else {
                    assert(p.push(c)[p.len() as int] == c);
                }
            }
        }
    }
}

proof fn lemma_creator_bounds(hs: Seq<ScoreHistory>, c: i64, n: int)
    requires
        0 <= n <= hs.len(),
    ensures
        creator_count(hs, c, n) <= n,
        creator_weight(hs, c, n) <= n * (usize::MAX as int),
    decreases n,
{
    if n > 0 {
        lemma_creator_bounds(hs, c, n - 1);
    }
}

proof fn lemma_creators_listed(hs: Seq<ScoreHistory>, n: int)
    requires
        0 <= n <= hs.len(),
    ensures
        forall|c: i64|
            #[trigger] creators_in_order(hs, n).contains(c) <==> exists|t: int| 0 <= t < n && hs[t].creator_id == Some(c),
        forall|a: int, b: int|
            0 <= a < b < creators_in_order(hs, n).len() ==> #[trigger] creators_in_order(hs, n)[a]
                != #[trigger] creators_in_order(hs, n)[b],
    decreases n,
{
    if n > 0 {
        lemma_creators_listed(hs, n - 1);
        let p = creators_in_order(hs, n - 1);
        let q = creators_in_order(hs, n);
        if hs[n - 1].creator_id is Some && !p.contains(hs[n - 1].creator_id->0) {
            let y = hs[n - 1].creator_id->0;
            assert(q == p.push(y));
            assert forall|c: i64| #[trigger] q.contains(c) <==> (p.contains(c) || c == y) by {
                if p.contains(c) {
                    let k = choose|k: int| 0 <= k < p.len() && p[k] == c;
                    assert(q[k] == c);
                }
                if c == y {
                    assert(q[p.len() as int] == c);
                }
                if q.contains(c) {
                    let k = choose|k: int| 0 <= k < q.len() && q[k] == c;
                    if k < p.len() {
                        assert(p[k] == c);
                    }
                }
            }
            assert forall|a: int, b: int| 0 <= a < b < q.len() implies #[trigger] q[a] != #[trigger] q[b] by {
                assert(q[a] == p[a]);
                if b < p.len() {
                    assert(q[b] == p[b]);
                }
            }
        }
        assert forall|c: i64| #[trigger] q.contains(c) <==> exists|t: int| 0 <= t < n && hs[t].creator_id == Some(c) by {
            if exists|t: int| 0 <= t < n && hs[t].creator_id == Some(c) {
                let t = choose|t: int| 0 <= t < n && hs[t].creator_id == Some(c);
                if t < n - 1 {
                }
            }
        }
    }
}

proof fn lemma_weight_at_least_count(hs: Seq<ScoreHistory>, c: i64, n: int)
    requires
        0 <= n <= hs.len(),
    ensures
        creator_count(hs, c, n) <= creator_weight(hs, c, n),
        (forall|t: int| 0 <= t < n && (#[trigger] hs[t]).creator_id == Some(c) ==> hs[t].deleted) ==> creator_weight(
            hs,
            c,
            n,
        ) == creator_count(hs, c, n),
    decreases n,
{
    if n > 0 {
        lemma_weight_at_least_count(hs, c, n - 1);
    }
}

/// The contributors of a point's edits, each once and in order of their
/// first edit, are exactly those who made an edit; a contributor's summed
/// weight is at least their number of edits (every edit weighs 1 or
/// more), and equals it when all their edits were deletions.
pub proof fn contributors_and_their_weights(hs: Seq<ScoreHistory>, c: i64)
    ensures
        creators_in_order(hs, hs.len() as int).contains(c) <==> exists|t: int|
            0 <= t < hs.len() && hs[t].creator_id == Some(c),
        forall|a: int, b: int|
            0 <= a < b < creators_in_order(hs, hs.len() as int).len() ==> #[trigger] creators_in_order(
                hs,
                hs.len() as int,
            )[a] != #[trigger] creators_in_order(hs, hs.len() as int)[b],
        creator_count(hs, c, hs.len() as int) <= creator_weight(hs, c, hs.len() as int),
        (forall|t: int| 0 <= t < hs.len() && (#[trigger] hs[t]).creator_id == Some(c) ==> hs[t].deleted) ==> creator_weight(
            hs,
            c,
            hs.len() as int,
        ) == creator_count(hs, c, hs.len() as int),
{
    lemma_creators_listed(hs, hs.len() as int);
    lemma_weight_at_least_count(hs, c, hs.len() as int);
}

/// One contributor's tally: the number of edits and their summed weight.
pub struct Contribution {
    pub user_id: i64,
    pub count: usize,
    pub weight: u128,
}

/// The contributions of a period's edits: one per creator, in order of
/// first appearance, each with the number and the summed weight of that
/// creator's edits; edits without a creator are left out.
pub fn score_contributions(hs: &Vec<ScoreHistory>) -> (res: Vec<Contribution>)
    ensures
        res@.len() == creators_in_order(hs@, hs@.len() as int).len(),
        forall|a: int, b: int| 0 <= a < b < res@.len() ==> res@[a].user_id != res@[b].user_id,
        forall|k: int|
            0 <= k < res@.len() ==> {
                let c = #[trigger] res@[k];
                &&& c.user_id == creators_in_order(hs@, hs@.len() as int)[k]
                &&& c.count == creator_count(hs@, c.user_id, hs@.len() as int)
                &&& c.weight == creator_weight(hs@, c.user_id, hs@.len() as int)
            },
{
    let mut res: Vec<Contribution> = Vec::new();
    let mut i: usize = 0;
    while i < hs.len()
        invariant
            i <= hs@.len(),
            res@.len() == creators_in_order(hs@, i as int).len(),
            forall|a: int, b: int| 0 <= a < b < res@.len() ==> res@[a].user_id != res@[b].user_id,
            forall|k: int|
                0 <= k < res@.len() ==> {
                    let c = #[trigger] res@[k];
                    &&& c.user_id == creators_in_order(hs@, i as int)[k]
                    &&& c.count == creator_count(hs@, c.user_id, i as int)
                    &&& c.weight == creator_weight(hs@, c.user_id, i as int)
                },
        decreases hs@.len() - i,
    {
        let h = &hs[i];
        let ghost p = creators_in_order(hs@, i as int);
        if let Some(c) = h.creator_id {
            let w = entry_weight(h);
            let mut j: usize = 0;
            while j < res.len() && res[j].user_id != c
                invariant
                    j <= res@.len(),
                    forall|t: int| 0 <= t < j ==> res@[t].user_id != c,
                decreases res@.len() - j,
            {
                j += 1;
            }
            proof {
                lemma_creator_bounds(hs@, c, i as int);
            }
            if j < res.len() {
                let old_count = res[j].count;
                let old_weight = res[j].weight;
                assert(old_weight + w <= u128::MAX) by (nonlinear_arith)
                    requires
                        old_weight <= i * (usize::MAX as int),
                        w <= usize::MAX,
                        i < usize::MAX,
                ;
                assert(p.contains(c)) by {
                    assert(p[j as int] == c);
                }
                let ghost before = res@;
                res.set(j, Contribution { user_id: c, count: old_count + 1, weight: old_weight + w as u128 });
                proof {
                    assert(creators_in_order(hs@, i + 1) == p);
                    assert forall|k: int| 0 <= k < res@.len() implies {
                        let x = #[trigger] res@[k];
                        &&& x.user_id == creators_in_order(hs@, i + 1)[k]
                        &&& x.count == creator_count(hs@, x.user_id, i + 1)
                        &&& x.weight == creator_weight(hs@, x.user_id, i + 1)
                    } by {
                        if k != j {
                            assert(res@[k] == before[k]);
                            if k < j {
                                assert(before[k].user_id != before[j as int].user_id);
                            } else {
                                assert(before[j as int].user_id != before[k].user_id);
                            }
                        }
                    }
                }
            } else {
                assert(!p.contains(c)) by {
                    if p.contains(c) {
                        let t = choose|t: int| 0 <= t < p.len() && p[t] == c;
                        assert(res@[t].user_id == c);
                    }
                }
                proof {
                    lemma_absent_creator(hs@, c, i as int);
                }
                let ghost before = res@;
                res.push(Contribution { user_id: c, count: 1, weight: w as u128 });
                proof {
                    assert(creators_in_order(hs@, i + 1) == p.push(c));
                    assert forall|k: int| 0 <= k < res@.len() implies {
                        let x = #[trigger] res@[k];
                        &&& x.user_id == creators_in_order(hs@, i + 1)[k]
                        &&& x.count == creator_count(hs@, x.user_id, i + 1)
                        &&& x.weight == creator_weight(hs@, x.user_id, i + 1)
                    } by {
                        if k < before.len() {
                            assert(res@[k] == before[k]);
                            assert(before[k].user_id == p[k]);
                            assert(p[k] != c);
                        }
                    }
                }
            }
        } else {
            proof {
                assert(creators_in_order(hs@, i + 1) == p);
                assert forall|k: int| 0 <= k < res@.len() implies {
                    let x = #[trigger] res@[k];
                    &&& x.user_id == creators_in_order(hs@, i + 1)[k]
                    &&& x.count == creator_count(hs@, x.user_id, i + 1)
                    &&& x.weight == creator_weight(hs@, x.user_id, i + 1)
                } by {}
            }
        }
        i += 1;
    }
    res
}

/// A stored score row's content as the merge reads it: the `fields` and
/// `chars` objects (each entry with its value when it is an integer), or,
/// where an object is missing, the `count` and the truncated
/// `fieldWeight` of a row this service wrote.
pub struct ScoreContent {
    pub fields: Option<Vec<(String, Option<i64>)>>,
    pub count: Option<i64>,
    pub chars: Option<Vec<(String, Option<i64>)>>,
    pub field_weight: Option<i64>,
}

/// A stored score row: its user (none reads as 0) and its content.
pub struct ScoreStatRow {
    pub user_id: Option<i64>,
    pub content: ScoreContent,
}

/// The entries of a content object as plain values.
pub open spec fn src_view(v: Vec<(String, Option<i64>)>) -> Seq<(Seq<char>, Option<i64>)> {
    v@.map_values(|e: (String, Option<i64>)| (e.0@, e.1))
}

/// A tally as plain values.
pub open spec fn tally_view(v: Seq<(String, i64)>) -> Seq<(Seq<char>, i64)> {
    v.map_values(|e: (String, i64)| (e.0@, e.1))
}

/// The first index, from `k` on, whose key is `key`.
pub open spec fn find_entry(acc: Seq<(Seq<char>, i64)>, key: Seq<char>, k: int) -> Option<int>
    decreases acc.len() - k,
{
    if k < 0 || k >= acc.len() {
        None
    } else if acc[k].0 == key {
        Some(k)
    } else {
        find_entry(acc, key, k + 1)
    }
}

/// Adds `v` to the tally of `key` (a new key starts at 0; sums wrap as
/// `i64` arithmetic does in a release build).
pub open spec fn add_to(acc: Seq<(Seq<char>, i64)>, key: Seq<char>, v: i64) -> Seq<(Seq<char>, i64)> {
    match find_entry(acc, key, 0) {
        Some(j) => acc.update(j, (key, acc[j].1.wrapping_add(v))),
        None => acc.push((key, v)),
    }
}

/// Adds the integer entries among the first `n` of `src` to the tally.
pub open spec fn merge_entries(acc: Seq<(Seq<char>, i64)>, src: Seq<(Seq<char>, Option<i64>)>, n: int) -> Seq<(Seq<char>, i64)>
    decreases n,
{
    if n <= 0 {
        acc
    } else {
        let p = merge_entries(acc, src, n - 1);
        match src[n - 1].1 {
            Some(v) => add_to(p, src[n - 1].0, v),
            None => p,
        }
    }
}

/// One row's contribution to a tally: its object merged in, or, without
/// one, its fallback number added to `content`.
pub open spec fn merge_row(acc: Seq<(Seq<char>, i64)>, obj: Option<Seq<(Seq<char>, Option<i64>)>>, fallback: Option<i64>) -> Seq<(Seq<char>, i64)> {
    match obj {
        Some(m) => merge_entries(acc, m, m.len() as int),
        None => match fallback {
            Some(v) => add_to(acc, "content"@, v),
            None => acc,
        },
    }
}

/// The user a row counts for.
pub open spec fn row_user(r: ScoreStatRow) -> i64 {
    match r.user_id {
        Some(u) => u,
        None => 0,
    }
}

/// The `fields` object of a row as plain values.
pub open spec fn fields_obj(r: ScoreStatRow) -> Option<Seq<(Seq<char>, Option<i64>)>> {
    match r.content.fields {
        Some(v) => Some(src_view(v)),
        None => None,
    }
}

/// The `chars` object of a row as plain values.
pub open spec fn chars_obj(r: ScoreStatRow) -> Option<Seq<(Seq<char>, Option<i64>)>> {
    match r.content.chars {
        Some(v) => Some(src_view(v)),
        None => None,
    }
}

/// A user's `fields` tally over the first `n` rows.
pub open spec fn user_fields(rows: Seq<ScoreStatRow>, uid: i64, n: int) -> Seq<(Seq<char>, i64)>
    decreases n,
{
    if n <= 0 {
        Seq::empty()
    } else {
        let p = user_fields(rows, uid, n - 1);
        if row_user(rows[n - 1]) == uid {
            merge_row(p, fields_obj(rows[n - 1]), rows[n - 1].content.count)
        } else {
            p
        }
    }
}

/// A user's `chars` tally over the first `n` rows.
pub open spec fn user_chars(rows: Seq<ScoreStatRow>, uid: i64, n: int) -> Seq<(Seq<char>, i64)>
    decreases n,
{
    if n <= 0 {
        Seq::empty()
    } else {
        let p = user_chars(rows, uid, n - 1);
        if row_user(rows[n - 1]) == uid {
            merge_row(p, chars_obj(rows[n - 1]), rows[n - 1].content.field_weight)
        } else {
            p
        }
    }
}

proof fn lemma_find_entry(acc: Seq<(Seq<char>, i64)>, key: Seq<char>, k: int)
    requires
        0 <= k,
    ensures
        find_entry(acc, key, k) matches Some(j) ==> k <= j < acc.len() && acc[j].0 == key,
    decreases acc.len() - k,
{
    if k < acc.len() && acc[k].0 != key {
        lemma_find_entry(acc, key, k + 1);
    }
}

proof fn lemma_find_entry_none(acc: Seq<(Seq<char>, i64)>, key: Seq<char>, k: int)
    requires
        0 <= k,
        find_entry(acc, key, k) is None,
    ensures
        forall|i: int| k <= i < acc.len() ==> (#[trigger] acc[i]).0 != key,
    decreases acc.len() - k,
{
    if k < acc.len() {
        lemma_find_entry_none(acc, key, k + 1);
    }
}

/// Keys of a tally are distinct.
pub open spec fn tally_keys_unique(acc: Seq<(Seq<char>, i64)>) -> bool {
    forall|a: int, b: int| 0 <= a < b < acc.len() ==> (#[trigger] acc[a]).0 != (#[trigger] acc[b]).0
}

/// Adding to a tally whose keys are distinct adds `v` (wrapping) to the
/// entry of `key` and leaves every other entry as it was; a key not yet
/// tallied is appended with `v`; the keys stay distinct.
pub proof fn tally_add_touches_only_its_key(acc: Seq<(Seq<char>, i64)>, key: Seq<char>, v: i64)
    requires
        tally_keys_unique(acc),
    ensures
        tally_keys_unique(add_to(acc, key, v)),
        forall|i: int|
            0 <= i < acc.len() ==> (#[trigger] add_to(acc, key, v)[i]).0 == acc[i].0 && add_to(acc, key, v)[i].1 == (if acc[i].0
                == key {
                acc[i].1.wrapping_add(v)
            } else {
                acc[i].1
            }),
        (exists|i: int| 0 <= i < acc.len() && (#[trigger] acc[i]).0 == key) ==> add_to(acc, key, v).len() == acc.len(),
        (forall|i: int| 0 <= i < acc.len() ==> (#[trigger] acc[i]).0 != key) ==> add_to(acc, key, v) == acc.push((key, v)),
{
    lemma_find_entry(acc, key, 0);
    match find_entry(acc, key, 0) {
        Some(j) => {
            let r = add_to(acc, key, v);
            assert forall|a: int, b: int| 0 <= a < b < r.len() implies (#[trigger] r[a]).0 != (#[trigger] r[b]).0 by {
                assert(r[a].0 == acc[a].0 && r[b].0 == acc[b].0);
            }
            assert forall|i: int| 0 <= i < acc.len() implies (#[trigger] r[i]).0 == acc[i].0 && r[i].1 == (if acc[i].0
                == key {
                acc[i].1.wrapping_add(v)
            } else {
                acc[i].1
            }) by {
                if i != j && acc[i].0 == key {
                    if i < j {
                        assert(acc[i].0 != acc[j].0);
                    } else {
                        assert(acc[j].0 != acc[i].0);
                    }
                }
            }
        },
        None => {
            lemma_find_entry_none(acc, key, 0);
            let r = add_to(acc, key, v);
            assert forall|a: int, b: int| 0 <= a < b < r.len() implies (#[trigger] r[a]).0 != (#[trigger] r[b]).0 by {
                if b == acc.len() {
                    assert(r[a] == acc[a]);
                } else {
                    assert(r[a] == acc[a] && r[b] == acc[b]);
                }
            }
            assert forall|i: int| 0 <= i < acc.len() implies (#[trigger] r[i]).0 == acc[i].0 && r[i].1 == (if acc[i].0
                == key {
                acc[i].1.wrapping_add(v)
            } else {
                acc[i].1
            }) by {
                assert(r[i] == acc[i]);
            }
        },
    }
}

fn find_entry_exec(acc: &Vec<(String, i64)>, key: &str) -> (res: Option<usize>)
    ensures
        match find_entry(tally_view(acc@), key@, 0) {
            Some(j) => res == Some(j as usize),
            None => res is None,
        },
{
    let ghost t = tally_view(acc@);
    let mut k: usize = 0;
    while k < acc.len()
        invariant
            k <= acc@.len(),
            t == tally_view(acc@),
            find_entry(t, key@, 0) == find_entry(t, key@, k as int),
        decreases acc@.len() - k,
    {
        if crate::text::text_eq(acc[k].0.as_str(), key) {
            return Some(k);
        }
        k += 1;
    }
    None
}

fn add_to_exec(acc: &mut Vec<(String, i64)>, key: &str, v: i64)
    ensures
        tally_view(final(acc)@) == add_to(tally_view(old(acc)@), key@, v),
{
    let ghost t = tally_view(acc@);
    proof {
        lemma_find_entry(t, key@, 0);
    }
    let found = find_entry_exec(acc, key);
    match found {
        Some(j) => {
            proof {
                let fe = find_entry(t, key@, 0);
                assert(fe is Some);
                assert(0 <= fe->0 < t.len());
                assert(found == Some(fe->0 as usize));
            }
            let cur = acc[j].1;
            let k = key.to_owned();
            acc.set(j, (k, cur.wrapping_add(v)));
            assert(tally_view(acc@) =~= t.update(j as int, (key@, t[j as int].1.wrapping_add(v))));
            assert(find_entry(t, key@, 0) == Some(j as int));
            assert(tally_view(acc@) == add_to(t, key@, v));
        },
        None => {
            acc.push((key.to_owned(), v));
            assert(tally_view(acc@) =~= t.push((key@, v)));
            assert(tally_view(acc@) == add_to(t, key@, v));
        },
    }
}

fn merge_row_exec(acc: &mut Vec<(String, i64)>, obj: &Option<Vec<(String, Option<i64>)>>, fallback: Option<i64>)
    ensures
        tally_view(final(acc)@) == merge_row(
            tally_view(old(acc)@),
            match obj {
                Some(v) => Some(src_view(*v)),
                None => None,
            },
            fallback,
        ),
{
    match obj {
        Some(m) => {
            let ghost a0 = tally_view(acc@);
            let ghost sv = src_view(*m);
            let mut i: usize = 0;
            while i < m.len()
                invariant
                    i <= m@.len(),
                    sv == src_view(*m),
                    tally_view(acc@) == merge_entries(a0, sv, i as int),
                decreases m@.len() - i,
            {
                if let Some(v) = m[i].1 {
                    add_to_exec(acc, m[i].0.as_str(), v);
                }
                i += 1;
            }
        },
        None => {
            if let Some(v) = fallback {
                add_to_exec(acc, "content", v);
            }
        },
    }
}

/// One user's merged score data.
pub struct UserScore {
    pub user_id: i64,
    pub fields: Vec<(String, i64)>,
    pub chars: Vec<(String, i64)>,
}

/// The users of the rows, ascending, each once.
pub open spec fn row_users(rows: Seq<ScoreStatRow>) -> Set<i64> {
    Set::new(|u: i64| exists|i: int| 0 <= i < rows.len() && row_user(#[trigger] rows[i]) == u)
}

/// Merges stored score rows per user: users ascending, each once; for each,
/// the rows' `fields` objects added up (or their counts under `content`),
/// and likewise the `chars` objects (or their weights).
pub fn merge_score_rows(rows: &Vec<ScoreStatRow>) -> (res: Vec<UserScore>)
    ensures
        forall|a: int, b: int| 0 <= a < b < res@.len() ==> res@[a].user_id < res@[b].user_id,
        forall|u: i64| row_users(rows@).contains(u) <==> exists|k: int| 0 <= k < res@.len() && (#[trigger] res@[k]).user_id == u,
        forall|k: int|
            0 <= k < res@.len() ==> {
                let x = #[trigger] res@[k];
                &&& tally_view(x.fields@) == user_fields(rows@, x.user_id, rows@.len() as int)
                &&& tally_view(x.chars@) == user_chars(rows@, x.user_id, rows@.len() as int)
            },
{
    let mut users: Vec<i64> = Vec::new();
    let mut i: usize = 0;
    while i < rows.len()
        invariant
            i <= rows@.len(),
            crate::ids::strictly_increasing(users@),
            forall|u: i64| users@.contains(u) <==> exists|t: int| 0 <= t < i && row_user(#[trigger] rows@[t]) == u,
        decreases rows@.len() - i,
    {
        let u = match rows[i].user_id {
            Some(u) => u,
            None => 0,
        };
        crate::ids::insert_sorted(&mut users, u);
        proof {
            assert forall|m: i64| users@.contains(m) <==> exists|t: int| 0 <= t < i + 1 && row_user(#[trigger] rows@[t]) == m by {
                if m == u {
                    assert(row_user(rows@[i as int]) == m);
                }
                if exists|t: int| 0 <= t < i + 1 && row_user(#[trigger] rows@[t]) == m {
                    let t = choose|t: int| 0 <= t < i + 1 && row_user(#[trigger] rows@[t]) == m;
                    if t < i {
                    }
                }
            }
        }
        i += 1;
    }
    let mut res: Vec<UserScore> = Vec::new();
    let mut k: usize = 0;
    while k < users.len()
        invariant
            k <= users@.len(),
            crate::ids::strictly_increasing(users@),
            res@.len() == k,
            forall|t: int| 0 <= t < k ==> (#[trigger] res@[t]).user_id == users@[t],
            forall|t: int|
                0 <= t < k ==> {
                    let x = #[trigger] res@[t];
                    &&& tally_view(x.fields@) == user_fields(rows@, x.user_id, rows@.len() as int)
                    &&& tally_view(x.chars@) == user_chars(rows@, x.user_id, rows@.len() as int)
                },
        decreases users@.len() - k,
    {
        let uid = users[k];
        let mut fields: Vec<(String, i64)> = Vec::new();
        let mut chars: Vec<(String, i64)> = Vec::new();
        let mut j: usize = 0;
        while j < rows.len()
            invariant
                j <= rows@.len(),
                tally_view(fields@) == user_fields(rows@, uid, j as int),
                tally_view(chars@) == user_chars(rows@, uid, j as int),
            decreases rows@.len() - j,
        {
            let r = &rows[j];
            let ru = match r.user_id {
                Some(u) => u,
                None => 0,
            };
            if ru == uid {
                merge_row_exec(&mut fields, &r.content.fields, r.content.count);
                merge_row_exec(&mut chars, &r.content.chars, r.content.field_weight);
            }
            j += 1;
        }
        assert(tally_view(fields@) =~= user_fields(rows@, uid, rows@.len() as int));
        res.push(UserScore { user_id: uid, fields, chars });
        k += 1;
    }
    proof {
        assert forall|u: i64| row_users(rows@).contains(u) <==> exists|k: int| 0 <= k < res@.len() && (#[trigger] res@[k]).user_id == u by {
            if row_users(rows@).contains(u) {
                assert(users@.contains(u));
                let t = choose|t: int| 0 <= t < users@.len() && users@[t] == u;
                assert(res@[t].user_id == u);
            }
            if exists|k: int| 0 <= k < res@.len() && (#[trigger] res@[k]).user_id == u {
                let k = choose|k: int| 0 <= k < res@.len() && (#[trigger] res@[k]).user_id == u;
                assert(users@[k] == u);
                assert(users@.contains(u));
            }
        }
    }
    res
}

/// The instant (microseconds since the epoch) of a request's millisecond
/// timestamp, or `now` where `chrono` cannot represent it.
pub fn timestamp_or_now(ms: i64, now: i64) -> (res: i64)
    ensures
        res == (if crate::notice::millis_in_range(ms) { (ms * 1000) as i64 } else { now }),
{
    let t = crate::notice::micros_of_millis(ms);
    crate::notice::pick_parsed_time(t, None, None, now)
}

} // verus!
