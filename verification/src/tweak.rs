//! Marker tweaks: batch edits that a client sends for a set of markers,
//! each naming a field, an edit kind and its arguments.

use vstd::prelude::*;
use vstd::string::*;
use crate::text::{
    chars_of, string_of, copy_chars, contains_seq, contains_exec, replace_all, replace_all_exec,
    strip_prefix, strip_prefix_exec, strip_suffix, strip_suffix_exec, trim_start_matches,
    trim_start_matches_exec, trim_end_matches, trim_end_matches_exec, trim_start, trim_start_exec,
    trim_end, trim_end_exec,
};

verus! {

/// The kind of an edit.
#[derive(Clone, Copy, PartialEq, Eq, Structural, Debug)]
pub enum TweakKind {
    Replace,
    Update,
    ReplaceRegex,
    Prepend,
    Append,
    RemoveLeft,
    RemoveRight,
    TrimLeft,
    TrimRight,
    InsertIfAbsent,
    InsertOrUpdate,
    Merge,
}

/// The marker field that an edit targets.
#[derive(Clone, Copy, PartialEq, Eq, Structural, Debug)]
pub enum TweakProp {
    Content,
    Title,
    Position,
    VideoPath,
    RefreshTime,
    Extra,
    HiddenFlag,
    ItemList,
}

/// The `value` argument of an edit. A number arrives as `Integer` when it
/// is integral (a float such as `1.0` included); any other number is `Other`.
pub enum TweakValue {
    Text(String),
    Integer(i64),
    AnyMap,
    Other,
}

/// One entry of an item-list argument, as far as the edit reads it: a bare
/// number (its value when it is an `i64`), or an object with its `id` and
/// `itemId` keys (each absent, or present with its value when that is an
/// `i64`) and its `count` when that is an `i64`.
pub enum ItemEntry {
    Number(Option<i64>),
    Object { id: Option<Option<i64>>, item_id: Option<Option<i64>>, count: Option<i64> },
    Other,
}

/// The arguments of an edit (`map` only says whether a map was sent; its
/// contents are stored as they came).
pub struct TweakMeta {
    pub replace: Option<String>,
    pub test: Option<String>,
    pub value: Option<TweakValue>,
    pub has_map: bool,
    pub item_list: Option<Vec<Option<ItemEntry>>>,
}

/// One edit.
pub struct TweakConfig {
    pub kind: TweakKind,
    pub prop: TweakProp,
    pub meta: TweakMeta,
}

/// The text of an optional string.
pub open spec fn opt_text(s: Option<String>) -> Option<Seq<char>> {
    match s {
        Some(s) => Some(s@),
        None => None,
    }
}

/// The text carried by a `value` argument, if it is text.
pub open spec fn value_text(v: Option<TweakValue>) -> Option<Seq<char>> {
    match v {
        Some(TweakValue::Text(s)) => Some(s@),
        _ => None,
    }
}

/// The new text of an edit: `replace`, else a text `value`.
pub open spec fn new_text(m: TweakMeta) -> Option<Seq<char>> {
    match m.replace {
        Some(r) => Some(r@),
        None => value_text(m.value),
    }
}

/// The text that an edit looks for: `test`, else a text `value`.
pub open spec fn needle_text(m: TweakMeta) -> Option<Seq<char>> {
    match m.test {
        Some(t) => Some(t@),
        None => value_text(m.value),
    }
}

/// `needle_text` when it is present and not empty.
pub open spec fn nonempty_needle(m: TweakMeta) -> Option<Seq<char>> {
    match needle_text(m) {
        Some(n) => if n.len() > 0 { Some(n) } else { None },
        None => None,
    }
}

/// What a text edit makes of a field's text (`None`: the field is left as
/// it is). `Replace` and `ReplaceRegex` replace every occurrence of a
/// non-empty needle (a literal: no pattern syntax is read); `Replace`
/// without one sets the new text. `Update` edits only a text that holds
/// its needle. `Prepend`/`Append` add the new text; `RemoveLeft`/
/// `RemoveRight` drop the needle once at an end; `TrimLeft`/`TrimRight`
/// drop every repetition of a non-empty needle at an end, or whitespace
/// without one. Other kinds do not apply to text.
pub open spec fn apply_text(kind: TweakKind, m: TweakMeta, origin: Seq<char>) -> Option<Seq<char>> {
    match kind {
        TweakKind::Replace => match (nonempty_needle(m), new_text(m)) {
            (Some(n), Some(r)) => Some(replace_all(origin, n, r)),
            _ => new_text(m),
        },
        TweakKind::Update => match nonempty_needle(m) {
            Some(n) => if contains_seq(origin, n) {
                match new_text(m) {
                    Some(r) => Some(replace_all(origin, n, r)),
                    None => None,
                }
            } else {
                None
            },
            None => new_text(m),
        },
        TweakKind::ReplaceRegex => match (nonempty_needle(m), new_text(m)) {
            (Some(n), Some(r)) => Some(replace_all(origin, n, r)),
            _ => None,
        },
        TweakKind::Prepend => match new_text(m) {
            Some(v) => Some(v + origin),
            None => None,
        },
        TweakKind::Append => match new_text(m) {
            Some(v) => Some(origin + v),
            None => None,
        },
        TweakKind::RemoveLeft => match needle_text(m) {
            Some(n) => Some(strip_prefix(origin, n)),
            None => None,
        },
        TweakKind::RemoveRight => match needle_text(m) {
            Some(n) => Some(strip_suffix(origin, n)),
            None => None,
        },
        TweakKind::TrimLeft => match nonempty_needle(m) {
            Some(n) => Some(trim_start_matches(origin, n)),
            None => Some(trim_start(origin)),
        },
        TweakKind::TrimRight => match nonempty_needle(m) {
            Some(n) => Some(trim_end_matches(origin, n)),
            None => Some(trim_end(origin)),
        },
        _ => None,
    }
}

fn text_of(s: &String) -> (res: Vec<char>)
    ensures
        res@ == s@,
{
    chars_of(s.as_str())
}

/// The new text of an edit: `replace`, else a text `value`.
pub fn tweak_text_value(m: &TweakMeta) -> (res: Option<String>)
    ensures
        opt_text(res) == new_text(*m),
{
    if let Some(v) = &m.replace {
        return Some(v.clone());
    }
    if let Some(TweakValue::Text(s)) = &m.value {
        return Some(s.clone());
    }
    None
}

/// The text that an edit looks for: `test`, else a text `value`.
pub fn tweak_text_needle(m: &TweakMeta) -> (res: Option<String>)
    ensures
        opt_text(res) == needle_text(*m),
{
    if let Some(v) = &m.test {
        return Some(v.clone());
    }
    if let Some(TweakValue::Text(s)) = &m.value {
        return Some(s.clone());
    }
    None
}

fn nonempty_needle_exec(m: &TweakMeta) -> (res: Option<Vec<char>>)
    ensures
        match res {
            Some(n) => nonempty_needle(*m) == Some(n@),
            None => nonempty_needle(*m) is None,
        },
{
    match tweak_text_needle(m) {
        Some(n) => {
            let cs = text_of(&n);
            if cs.len() > 0 {
                Some(cs)
            } else {
                None
            }
        },
        None => None,
    }
}

fn concat(a: &Vec<char>, b: &Vec<char>) -> (res: Vec<char>)
    ensures
        res@ == a@ + b@,
{
    let mut res = copy_chars(a);
    let mut i: usize = 0;
    while i < b.len()
        invariant
            i <= b@.len(),
            res@ == a@ + b@.take(i as int),
        decreases b@.len() - i,
    {
        res.push(b[i]);
        assert(b@.take(i + 1) == b@.take(i as int).push(b@[i as int]));
        i += 1;
    }
    assert(b@.take(b@.len() as int) == b@);
    res
}

/// Applies one text edit to a field's text (a missing text counts as
/// empty): the new text, or `None` when the edit leaves the field alone.
pub fn apply_text_tweak(kind: TweakKind, m: &TweakMeta, origin: &Option<String>) -> (res: Option<String>)
    ensures
        opt_text(res) == apply_text(kind, *m, match origin {
            Some(s) => s@,
            None => Seq::empty(),
        }),
{
    let o: Vec<char> = match origin {
        Some(s) => text_of(s),
        None => Vec::new(),
    };
    let out: Option<Vec<char>> = match kind {
        TweakKind::Replace | TweakKind::ReplaceRegex => {
            match (nonempty_needle_exec(m), tweak_text_value(m)) {
                (Some(n), Some(r)) => Some(replace_all_exec(&o, &n, &text_of(&r))),
                (_, v) => {
                    if kind == TweakKind::Replace {
                        match v {
                            Some(v) => Some(text_of(&v)),
                            None => None,
                        }
                    } else {
                        None
                    }
                },
            }
        },
        TweakKind::Update => {
            match nonempty_needle_exec(m) {
                Some(n) => {
                    if contains_exec(&o, &n) {
                        match tweak_text_value(m) {
                            Some(r) => Some(replace_all_exec(&o, &n, &text_of(&r))),
                            None => None,
                        }
                    } else {
                        None
                    }
                },
                None => match tweak_text_value(m) {
                    Some(v) => Some(text_of(&v)),
                    None => None,
                },
            }
        },
        TweakKind::Prepend => match tweak_text_value(m) {
            Some(v) => Some(concat(&text_of(&v), &o)),
            None => None,
        },
        TweakKind::Append => match tweak_text_value(m) {
            Some(v) => Some(concat(&o, &text_of(&v))),
            None => None,
        },
        TweakKind::RemoveLeft => match tweak_text_needle(m) {
            Some(n) => Some(strip_prefix_exec(&o, &text_of(&n))),
            None => None,
        },
        TweakKind::RemoveRight => match tweak_text_needle(m) {
            Some(n) => Some(strip_suffix_exec(&o, &text_of(&n))),
            None => None,
        },
        TweakKind::TrimLeft => match nonempty_needle_exec(m) {
            Some(n) => Some(trim_start_matches_exec(&o, &n)),
            None => Some(trim_start_exec(&o)),
        },
        TweakKind::TrimRight => match nonempty_needle_exec(m) {
            Some(n) => Some(trim_end_matches_exec(&o, &n)),
            None => Some(trim_end_exec(&o)),
        },
        _ => None,
    };
    match out {
        Some(cs) => Some(string_of(&cs)),
        None => None,
    }
}

/// A count clamped into the `i32` range.
pub open spec fn clamp_i32(c: i64) -> i32 {
    if c < i32::MIN {
        i32::MIN
    } else if c > i32::MAX {
        i32::MAX
    } else {
        c as i32
    }
}

/// The `(item id, count)` that an entry names: a bare number is an id with
/// count 1; an object takes its `id` key, or `itemId` when `id` is absent,
/// and its count (1 by default, clamped to `i32`); anything else names none.
pub open spec fn entry_pair(e: Option<ItemEntry>) -> Option<(i64, i32)> {
    match e {
        Some(ItemEntry::Number(Some(id))) => Some((id, 1i32)),
        Some(ItemEntry::Object { id, item_id, count }) => {
            let key = match id {
                Some(v) => v,
                None => match item_id {
                    Some(v) => v,
                    None => None,
                },
            };
            match key {
                Some(k) => Some((k, match count {
                    Some(c) => clamp_i32(c),
                    None => 1i32,
                })),
                None => None,
            }
        },
        _ => None,
    }
}

/// The pairs that the entries name, in order.
pub open spec fn parse_entries(list: Seq<Option<ItemEntry>>) -> Seq<(i64, i32)>
    decreases list.len(),
{
    if list.len() == 0 {
        Seq::empty()
    } else {
        let p = parse_entries(list.drop_last());
        match entry_pair(list.last()) {
            Some(x) => p.push(x),
            None => p,
        }
    }
}

pub(crate) fn clamp_i32_exec(c: i64) -> (res: i32)
    ensures
        res == clamp_i32(c),
{
    if c < -2147483648i64 {
        -2147483648i32
    } else if c > 2147483647i64 {
        2147483647i32
    } else {
        c as i32
    }
}

fn entry_pair_exec(e: &Option<ItemEntry>) -> (res: Option<(i64, i32)>)
    ensures
        res == entry_pair(*e),
{
    match e {
        Some(ItemEntry::Number(Some(id))) => Some((*id, 1i32)),
        Some(ItemEntry::Object { id, item_id, count }) => {
            let key = match id {
                Some(v) => *v,
                None => match item_id {
                    Some(v) => *v,
                    None => None,
                },
            };
            match key {
                Some(k) => {
                    let c = match count {
                        Some(c) => clamp_i32_exec(*c),
                        None => 1i32,
                    };
                    Some((k, c))
                },
                None => None,
            }
        },
        _ => None,
    }
}

/// The `(item id, count)` pairs that an item-list argument names, in order.
pub fn parse_item_entries(list: &Vec<Option<ItemEntry>>) -> (res: Vec<(i64, i32)>)
    ensures
        res@ == parse_entries(list@),
{
    let mut res: Vec<(i64, i32)> = Vec::new();
    let mut i: usize = 0;
    while i < list.len()
        invariant
            i <= list@.len(),
            res@ == parse_entries(list@.take(i as int)),
        decreases list@.len() - i,
    {
        assert(list@.take(i + 1).drop_last() == list@.take(i as int));
        if let Some(x) = entry_pair_exec(&list[i]) {
            res.push(x);
        }
        i += 1;
    }
    assert(list@.take(list@.len() as int) == list@);
    res
}

/// The item ids of the pairs, in order.
pub open spec fn entry_ids(entries: Seq<(i64, i32)>) -> Seq<i64> {
    entries.map_values(|e: (i64, i32)| e.0)
}

/// The count of the last pair with item `id`.
pub open spec fn last_count(entries: Seq<(i64, i32)>, id: i64) -> i32
    decreases entries.len(),
{
    if entries.len() == 0 {
        0
    } else if entries.last().0 == id {
        entries.last().1
    } else {
        last_count(entries.drop_last(), id)
    }
}

/// The pairs with one per item: each item where it first appears, with the
/// count it was given last.
pub open spec fn dedup_entries(entries: Seq<(i64, i32)>) -> Seq<(i64, i32)> {
    crate::linkage::dedup(entry_ids(entries)).map_values(|id: i64| (id, last_count(entries, id)))
}

proof fn lemma_last_count(entries: Seq<(i64, i32)>, id: i64)
    ensures
        forall|t: int|
            0 <= t < entries.len() && (#[trigger] entries[t]).0 == id && (forall|u: int|
                t < u < entries.len() ==> (#[trigger] entries[u]).0 != id) ==> last_count(entries, id) == entries[t].1,
    decreases entries.len(),
{
    if entries.len() > 0 {
        let p = entries.drop_last();
        lemma_last_count(p, id);
        assert forall|t: int|
            0 <= t < entries.len() && (#[trigger] entries[t]).0 == id && (forall|u: int|
                t < u < entries.len() ==> (#[trigger] entries[u]).0 != id) implies last_count(entries, id) == entries[t].1 by {
            if t < entries.len() - 1 {
                assert(entries.last() == entries[entries.len() - 1]);
                assert(p[t] == entries[t]);
                assert forall|u: int| t < u < p.len() implies (#[trigger] p[u]).0 != id by {
                    assert(p[u] == entries[u]);
                }
            }
        }
    }
}

/// Merging repeated pairs keeps one pair per item and loses none: the
/// items are distinct and are exactly the items of the pairs, and each
/// carries the count of the last pair for its item.
pub proof fn dedup_entries_keep_last_count(entries: Seq<(i64, i32)>)
    ensures
        forall|a: int, b: int|
            0 <= a < b < dedup_entries(entries).len() ==> (#[trigger] dedup_entries(entries)[a]).0 != (
            #[trigger] dedup_entries(entries)[b]).0,
        forall|x: i64| #[trigger] entry_ids(dedup_entries(entries)).contains(x) <==> entry_ids(entries).contains(x),
        forall|r: int, t: int|
            0 <= r < dedup_entries(entries).len() && 0 <= t < entries.len() && #[trigger] entries[t].0 == (
            #[trigger] dedup_entries(entries)[r]).0 && (forall|u: int| t < u < entries.len() ==> (#[trigger] entries[u]).0
                != entries[t].0) ==> dedup_entries(entries)[r].1 == entries[t].1,
{
    let ids = entry_ids(entries);
    let d = crate::linkage::dedup(ids);
    crate::linkage::dedup_keeps_each_element_once(ids);
    let de = dedup_entries(entries);
    assert forall|r: int| 0 <= r < de.len() implies (#[trigger] de[r]).0 == d[r] && de[r].1 == last_count(entries, d[r]) by {}
    assert forall|a: int, b: int| 0 <= a < b < de.len() implies (#[trigger] de[a]).0 != (#[trigger] de[b]).0 by {
        assert(de[a].0 == d[a] && de[b].0 == d[b]);
    }
    assert(entry_ids(de) =~= d);

    assert forall|r: int, t: int|
        0 <= r < de.len() && 0 <= t < entries.len() && #[trigger] entries[t].0 == (#[trigger] de[r]).0 && (forall|u: int|
            t < u < entries.len() ==> (#[trigger] entries[u]).0 != entries[t].0) implies de[r].1 == entries[t].1 by {
        lemma_last_count(entries, entries[t].0);
    }
}

/// One pair per item: each item where it first appears, with the count it
/// was given last.
pub fn dedup_item_entries(entries: &Vec<(i64, i32)>) -> (res: Vec<(i64, i32)>)
    ensures
        res@ == dedup_entries(entries@),
{
    let mut order: Vec<i64> = Vec::new();
    let mut counts: Vec<i32> = Vec::new();
    let mut t: usize = 0;
    while t < entries.len()
        invariant
            t <= entries@.len(),
            order@.len() == counts@.len(),
            order@ == crate::linkage::dedup(entry_ids(entries@.take(t as int))),
            forall|k: int| 0 <= k < order@.len() ==> #[trigger] counts@[k] == last_count(entries@.take(t as int), order@[k]),
        decreases entries@.len() - t,
    {
        let (id, c) = entries[t];
        let ghost pre = entries@.take(t as int);
        let ghost nxt = entries@.take(t + 1);
        proof {
            assert(nxt.drop_last() == pre);
            assert(entry_ids(nxt) == entry_ids(pre).push(id));
            crate::linkage::lemma_dedup_push(entry_ids(pre), id);
        }
        let mut k: usize = 0;
        let mut found = false;
        while k < order.len()
            invariant
                k <= order@.len(),
                order@.len() == counts@.len(),
                found ==> exists|j: int| 0 <= j < order@.len() && order@[j] == id,
                !found ==> forall|j: int| 0 <= j < k ==> order@[j] != id,
                forall|j: int| 0 <= j < order@.len() && order@[j] != id ==> #[trigger] counts@[j] == last_count(pre, order@[j]),
                forall|j: int| 0 <= j < order@.len() && order@[j] == id ==> #[trigger] counts@[j] == c || j >= k,
            decreases order@.len() - k,
        {
            if order[k] == id {
                counts.set(k, c);
                found = true;
            }
            k += 1;
        }
        if !found {
            order.push(id);
            counts.push(c);
        }
        proof {
            assert forall|j: int| 0 <= j < order@.len() implies #[trigger] counts@[j] == last_count(nxt, order@[j]) by {
                if order@[j] == id {
                } else {
                }
            }
        }
        t += 1;
    }
    assert(entries@.take(entries@.len() as int) == entries@);
    let mut res: Vec<(i64, i32)> = Vec::new();
    let mut k: usize = 0;
    while k < order.len()
        invariant
            k <= order@.len(),
            order@.len() == counts@.len(),
            order@ == crate::linkage::dedup(entry_ids(entries@)),
            forall|j: int| 0 <= j < order@.len() ==> #[trigger] counts@[j] == last_count(entries@, order@[j]),
            res@ == order@.take(k as int).map_values(|id: i64| (id, last_count(entries@, id))),
        decreases order@.len() - k,
    {
        res.push((order[k], counts[k]));
        assert(order@.take(k + 1) == order@.take(k as int).push(order@[k as int]));
        k += 1;
    }
    assert(order@.take(order@.len() as int) == order@);
    res
}

/// A write on a marker's item links: soft-delete an existing link (by its
/// index among the marker's links), insert a link, or set an existing
/// link's count.
#[derive(Clone, Copy, PartialEq, Eq, Structural, Debug)]
pub enum ItemLinkOp {
    Delete(usize),
    Insert(i64, i32),
    SetCount(usize, i32),
}

/// The last of the first `n` existing links (given by item id) with item
/// `id`: the one that the lookup by item finds.
pub open spec fn link_for(existing: Seq<i64>, id: i64, n: int) -> Option<int>
    decreases n,
{
    if n <= 0 {
        None
    } else if existing[n - 1] == id {
        Some(n - 1)
    } else {
        link_for(existing, id, n - 1)
    }
}

/// The lookup by item finds existing link `i` (no later link has its item).
pub open spec fn found_by_item(existing: Seq<i64>, i: int) -> bool {
    link_for(existing, existing[i], existing.len() as int) == Some(i)
}

/// Deletes of the links among the first `n` that the lookup finds and whose
/// item `keep` rejects.
pub open spec fn delete_found(existing: Seq<i64>, keep: Seq<i64>, drop_all: bool, n: int) -> Seq<ItemLinkOp>
    decreases n,
{
    if n <= 0 {
        Seq::empty()
    } else {
        let p = delete_found(existing, keep, drop_all, n - 1);
        if found_by_item(existing, n - 1) && (drop_all || !keep.contains(existing[n - 1])) {
            p.push(ItemLinkOp::Delete((n - 1) as usize))
        } else {
            p
        }
    }
}

/// Inserts of all the pairs, in order.
pub open spec fn insert_all(entries: Seq<(i64, i32)>) -> Seq<ItemLinkOp> {
    entries.map_values(|e: (i64, i32)| ItemLinkOp::Insert(e.0, e.1))
}

/// The writes for the first `t` pairs of an edit that goes pair by pair.
pub open spec fn per_entry_ops(kind: TweakKind, entries: Seq<(i64, i32)>, existing: Seq<i64>, t: int) -> Seq<ItemLinkOp>
    decreases t,
{
    if t <= 0 {
        Seq::empty()
    } else {
        let p = per_entry_ops(kind, entries, existing, t - 1);
        let e = entries[t - 1];
        let found = link_for(existing, e.0, existing.len() as int);
        match kind {
            TweakKind::RemoveLeft | TweakKind::RemoveRight => match found {
                Some(i) => if entry_ids(entries.take(t - 1)).contains(e.0) {
                    p
                } else {
                    p.push(ItemLinkOp::Delete(i as usize))
                },
                None => p,
            },
            TweakKind::Append | TweakKind::Prepend => match found {
                Some(_) => p,
                None => p.push(ItemLinkOp::Insert(e.0, e.1)),
            },
            TweakKind::InsertIfAbsent => match found {
                Some(_) => p,
                None => p.push(ItemLinkOp::Insert(e.0, e.1)),
            },
            TweakKind::InsertOrUpdate | TweakKind::Merge | TweakKind::Update => match found {
                Some(i) => p.push(ItemLinkOp::SetCount(i as usize, e.1)),
                None => p.push(ItemLinkOp::Insert(e.0, e.1)),
            },
            _ => p,
        }
    }
}

/// The writes of an item-list edit on a marker whose links are `existing`
/// (by item id): nothing without pairs; `Replace` deletes every link the
/// lookup finds and inserts every pair; `RemoveLeft`/`RemoveRight` delete
/// the link of each listed item once; `Append`/`Prepend` insert the pairs
/// whose item has no link; `TrimLeft`/`TrimRight` delete the links whose
/// item is not listed; `InsertIfAbsent` inserts missing items, and
/// `InsertOrUpdate`/`Merge`/`Update` also set the count of present ones.
/// The lookup by item is not refreshed by the writes, so a pair repeated
/// for a missing item is inserted twice.
pub open spec fn item_list_ops(kind: TweakKind, entries: Seq<(i64, i32)>, existing: Seq<i64>) -> Seq<ItemLinkOp> {
    if entries.len() == 0 {
        Seq::empty()
    } else {
        match kind {
            TweakKind::Replace => delete_found(existing, entry_ids(entries), true, existing.len() as int) + insert_all(entries),
            TweakKind::TrimLeft | TweakKind::TrimRight => delete_found(existing, entry_ids(entries), false, existing.len() as int),
            _ => per_entry_ops(kind, entries, existing, entries.len() as int),
        }
    }
}

proof fn lemma_push_contains<T>(s: Seq<T>, x: T, y: T)
    ensures
        s.push(x).contains(y) == (s.contains(y) || x == y),
{
    if s.contains(y) {
        let i = choose|i: int| 0 <= i < s.len() && s[i] == y;
        assert(s.push(x)[i] == y);
    }
    if x == y {
        assert(s.push(x)[s.len() as int] == y);
    }
    if s.push(x).contains(y) {
        let i = choose|i: int| 0 <= i < s.push(x).len() && s.push(x)[i] == y;
        if i < s.len() {
            assert(s[i] == y);
        }
    }
}

fn link_for_exec(existing: &Vec<i64>, id: i64) -> (res: Option<usize>)
    ensures
        match res {
            Some(i) => link_for(existing@, id, existing@.len() as int) == Some(i as int) && i < existing@.len(),
            None => link_for(existing@, id, existing@.len() as int) is None,
        },
{
    let mut n: usize = existing.len();
    while n > 0
        invariant
            n <= existing@.len(),
            link_for(existing@, id, existing@.len() as int) == link_for(existing@, id, n as int),
        decreases n,
    {
        if existing[n - 1] == id {
            return Some(n - 1);
        }
        n -= 1;
    }
    None
}

fn ids_of(entries: &Vec<(i64, i32)>) -> (res: Vec<i64>)
    ensures
        res@ == entry_ids(entries@),
{
    let mut res: Vec<i64> = Vec::new();
    let mut t: usize = 0;
    while t < entries.len()
        invariant
            t <= entries@.len(),
            res@ == entry_ids(entries@.take(t as int)),
        decreases entries@.len() - t,
    {
        res.push(entries[t].0);
        assert(entry_ids(entries@.take(t + 1)) == entry_ids(entries@.take(t as int)).push(entries@[t as int].0));
        t += 1;
    }
    assert(entries@.take(entries@.len() as int) == entries@);
    res
}

fn delete_found_exec(existing: &Vec<i64>, keep: &Vec<i64>, drop_all: bool, ops: &mut Vec<ItemLinkOp>)
    ensures
        final(ops)@ == old(ops)@ + delete_found(existing@, keep@, drop_all, existing@.len() as int),
{
    let ghost start = ops@;
    let mut n: usize = 0;
    while n < existing.len()
        invariant
            n <= existing@.len(),
            ops@ == start + delete_found(existing@, keep@, drop_all, n as int),
        decreases existing@.len() - n,
    {
        let id = existing[n];
        let hit = match link_for_exec(existing, id) {
            Some(i) => i == n,
            None => false,
        };
        if hit && (drop_all || !crate::ids::contains_i64(keep, id)) {
            ops.push(ItemLinkOp::Delete(n));
        }
        n += 1;
    }
}

proof fn lemma_link_for(existing: Seq<i64>, id: i64, n: int)
    requires
        0 <= n <= existing.len(),
    ensures
        link_for(existing, id, n) is None <==> forall|i: int| 0 <= i < n ==> existing[i] != id,
        link_for(existing, id, n) is Some ==> {
            let i = link_for(existing, id, n)->0;
            &&& 0 <= i < n
            &&& existing[i] == id
            &&& forall|j: int| i < j < n ==> existing[j] != id
        },
    decreases n,
{
    if n > 0 {
        lemma_link_for(existing, id, n - 1);
    }
}

proof fn lemma_upsert_ops(kind: TweakKind, entries: Seq<(i64, i32)>, existing: Seq<i64>, t: int)
    requires
        kind == TweakKind::InsertOrUpdate || kind == TweakKind::Merge || kind == TweakKind::Update,
        0 <= t <= entries.len(),
    ensures
        per_entry_ops(kind, entries, existing, t).len() == t,
        forall|s: int|
            0 <= s < t ==> #[trigger] per_entry_ops(kind, entries, existing, t)[s] == match link_for(
                existing,
                entries[s].0,
                existing.len() as int,
            ) {
                Some(i) => ItemLinkOp::SetCount(i as usize, entries[s].1),
                None => ItemLinkOp::Insert(entries[s].0, entries[s].1),
            },
    decreases t,
{
    if t > 0 {
        lemma_upsert_ops(kind, entries, existing, t - 1);
        let p = per_entry_ops(kind, entries, existing, t - 1);
        let q = per_entry_ops(kind, entries, existing, t);
        assert forall|s: int| 0 <= s < t - 1 implies q[s] == p[s] by {}
    }
}

/// An edit that inserts or updates (`InsertOrUpdate`, `Merge`, `Update`)
/// writes one link per pair, in the pairs' order: a pair whose item has no
/// link is inserted with its count, and a pair whose item has a link sets
/// the count of the last such link. Without pairs, no edit writes anything.
pub proof fn upsert_writes_one_link_per_pair(kind: TweakKind, entries: Seq<(i64, i32)>, existing: Seq<i64>)
    ensures
        entries.len() == 0 ==> item_list_ops(kind, entries, existing).len() == 0,
        kind == TweakKind::InsertOrUpdate || kind == TweakKind::Merge || kind == TweakKind::Update ==> {
            &&& item_list_ops(kind, entries, existing).len() == entries.len()
            &&& forall|t: int|
                0 <= t < entries.len() && (forall|i: int| 0 <= i < existing.len() ==> existing[i] != entries[t].0)
                    ==> #[trigger] item_list_ops(kind, entries, existing)[t] == ItemLinkOp::Insert(entries[t].0, entries[t].1)
            &&& forall|t: int, i: int|
                #![trigger item_list_ops(kind, entries, existing)[t], existing[i]]
                0 <= t < entries.len() && 0 <= i < existing.len() && existing[i] == entries[t].0 && (forall|j: int|
                    i < j < existing.len() ==> existing[j] != entries[t].0) ==> item_list_ops(kind, entries, existing)[t]
                    == ItemLinkOp::SetCount(i as usize, entries[t].1)
        },
{
    if kind == TweakKind::InsertOrUpdate || kind == TweakKind::Merge || kind == TweakKind::Update {
        lemma_upsert_ops(kind, entries, existing, entries.len() as int);
        assert forall|t: int, i: int|
            #![trigger item_list_ops(kind, entries, existing)[t], existing[i]]
            0 <= t < entries.len() && 0 <= i < existing.len() && existing[i] == entries[t].0 && (forall|j: int|
                i < j < existing.len() ==> existing[j] != entries[t].0) implies item_list_ops(kind, entries, existing)[t]
                == ItemLinkOp::SetCount(i as usize, entries[t].1) by {
            lemma_link_for(existing, entries[t].0, existing.len() as int);
        }
        assert forall|t: int|
            0 <= t < entries.len() && (forall|i: int| 0 <= i < existing.len() ==> existing[i] != entries[t].0)
                implies #[trigger] item_list_ops(kind, entries, existing)[t] == ItemLinkOp::Insert(entries[t].0, entries[t].1) by {
            lemma_link_for(existing, entries[t].0, existing.len() as int);
        }
    }
}

proof fn lemma_last_link(existing: Seq<i64>, i: int)
    requires
        0 <= i < existing.len(),
    ensures
        found_by_item(existing, i) <==> forall|j: int| i < j < existing.len() ==> existing[j] != existing[i],
{
    lemma_link_for(existing, existing[i], existing.len() as int);
}

proof fn lemma_delete_found(existing: Seq<i64>, keep: Seq<i64>, drop_all: bool, n: int)
    requires
        0 <= n <= existing.len() <= usize::MAX,
    ensures
        forall|r: int|
            0 <= r < delete_found(existing, keep, drop_all, n).len() ==> {
                &&& #[trigger] delete_found(existing, keep, drop_all, n)[r] is Delete
                &&& 0 <= delete_found(existing, keep, drop_all, n)[r]->Delete_0 < n
                &&& found_by_item(existing, delete_found(existing, keep, drop_all, n)[r]->Delete_0 as int)
                &&& drop_all || !keep.contains(existing[delete_found(existing, keep, drop_all, n)[r]->Delete_0 as int])
            },
        forall|r: int, q: int|
            0 <= r < q < delete_found(existing, keep, drop_all, n).len() ==> (#[trigger] delete_found(
                existing,
                keep,
                drop_all,
                n,
            )[r])->Delete_0 < (#[trigger] delete_found(existing, keep, drop_all, n)[q])->Delete_0,
        forall|i: int|
            0 <= i < n && #[trigger] found_by_item(existing, i) && (drop_all || !keep.contains(existing[i]))
                ==> delete_found(existing, keep, drop_all, n).contains(ItemLinkOp::Delete(i as usize)),
    decreases n,
{
    if n > 0 {
        lemma_delete_found(existing, keep, drop_all, n - 1);
        let p = delete_found(existing, keep, drop_all, n - 1);
        let d = delete_found(existing, keep, drop_all, n);
        assert forall|r: int| 0 <= r < p.len() implies d[r] == p[r] by {}
        assert forall|i: int|
            0 <= i < n && #[trigger] found_by_item(existing, i) && (drop_all || !keep.contains(existing[i])) implies d.contains(
            ItemLinkOp::Delete(i as usize),
        ) by {
            if i < n - 1 {
                let r = choose|r: int| 0 <= r < p.len() && p[r] == ItemLinkOp::Delete(i as usize);
                assert(d[r] == p[r]);
            } else {
                assert(d[d.len() - 1] == ItemLinkOp::Delete(i as usize));
            }
        }
    }
}

proof fn lemma_entry_ids_contains(entries: Seq<(i64, i32)>, id: i64)
    ensures
        entry_ids(entries).contains(id) <==> exists|t: int| 0 <= t < entries.len() && #[trigger] entries[t].0 == id,
{
    if entry_ids(entries).contains(id) {
        let t = choose|t: int| 0 <= t < entry_ids(entries).len() && entry_ids(entries)[t] == id;
        assert(entries[t].0 == id);
    }
    if exists|t: int| 0 <= t < entries.len() && #[trigger] entries[t].0 == id {
        let t = choose|t: int| 0 <= t < entries.len() && #[trigger] entries[t].0 == id;
        assert(entry_ids(entries)[t] == id);
    }
}

/// A trimming edit (`TrimLeft`, `TrimRight`) with pairs deletes, in link
/// order, exactly the links whose item no pair lists: each such item's
/// last link (the one the lookup by item finds), once.
pub proof fn trim_edits_drop_unlisted_links(kind: TweakKind, entries: Seq<(i64, i32)>, existing: Seq<i64>)
    requires
        kind == TweakKind::TrimLeft || kind == TweakKind::TrimRight,
        entries.len() > 0,
        existing.len() <= usize::MAX,
    ensures
        forall|r: int|
            0 <= r < item_list_ops(kind, entries, existing).len() ==> {
                &&& #[trigger] item_list_ops(kind, entries, existing)[r] is Delete
                &&& 0 <= item_list_ops(kind, entries, existing)[r]->Delete_0 < existing.len()
                &&& forall|t: int|
                    0 <= t < entries.len() ==> entries[t].0 != existing[item_list_ops(kind, entries, existing)[r]->Delete_0 as int]
                &&& forall|j: int|
                    item_list_ops(kind, entries, existing)[r]->Delete_0 < j < existing.len() ==> #[trigger] existing[j]
                        != existing[item_list_ops(kind, entries, existing)[r]->Delete_0 as int]
            },
        forall|r: int, q: int|
            0 <= r < q < item_list_ops(kind, entries, existing).len() ==> (#[trigger] item_list_ops(kind, entries, existing)[r])->Delete_0
                < (#[trigger] item_list_ops(kind, entries, existing)[q])->Delete_0,
        forall|i: int|
            0 <= i < existing.len() && (forall|t: int| 0 <= t < entries.len() ==> entries[t].0 != #[trigger] existing[i])
                && (forall|j: int| i < j < existing.len() ==> existing[j] != existing[i]) ==> item_list_ops(
                kind,
                entries,
                existing,
            ).contains(ItemLinkOp::Delete(i as usize)),
{
    let ids = entry_ids(entries);
    let n = existing.len() as int;
    lemma_delete_found(existing, ids, false, n);
    let ops = item_list_ops(kind, entries, existing);
    assert forall|r: int| 0 <= r < ops.len() implies {
        &&& #[trigger] ops[r] is Delete
        &&& 0 <= ops[r]->Delete_0 < existing.len()
        &&& forall|t: int| 0 <= t < entries.len() ==> entries[t].0 != existing[ops[r]->Delete_0 as int]
        &&& forall|j: int| ops[r]->Delete_0 < j < existing.len() ==> #[trigger] existing[j] != existing[ops[r]->Delete_0 as int]
    } by {
        let i = ops[r]->Delete_0 as int;
        lemma_last_link(existing, i);
        lemma_entry_ids_contains(entries, existing[i]);
    }
    assert forall|i: int|
        0 <= i < existing.len() && (forall|t: int| 0 <= t < entries.len() ==> entries[t].0 != #[trigger] existing[i])
            && (forall|j: int| i < j < existing.len() ==> existing[j] != existing[i]) implies ops.contains(
        ItemLinkOp::Delete(i as usize),
    ) by {
        lemma_last_link(existing, i);
        lemma_entry_ids_contains(entries, existing[i]);
        assert(found_by_item(existing, i));
    }
}

/// A replacing edit with pairs first deletes every link the lookup by item
/// finds (each item's last link, once, in link order), then inserts every
/// pair, in order, with its count.
pub proof fn replace_drops_links_then_inserts_all(entries: Seq<(i64, i32)>, existing: Seq<i64>)
    requires
        entries.len() > 0,
        existing.len() <= usize::MAX,
    ensures
        item_list_ops(TweakKind::Replace, entries, existing).len() >= entries.len(),
        forall|t: int|
            0 <= t < entries.len() ==> #[trigger] item_list_ops(TweakKind::Replace, entries, existing)[item_list_ops(
                TweakKind::Replace,
                entries,
                existing,
            ).len() - entries.len() + t] == ItemLinkOp::Insert(entries[t].0, entries[t].1),
        forall|r: int|
            0 <= r < item_list_ops(TweakKind::Replace, entries, existing).len() - entries.len() ==> {
                &&& #[trigger] item_list_ops(TweakKind::Replace, entries, existing)[r] is Delete
                &&& 0 <= item_list_ops(TweakKind::Replace, entries, existing)[r]->Delete_0 < existing.len()
                &&& forall|j: int|
                    item_list_ops(TweakKind::Replace, entries, existing)[r]->Delete_0 < j < existing.len() ==> #[trigger] existing[j]
                        != existing[item_list_ops(TweakKind::Replace, entries, existing)[r]->Delete_0 as int]
            },
        forall|r: int, q: int|
            0 <= r < q < item_list_ops(TweakKind::Replace, entries, existing).len() - entries.len() ==> (
            #[trigger] item_list_ops(TweakKind::Replace, entries, existing)[r])->Delete_0 < (#[trigger] item_list_ops(
                TweakKind::Replace,
                entries,
                existing,
            )[q])->Delete_0,
        forall|i: int|
            #![trigger existing[i]]
            0 <= i < existing.len() && (forall|j: int| i < j < existing.len() ==> #[trigger] existing[j] != existing[i])
                ==> item_list_ops(TweakKind::Replace, entries, existing).take(
                item_list_ops(TweakKind::Replace, entries, existing).len() - entries.len(),
            ).contains(ItemLinkOp::Delete(i as usize)),
{
    let ids = entry_ids(entries);
    let n = existing.len() as int;
    lemma_delete_found(existing, ids, true, n);
    let del = delete_found(existing, ids, true, n);
    let ins = insert_all(entries);
    let ops = item_list_ops(TweakKind::Replace, entries, existing);
    assert(ops == del + ins);
    assert(ops.take(ops.len() - entries.len()) =~= del);
    assert forall|r: int| 0 <= r < ops.len() - entries.len() implies {
        &&& #[trigger] ops[r] is Delete
        &&& 0 <= ops[r]->Delete_0 < existing.len()
        &&& forall|j: int| ops[r]->Delete_0 < j < existing.len() ==> #[trigger] existing[j] != existing[ops[r]->Delete_0 as int]
    } by {
        assert(ops[r] == del[r]);
        lemma_last_link(existing, ops[r]->Delete_0 as int);
    }
    assert forall|r: int, q: int| 0 <= r < q < ops.len() - entries.len() implies (#[trigger] ops[r])->Delete_0 < (
    #[trigger] ops[q])->Delete_0 by {
        assert(ops[r] == del[r] && ops[q] == del[q]);
    }
    assert forall|i: int|
        #![trigger existing[i]]
        0 <= i < existing.len() && (forall|j: int| i < j < existing.len() ==> #[trigger] existing[j] != existing[i])
            implies del.contains(ItemLinkOp::Delete(i as usize)) by {
        lemma_last_link(existing, i);
    }
}

proof fn lemma_remove_ops(kind: TweakKind, entries: Seq<(i64, i32)>, existing: Seq<i64>, t: int)
    requires
        kind == TweakKind::RemoveLeft || kind == TweakKind::RemoveRight,
        0 <= t <= entries.len(),
        existing.len() <= usize::MAX,
    ensures
        forall|r: int|
            0 <= r < per_entry_ops(kind, entries, existing, t).len() ==> {
                &&& #[trigger] per_entry_ops(kind, entries, existing, t)[r] is Delete
                &&& 0 <= per_entry_ops(kind, entries, existing, t)[r]->Delete_0 < existing.len()
                &&& found_by_item(existing, per_entry_ops(kind, entries, existing, t)[r]->Delete_0 as int)
                &&& entry_ids(entries.take(t)).contains(
                    existing[per_entry_ops(kind, entries, existing, t)[r]->Delete_0 as int],
                )
            },
        forall|r: int, q: int|
            0 <= r < q < per_entry_ops(kind, entries, existing, t).len() ==> #[trigger] per_entry_ops(
                kind,
                entries,
                existing,
                t,
            )[r] != #[trigger] per_entry_ops(kind, entries, existing, t)[q],
        forall|s: int|
            0 <= s < t && #[trigger] link_for(existing, entries[s].0, existing.len() as int) is Some ==> per_entry_ops(
                kind,
                entries,
                existing,
                t,
            ).contains(ItemLinkOp::Delete(link_for(existing, entries[s].0, existing.len() as int)->0 as usize)),
    decreases t,
{
    if t > 0 {
        lemma_remove_ops(kind, entries, existing, t - 1);
        let p = per_entry_ops(kind, entries, existing, t - 1);
        let o = per_entry_ops(kind, entries, existing, t);
        let e = entries[t - 1];
        let before = entry_ids(entries.take(t - 1));
        let now = entry_ids(entries.take(t));
        assert(now =~= before.push(e.0));
        assert forall|x: i64| before.contains(x) implies now.contains(x) by {
            let k = choose|k: int| 0 <= k < before.len() && before[k] == x;
            assert(now[k] == x);
        }
        assert(now[t - 1] == e.0);
        lemma_link_for(existing, e.0, existing.len() as int);
        let found = link_for(existing, e.0, existing.len() as int);
        assert forall|r: int| 0 <= r < p.len() implies o[r] == p[r] by {}
        if found is Some && !before.contains(e.0) {
            let i = found->0;
            assert(o == p.push(ItemLinkOp::Delete(i as usize)));
            assert(found_by_item(existing, i));
            assert forall|r: int| 0 <= r < p.len() implies p[r] != ItemLinkOp::Delete(i as usize) by {
                if p[r] == ItemLinkOp::Delete(i as usize) {
                    assert(before.contains(existing[i]));
                }
            }
            assert(o[o.len() - 1] == ItemLinkOp::Delete(i as usize));
        } else {
            assert(o == p);
        }
        assert forall|s: int|
            0 <= s < t && #[trigger] link_for(existing, entries[s].0, existing.len() as int) is Some implies o.contains(
            ItemLinkOp::Delete(link_for(existing, entries[s].0, existing.len() as int)->0 as usize),
        ) by {
            let d = ItemLinkOp::Delete(link_for(existing, entries[s].0, existing.len() as int)->0 as usize);
            if s < t - 1 {
                let r = choose|r: int| 0 <= r < p.len() && p[r] == d;
                assert(o[r] == d);
            } else if before.contains(e.0) {
                let k = choose|k: int| 0 <= k < before.len() && before[k] == e.0;
                assert(entries[k].0 == e.0);
                assert(p.contains(ItemLinkOp::Delete(link_for(existing, entries[k].0, existing.len() as int)->0 as usize)));
                let r = choose|r: int| 0 <= r < p.len() && p[r] == d;
                assert(o[r] == d);
            }
        }
    }
}

/// A removing edit (`RemoveLeft`, `RemoveRight`) deletes, for each listed
/// item that has a link, its last link (the one the lookup by item finds),
/// and nothing else; no link is deleted twice, though an item is listed
/// twice.
pub proof fn remove_edits_drop_listed_links(kind: TweakKind, entries: Seq<(i64, i32)>, existing: Seq<i64>)
    requires
        kind == TweakKind::RemoveLeft || kind == TweakKind::RemoveRight,
        existing.len() <= usize::MAX,
    ensures
        forall|r: int|
            0 <= r < item_list_ops(kind, entries, existing).len() ==> {
                &&& #[trigger] item_list_ops(kind, entries, existing)[r] is Delete
                &&& 0 <= item_list_ops(kind, entries, existing)[r]->Delete_0 < existing.len()
                &&& exists|t: int|
                    0 <= t < entries.len() && #[trigger] entries[t].0 == existing[item_list_ops(kind, entries, existing)[r]->Delete_0 as int]
                &&& forall|j: int|
                    item_list_ops(kind, entries, existing)[r]->Delete_0 < j < existing.len() ==> #[trigger] existing[j]
                        != existing[item_list_ops(kind, entries, existing)[r]->Delete_0 as int]
            },
        forall|r: int, q: int|
            0 <= r < q < item_list_ops(kind, entries, existing).len() ==> #[trigger] item_list_ops(kind, entries, existing)[r]
                != #[trigger] item_list_ops(kind, entries, existing)[q],
        forall|t: int, i: int|
            #![trigger entries[t], existing[i]]
            0 <= t < entries.len() && 0 <= i < existing.len() && existing[i] == entries[t].0 && (forall|j: int|
                i < j < existing.len() ==> #[trigger] existing[j] != existing[i]) ==> item_list_ops(kind, entries, existing).contains(
                ItemLinkOp::Delete(i as usize),
            ),
{
    let n = entries.len() as int;
    lemma_remove_ops(kind, entries, existing, n);
    assert(entries.take(n) =~= entries);
    let ops = item_list_ops(kind, entries, existing);
    if n == 0 {
        assert(ops.len() == 0);
    } else {
        assert forall|r: int| 0 <= r < ops.len() implies {
            &&& #[trigger] ops[r] is Delete
            &&& 0 <= ops[r]->Delete_0 < existing.len()
            &&& exists|t: int| 0 <= t < entries.len() && #[trigger] entries[t].0 == existing[ops[r]->Delete_0 as int]
            &&& forall|j: int| ops[r]->Delete_0 < j < existing.len() ==> #[trigger] existing[j] != existing[ops[r]->Delete_0 as int]
        } by {
            let i = ops[r]->Delete_0 as int;
            lemma_last_link(existing, i);
            lemma_entry_ids_contains(entries, existing[i]);
        }
        assert forall|t: int, i: int|
            #![trigger entries[t], existing[i]]
            0 <= t < entries.len() && 0 <= i < existing.len() && existing[i] == entries[t].0 && (forall|j: int|
                i < j < existing.len() ==> #[trigger] existing[j] != existing[i]) implies ops.contains(
            ItemLinkOp::Delete(i as usize),
        ) by {
            lemma_link_for(existing, entries[t].0, existing.len() as int);
            let k = link_for(existing, entries[t].0, existing.len() as int);
            assert(k == Some(i)) by {
                if k is None {
                    assert(existing[i] == entries[t].0);
                } else if k->0 < i {
                    assert(existing[i] == entries[t].0);
                } else if k->0 > i {
                    assert(existing[k->0] == existing[i]);
                }
            }
        }
    }
}

proof fn lemma_regex_ops(entries: Seq<(i64, i32)>, existing: Seq<i64>, t: int)
    requires
        0 <= t <= entries.len(),
    ensures
        per_entry_ops(TweakKind::ReplaceRegex, entries, existing, t).len() == 0,
    decreases t,
{
    if t > 0 {
        lemma_regex_ops(entries, existing, t - 1);
    }
}

/// A pattern edit (`ReplaceRegex`) means nothing for an item list: it
/// writes no link.
pub proof fn pattern_edit_writes_no_links(entries: Seq<(i64, i32)>, existing: Seq<i64>)
    ensures
        item_list_ops(TweakKind::ReplaceRegex, entries, existing).len() == 0,
{
    lemma_regex_ops(entries, existing, entries.len() as int);
}

/// The pairs whose item has no link, in order.
pub open spec fn missing_pairs(entries: Seq<(i64, i32)>, existing: Seq<i64>) -> Seq<(i64, i32)> {
    entries.filter(|e: (i64, i32)| !existing.contains(e.0))
}

proof fn lemma_insert_missing_ops(kind: TweakKind, entries: Seq<(i64, i32)>, existing: Seq<i64>, t: int)
    requires
        kind == TweakKind::Append || kind == TweakKind::Prepend || kind == TweakKind::InsertIfAbsent,
        0 <= t <= entries.len(),
    ensures
        per_entry_ops(kind, entries, existing, t) == missing_pairs(entries.take(t), existing).map_values(
            |e: (i64, i32)| ItemLinkOp::Insert(e.0, e.1),
        ),
    decreases t,
{
    let f = |e: (i64, i32)| ItemLinkOp::Insert(e.0, e.1);
    let pred = |e: (i64, i32)| !existing.contains(e.0);
    if t == 0 {
        assert(entries.take(0) =~= Seq::<(i64, i32)>::empty());
        reveal(Seq::filter);
        assert(missing_pairs(entries.take(0), existing).map_values(f) =~= Seq::<ItemLinkOp>::empty());
    } else {
        lemma_insert_missing_ops(kind, entries, existing, t - 1);
        let e = entries[t - 1];
        assert(entries.take(t) =~= entries.take(t - 1).push(e));
        entries.take(t - 1).lemma_filter_push(e, pred);
        lemma_link_for(existing, e.0, existing.len() as int);
        let m = missing_pairs(entries.take(t - 1), existing);
        if pred(e) {
            assert(m.push(e).map_values(f) =~= m.map_values(f).push(f(e)));
        } else {
            let i = choose|i: int| 0 <= i < existing.len() && existing[i] == e.0;
        }
    }
}

/// An edit that only adds links (`Append`, `Prepend`, `InsertIfAbsent`)
/// inserts, in the pairs' order, exactly the pairs whose item has no link,
/// each with its count; it changes no existing link.
pub proof fn insert_edits_add_only_missing_items(kind: TweakKind, entries: Seq<(i64, i32)>, existing: Seq<i64>)
    requires
        kind == TweakKind::Append || kind == TweakKind::Prepend || kind == TweakKind::InsertIfAbsent,
    ensures
        item_list_ops(kind, entries, existing) == entries.filter(|e: (i64, i32)| !existing.contains(e.0)).map_values(
            |e: (i64, i32)| ItemLinkOp::Insert(e.0, e.1),
        ),
{
    lemma_insert_missing_ops(kind, entries, existing, entries.len() as int);
    assert(entries.take(entries.len() as int) =~= entries);
    if entries.len() == 0 {
        reveal(Seq::filter);
        assert(item_list_ops(kind, entries, existing) =~= entries.filter(|e: (i64, i32)| !existing.contains(e.0)).map_values(
            |e: (i64, i32)| ItemLinkOp::Insert(e.0, e.1),
        ));
    }
}

/// The writes of an item-list edit (`item_list_ops`), given the marker's
/// links by item id.
pub fn plan_item_list(kind: TweakKind, entries: &Vec<(i64, i32)>, existing: &Vec<i64>) -> (res: Vec<ItemLinkOp>)
    ensures
        res@ == item_list_ops(kind, entries@, existing@),
{
    let mut ops: Vec<ItemLinkOp> = Vec::new();
    if entries.len() == 0 {
        return ops;
    }
    let ids = ids_of(entries);
    match kind {
        TweakKind::Replace => {
            delete_found_exec(existing, &ids, true, &mut ops);
            let ghost before = ops@;
            let mut t: usize = 0;
            while t < entries.len()
                invariant
                    t <= entries@.len(),
                    ops@ == before + insert_all(entries@.take(t as int)),
                decreases entries@.len() - t,
            {
                let (id, c) = entries[t];
                ops.push(ItemLinkOp::Insert(id, c));
                assert(insert_all(entries@.take(t + 1)) == insert_all(entries@.take(t as int)).push(ItemLinkOp::Insert(id, c)));
                t += 1;
            }
            assert(entries@.take(entries@.len() as int) == entries@);
        },
        TweakKind::TrimLeft | TweakKind::TrimRight => {
            delete_found_exec(existing, &ids, false, &mut ops);
            assert(ops@ == Seq::<ItemLinkOp>::empty() + delete_found(existing@, ids@, false, existing@.len() as int));
        },
        _ => {
            let mut t: usize = 0;
            while t < entries.len()
                invariant
                    t <= entries@.len(),
                    entries@.len() > 0,
                    ids@ == entry_ids(entries@),
                    ops@ == per_entry_ops(kind, entries@, existing@, t as int),
                    kind != TweakKind::Replace && kind != TweakKind::TrimLeft && kind != TweakKind::TrimRight,
                decreases entries@.len() - t,
            {
                let (id, c) = entries[t];
                let found = link_for_exec(existing, id);
                match kind {
                    TweakKind::RemoveLeft | TweakKind::RemoveRight => {
                        if let Some(i) = found {
                            let mut seen = false;
                            let mut j: usize = 0;
                            while j < t
                                invariant
                                    j <= t < entries@.len(),
                                    ids@ == entry_ids(entries@),
                                    seen == entry_ids(entries@.take(j as int)).contains(id),
                                decreases t - j,
                            {
                                if ids[j] == id {
                                    seen = true;
                                }
                                proof {
                                    assert(entry_ids(entries@.take(j + 1)) == entry_ids(entries@.take(j as int)).push(ids@[j as int]));
                                    lemma_push_contains(entry_ids(entries@.take(j as int)), ids@[j as int], id);
                                }
                                j += 1;
                            }
                            if !seen {
                                ops.push(ItemLinkOp::Delete(i));
                            }
                        }
                    },
                    TweakKind::Append | TweakKind::Prepend | TweakKind::InsertIfAbsent => {
                        if found.is_none() {
                            ops.push(ItemLinkOp::Insert(id, c));
                        }
                    },
                    TweakKind::InsertOrUpdate | TweakKind::Merge | TweakKind::Update => {
                        match found {
                            Some(i) => ops.push(ItemLinkOp::SetCount(i, c)),
                            None => ops.push(ItemLinkOp::Insert(id, c)),
                        }
                    },
                    _ => {},
                }
                t += 1;
            }
        },
    }
    ops
}

/// Who may see a marker.
#[derive(Clone, Copy, PartialEq, Eq, Structural, Debug)]
pub enum HiddenFlag {
    Visible,
    Hidden,
    Beta,
    Suprise,
}

/// The flag that an integer sets: 0 to 3 name the flags in order; any
/// other value means `Visible`.
pub open spec fn flag_of(i: i64) -> HiddenFlag {
    if i == 1 {
        HiddenFlag::Hidden
    } else if i == 2 {
        HiddenFlag::Beta
    } else if i == 3 {
        HiddenFlag::Suprise
    } else {
        HiddenFlag::Visible
    }
}

/// The flag that an integer sets.
pub fn hidden_flag_of(i: i64) -> (res: HiddenFlag)
    ensures
        res == flag_of(i),
{
    let c = clamp_i32_exec(i);
    if c == 1 {
        HiddenFlag::Hidden
    } else if c == 2 {
        HiddenFlag::Beta
    } else if c == 3 {
        HiddenFlag::Suprise
    } else {
        HiddenFlag::Visible
    }
}

/// The marker fields that edits change in place.
pub struct MarkerEdit {
    pub content: Option<String>,
    pub marker_title: Option<String>,
    pub position: String,
    pub video_path: Option<String>,
    pub refresh_time: i64,
    pub hidden_flag: HiddenFlag,
}

/// Where the new `extra` of a marker comes from: the `map` argument of an
/// edit, or its map `value` (by the edit's index).
#[derive(Clone, Copy, PartialEq, Eq, Structural, Debug)]
pub enum ExtraSource {
    FromMap(usize),
    FromValue(usize),
}

/// The result of a marker's edits: its fields, where its new `extra` comes
/// from (if it changes), and the item-list edits to run, in order.
pub struct TweakOutcome {
    pub fields: MarkerEdit,
    pub extra: Option<ExtraSource>,
    pub item_list_edits: Vec<usize>,
}

/// The marker's fields and pending changes as plain values.
pub struct EditModel {
    pub content: Option<Seq<char>>,
    pub title: Option<Seq<char>>,
    pub position: Seq<char>,
    pub video_path: Option<Seq<char>>,
    pub refresh_time: i64,
    pub hidden_flag: HiddenFlag,
    pub extra: Option<ExtraSource>,
    pub item_list_edits: Seq<usize>,
}

/// A marker's fields before any edit.
pub open spec fn edit_start(f: MarkerEdit) -> EditModel {
    EditModel {
        content: opt_text(f.content),
        title: opt_text(f.marker_title),
        position: f.position@,
        video_path: opt_text(f.video_path),
        refresh_time: f.refresh_time,
        hidden_flag: f.hidden_flag,
        extra: None,
        item_list_edits: Seq::empty(),
    }
}

/// The result of an outcome as plain values.
pub open spec fn outcome_model(o: TweakOutcome) -> EditModel {
    EditModel { extra: o.extra, item_list_edits: o.item_list_edits@, ..edit_start(o.fields) }
}

/// A text field after a text edit (kept when the edit leaves it alone).
pub open spec fn edit_text(kind: TweakKind, m: TweakMeta, cur: Option<Seq<char>>) -> Option<Seq<char>> {
    match apply_text(kind, m, match cur { Some(s) => s, None => Seq::empty() }) {
        Some(n) => Some(n),
        None => cur,
    }
}

/// The marker after edit number `idx`: a content or title edit changes the
/// text as `apply_text` says (a missing text counts as empty); a position
/// is set from `replace`, else from a text `value`; a video path from
/// `replace`; the refresh time and the hidden flag from an integer
/// `value`; `extra` is replaced from `map`, else from a map `value`; an
/// item-list edit is queued.
pub open spec fn apply_edit(s: EditModel, t: TweakConfig, idx: usize) -> EditModel {
    match t.prop {
        TweakProp::Content => EditModel { content: edit_text(t.kind, t.meta, s.content), ..s },
        TweakProp::Title => EditModel { title: edit_text(t.kind, t.meta, s.title), ..s },
        TweakProp::Position => match t.meta.replace {
            Some(v) => EditModel { position: v@, ..s },
            None => match value_text(t.meta.value) {
                Some(v) => EditModel { position: v, ..s },
                None => s,
            },
        },
        TweakProp::VideoPath => match t.meta.replace {
            Some(v) => EditModel { video_path: Some(v@), ..s },
            None => s,
        },
        TweakProp::RefreshTime => match t.meta.value {
            Some(TweakValue::Integer(i)) => EditModel { refresh_time: i, ..s },
            _ => s,
        },
        TweakProp::Extra => if t.meta.has_map {
            EditModel { extra: Some(ExtraSource::FromMap(idx)), ..s }
        } else {
            match t.meta.value {
                Some(TweakValue::AnyMap) => EditModel { extra: Some(ExtraSource::FromValue(idx)), ..s },
                _ => s,
            }
        },
        TweakProp::HiddenFlag => match t.meta.value {
            Some(TweakValue::Integer(i)) => EditModel { hidden_flag: flag_of(i), ..s },
            _ => s,
        },
        TweakProp::ItemList => EditModel { item_list_edits: s.item_list_edits.push(idx), ..s },
    }
}

/// The marker after the first `n` edits, in order (edits of one field
/// chain: each starts from the result of the one before).
pub open spec fn apply_edits(s: EditModel, tweaks: Seq<TweakConfig>, n: int) -> EditModel
    decreases n,
{
    if n <= 0 {
        s
    } else {
        apply_edit(apply_edits(s, tweaks, n - 1), tweaks[n - 1], (n - 1) as usize)
    }
}

/// No edit among the first `n` targets `prop`.
pub open spec fn untouched(tweaks: Seq<TweakConfig>, prop: TweakProp, n: int) -> bool {
    forall|i: int| 0 <= i < n ==> (#[trigger] tweaks[i]).prop != prop
}

proof fn lemma_apply_edits_locality(s: EditModel, tweaks: Seq<TweakConfig>, n: int)
    requires
        0 <= n <= tweaks.len() <= usize::MAX,
    ensures
        untouched(tweaks, TweakProp::Content, n) ==> apply_edits(s, tweaks, n).content == s.content,
        untouched(tweaks, TweakProp::Title, n) ==> apply_edits(s, tweaks, n).title == s.title,
        untouched(tweaks, TweakProp::Position, n) ==> apply_edits(s, tweaks, n).position == s.position,
        untouched(tweaks, TweakProp::VideoPath, n) ==> apply_edits(s, tweaks, n).video_path == s.video_path,
        untouched(tweaks, TweakProp::RefreshTime, n) ==> apply_edits(s, tweaks, n).refresh_time == s.refresh_time,
        untouched(tweaks, TweakProp::HiddenFlag, n) ==> apply_edits(s, tweaks, n).hidden_flag == s.hidden_flag,
        untouched(tweaks, TweakProp::Extra, n) ==> apply_edits(s, tweaks, n).extra == s.extra,
        apply_edits(s, tweaks, n).item_list_edits.len() >= s.item_list_edits.len(),
        apply_edits(s, tweaks, n).item_list_edits.take(s.item_list_edits.len() as int) == s.item_list_edits,
        forall|r: int|
            s.item_list_edits.len() <= r < apply_edits(s, tweaks, n).item_list_edits.len() ==> {
                let i = #[trigger] apply_edits(s, tweaks, n).item_list_edits[r] as int;
                0 <= i < n && tweaks[i].prop == TweakProp::ItemList
            },
        forall|a: int, b: int|
            s.item_list_edits.len() <= a < b < apply_edits(s, tweaks, n).item_list_edits.len() ==> #[trigger] apply_edits(
                s,
                tweaks,
                n,
            ).item_list_edits[a] < #[trigger] apply_edits(s, tweaks, n).item_list_edits[b],
        forall|i: int|
            0 <= i < n && (#[trigger] tweaks[i]).prop == TweakProp::ItemList ==> apply_edits(s, tweaks, n).item_list_edits.skip(
                s.item_list_edits.len() as int,
            ).contains(i as usize),
    decreases n,
{
    if n > 0 {
        lemma_apply_edits_locality(s, tweaks, n - 1);
        let p = apply_edits(s, tweaks, n - 1);
        let q = apply_edits(s, tweaks, n);
        let m = s.item_list_edits.len() as int;
        if tweaks[n - 1].prop == TweakProp::ItemList {
            assert(q.item_list_edits == p.item_list_edits.push((n - 1) as usize));
            assert(q.item_list_edits.take(m) =~= p.item_list_edits.take(m));
            assert forall|i: int|
                0 <= i < n && (#[trigger] tweaks[i]).prop == TweakProp::ItemList implies q.item_list_edits.skip(m).contains(
                i as usize,
            ) by {
                if i < n - 1 {
                    let k = choose|k: int| 0 <= k < p.item_list_edits.skip(m).len() && p.item_list_edits.skip(m)[k] == i as usize;
                    assert(q.item_list_edits.skip(m)[k] == i as usize);
                } else {
                    assert(q.item_list_edits.skip(m)[q.item_list_edits.len() - 1 - m] == i as usize);
                }
            }
            assert forall|a: int, b: int|
                m <= a < b < q.item_list_edits.len() implies #[trigger] q.item_list_edits[a] < #[trigger] q.item_list_edits[b] by {
                if b < p.item_list_edits.len() {
                    assert(q.item_list_edits[a] == p.item_list_edits[a]);
                    assert(q.item_list_edits[b] == p.item_list_edits[b]);
                } else {
                    assert(q.item_list_edits[a] == p.item_list_edits[a]);
                }
            }
        } else {
            assert(q.item_list_edits == p.item_list_edits);
        }
    }
}

/// What a marker's edits change: a field that no edit targets keeps its
/// value, `extra` is left alone when no edit targets it, and the queued
/// item-list edits are exactly the indices of the item-list edits, in
/// order.
pub proof fn marker_edits_touch_only_their_fields(fields: MarkerEdit, tweaks: Seq<TweakConfig>)
    requires
        tweaks.len() <= usize::MAX,
    ensures
        untouched(tweaks, TweakProp::Content, tweaks.len() as int) ==> apply_edits(edit_start(fields), tweaks, tweaks.len() as int).content
            == opt_text(fields.content),
        untouched(tweaks, TweakProp::Title, tweaks.len() as int) ==> apply_edits(edit_start(fields), tweaks, tweaks.len() as int).title
            == opt_text(fields.marker_title),
        untouched(tweaks, TweakProp::Position, tweaks.len() as int) ==> apply_edits(edit_start(fields), tweaks, tweaks.len() as int).position
            == fields.position@,
        untouched(tweaks, TweakProp::VideoPath, tweaks.len() as int) ==> apply_edits(edit_start(fields), tweaks, tweaks.len() as int).video_path
            == opt_text(fields.video_path),
        untouched(tweaks, TweakProp::RefreshTime, tweaks.len() as int) ==> apply_edits(edit_start(fields), tweaks, tweaks.len() as int).refresh_time
            == fields.refresh_time,
        untouched(tweaks, TweakProp::HiddenFlag, tweaks.len() as int) ==> apply_edits(edit_start(fields), tweaks, tweaks.len() as int).hidden_flag
            == fields.hidden_flag,
        untouched(tweaks, TweakProp::Extra, tweaks.len() as int) ==> apply_edits(edit_start(fields), tweaks, tweaks.len() as int).extra
            is None,
        forall|r: int|
            0 <= r < apply_edits(edit_start(fields), tweaks, tweaks.len() as int).item_list_edits.len() ==> (#[trigger] apply_edits(
                edit_start(fields),
                tweaks,
                tweaks.len() as int,
            ).item_list_edits[r] as int) < tweaks.len() && tweaks[apply_edits(edit_start(fields), tweaks, tweaks.len() as int).item_list_edits[r] as int].prop
                == TweakProp::ItemList,
        forall|a: int, b: int|
            0 <= a < b < apply_edits(edit_start(fields), tweaks, tweaks.len() as int).item_list_edits.len() ==> #[trigger] apply_edits(
                edit_start(fields),
                tweaks,
                tweaks.len() as int,
            ).item_list_edits[a] < #[trigger] apply_edits(edit_start(fields), tweaks, tweaks.len() as int).item_list_edits[b],
        forall|i: int|
            0 <= i < tweaks.len() && (#[trigger] tweaks[i]).prop == TweakProp::ItemList ==> apply_edits(
                edit_start(fields),
                tweaks,
                tweaks.len() as int,
            ).item_list_edits.contains(i as usize),
{
    let s = edit_start(fields);
    lemma_apply_edits_locality(s, tweaks, tweaks.len() as int);
    let e = apply_edits(s, tweaks, tweaks.len() as int).item_list_edits;
    assert(e.skip(0) =~= e);
}

/// Applies a marker's edits in order to its fields.
pub fn tweak_marker(tweaks: &Vec<TweakConfig>, fields: MarkerEdit) -> (res: TweakOutcome)
    ensures
        outcome_model(res) == apply_edits(edit_start(fields), tweaks@, tweaks@.len() as int),
{
    let ghost start = edit_start(fields);
    let mut out = TweakOutcome { fields, extra: None, item_list_edits: Vec::new() };
    let mut i: usize = 0;
    while i < tweaks.len()
        invariant
            i <= tweaks@.len(),
            outcome_model(out) == apply_edits(start, tweaks@, i as int),
        decreases tweaks@.len() - i,
    {
        let t = &tweaks[i];
        match t.prop {
            TweakProp::Content => {
                if let Some(n) = apply_text_tweak(t.kind, &t.meta, &out.fields.content) {
                    out.fields.content = Some(n);
                }
            },
            TweakProp::Title => {
                if let Some(n) = apply_text_tweak(t.kind, &t.meta, &out.fields.marker_title) {
                    out.fields.marker_title = Some(n);
                }
            },
            TweakProp::Position => {
                if let Some(v) = &t.meta.replace {
                    out.fields.position = v.clone();
                } else if let Some(TweakValue::Text(v)) = &t.meta.value {
                    out.fields.position = v.clone();
                }
            },
            TweakProp::VideoPath => {
                if let Some(v) = &t.meta.replace {
                    out.fields.video_path = Some(v.clone());
                }
            },
            TweakProp::RefreshTime => {
                if let Some(TweakValue::Integer(v)) = &t.meta.value {
                    out.fields.refresh_time = *v;
                }
            },
            TweakProp::Extra => {
                if t.meta.has_map {
                    out.extra = Some(ExtraSource::FromMap(i));
                } else if let Some(TweakValue::AnyMap) = &t.meta.value {
                    out.extra = Some(ExtraSource::FromValue(i));
                }
            },
            TweakProp::HiddenFlag => {
                if let Some(TweakValue::Integer(v)) = &t.meta.value {
                    out.fields.hidden_flag = hidden_flag_of(*v);
                }
            },
            TweakProp::ItemList => {
                out.item_list_edits.push(i);
            },
        }
        i += 1;
    }
    out
}

} // verus!
