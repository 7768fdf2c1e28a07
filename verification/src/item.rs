//! Items: their type and marker-link tallies, the list filter on special
//! flags, the fields an add or update stores, and the checks of the batch
//! requests that join items to a type, delete an item, or mark items as
//! shared by name.

use vstd::prelude::*;
use crate::tweak::{clamp_i32, clamp_i32_exec};

verus! {

/// The types of an item: those of its type links, in link order.
pub open spec fn types_of(links: Seq<(i64, i64)>, item_id: i64, n: int) -> Seq<i64>
    decreases n,
{
    if n <= 0 {
        Seq::empty()
    } else if links[n - 1].0 == item_id {
        types_of(links, item_id, n - 1).push(links[n - 1].1)
    } else {
        types_of(links, item_id, n - 1)
    }
}

proof fn lemma_types_of_filter(links: Seq<(i64, i64)>, item_id: i64, n: int)
    requires
        0 <= n <= links.len(),
    ensures
        types_of(links, item_id, n) == links.take(n).filter(|l: (i64, i64)| l.0 == item_id).map_values(
            |l: (i64, i64)| l.1,
        ),
    decreases n,
{
    let pred = |l: (i64, i64)| l.0 == item_id;
    let f = |l: (i64, i64)| l.1;
    if n == 0 {
        reveal(Seq::filter);
        assert(links.take(0).filter(pred).map_values(f) =~= Seq::<i64>::empty());
    } else {
        lemma_types_of_filter(links, item_id, n - 1);
        assert(links.take(n) =~= links.take(n - 1).push(links[n - 1]));
        links.take(n - 1).lemma_filter_push(links[n - 1], pred);
        let m = links.take(n - 1).filter(pred);
        assert(m.push(links[n - 1]).map_values(f) =~= m.map_values(f).push(links[n - 1].1));
    }
}

/// The types of an item are the type ends of the links whose item end is
/// that item, in link order, repeats kept.
pub proof fn item_types_are_its_links(links: Seq<(i64, i64)>, item_id: i64)
    ensures
        types_of(links, item_id, links.len() as int) == links.filter(|l: (i64, i64)| l.0 == item_id).map_values(
            |l: (i64, i64)| l.1,
        ),
{
    lemma_types_of_filter(links, item_id, links.len() as int);
    assert(links.take(links.len() as int) =~= links);
}

/// The type ids of an item, from the `(item, type)` links.
pub fn type_ids_of(links: &Vec<(i64, i64)>, item_id: i64) -> (res: Vec<i64>)
    ensures
        res@ == types_of(links@, item_id, links@.len() as int),
{
    let mut res: Vec<i64> = Vec::new();
    let mut i: usize = 0;
    while i < links.len()
        invariant
            i <= links@.len(),
            res@ == types_of(links@, item_id, i as int),
        decreases links@.len() - i,
    {
        if links[i].0 == item_id {
            res.push(links[i].1);
        }
        i += 1;
    }
    res
}

/// The number of the first `n` marker links of an item.
pub open spec fn link_count(link_items: Seq<i64>, item_id: i64, n: int) -> nat
    decreases n,
{
    if n <= 0 {
        0
    } else {
        link_count(link_items, item_id, n - 1) + (if link_items[n - 1] == item_id { 1nat } else { 0nat })
    }
}

proof fn lemma_link_count_bound(link_items: Seq<i64>, item_id: i64, n: int)
    requires
        0 <= n,
    ensures
        link_count(link_items, item_id, n) <= n,
    decreases n,
{
    if n > 0 {
        lemma_link_count_bound(link_items, item_id, n - 1);
    }
}

proof fn lemma_link_count_filter(link_items: Seq<i64>, item_id: i64, n: int)
    requires
        0 <= n <= link_items.len(),
    ensures
        link_count(link_items, item_id, n) == link_items.take(n).filter(|x: i64| x == item_id).len(),
    decreases n,
{
    if n == 0 {
        reveal(Seq::filter);
        assert(link_items.take(0).filter(|x: i64| x == item_id) =~= Seq::<i64>::empty());
    } else {
        lemma_link_count_filter(link_items, item_id, n - 1);
        assert(link_items.take(n) =~= link_items.take(n - 1).push(link_items[n - 1]));
        link_items.take(n - 1).lemma_filter_push(link_items[n - 1], |x: i64| x == item_id);
    }
}

/// The marker tally of an item is the number of marker links whose item
/// is that item.
pub proof fn marker_tally_counts_links(link_items: Seq<i64>, item_id: i64)
    ensures
        link_count(link_items, item_id, link_items.len() as int) == link_items.filter(|x: i64| x == item_id).len(),
{
    lemma_link_count_filter(link_items, item_id, link_items.len() as int);
    assert(link_items.take(link_items.len() as int) =~= link_items);
}

/// The number of markers linked to an item, from the items of all marker
/// links; `None` when it has none.
pub fn marker_count_of(link_items: &Vec<i64>, item_id: i64) -> (res: Option<i64>)
    requires
        link_items@.len() <= i64::MAX,
    ensures
        res == (if link_count(link_items@, item_id, link_items@.len() as int) == 0 {
            None
        } else {
            Some(link_count(link_items@, item_id, link_items@.len() as int) as i64)
        }),
{
    let mut c: i64 = 0;
    let mut i: usize = 0;
    while i < link_items.len()
        invariant
            i <= link_items@.len(),
            link_items@.len() <= i64::MAX,
            c == link_count(link_items@, item_id, i as int),
        decreases link_items@.len() - i,
    {
        proof {
            lemma_link_count_bound(link_items@, item_id, i as int);
        }
        if link_items[i] == item_id {
            c += 1;
        }
        i += 1;
    }
    if c == 0 {
        None
    } else {
        Some(c)
    }
}

/// How the item list filters on the special-flag bit mask.
#[derive(Clone, Copy, PartialEq, Eq, Structural, Debug)]
pub enum SpecialFlagFilter {
    /// Items with no special flag bit set.
    NoneSet,
    /// Items with any of these bits set.
    AnyOf(i32),
}

/// The special-flag filter of a request (its mask clamped to `i32`): 0
/// asks for items without special flags, any other mask for items that
/// share a bit with it.
pub fn special_flag_filter(mask: i64) -> (res: SpecialFlagFilter)
    ensures
        res == (if clamp_i32(mask) == 0 { SpecialFlagFilter::NoneSet } else { SpecialFlagFilter::AnyOf(clamp_i32(mask)) }),
{
    let sf = clamp_i32_exec(mask);
    if sf == 0 {
        SpecialFlagFilter::NoneSet
    } else {
        SpecialFlagFilter::AnyOf(sf)
    }
}

/// An item request that cannot be served.
#[derive(Clone, Copy, PartialEq, Eq, Structural, Debug)]
pub enum ItemError {
    NotFound,
    BadType,
    BadItem,
    CommonItem,
}

impl ItemError {
    /// The message sent back to the client.
    pub fn message(&self) -> (res: &'static str)
        ensures
            res@ == (match *self {
                ItemError::NotFound => "Item not found"@,
                ItemError::BadType => "类型ID错误"@,
                ItemError::BadItem => "物品ID存在错误"@,
                ItemError::CommonItem => "不允许删除公共物品"@,
            }),
    {
        match self {
            ItemError::NotFound => "Item not found",
            ItemError::BadType => "类型ID错误",
            ItemError::BadItem => "物品ID存在错误",
            ItemError::CommonItem => "不允许删除公共物品",
        }
    }
}

/// The items an update changes: with `edit_same`, every item of the same
/// name (none is no error); otherwise the named item, which must exist.
pub fn update_targets(edit_same: bool, found: Vec<i64>) -> (res: Result<Vec<i64>, ItemError>)
    ensures
        found@.len() == 0 && !edit_same ==> res == Err::<Vec<i64>, ItemError>(ItemError::NotFound),
        found@.len() > 0 || edit_same ==> (res matches Ok(v) && v@ == found@),
{
    if found.len() == 0 && !edit_same {
        Err(ItemError::NotFound)
    } else {
        Ok(found)
    }
}

/// The number fields an item add or update stores.
#[derive(Clone, Copy, PartialEq, Eq, Structural, Debug)]
pub struct ItemNumbers {
    pub default_count: Option<i32>,
    pub default_refresh_time: i64,
    pub sort_index: Option<i32>,
    pub special_flag: Option<i32>,
}

/// Clamps an optional number into `i32`.
pub open spec fn clamp_opt(v: Option<i64>) -> Option<i32> {
    match v {
        Some(x) => Some(clamp_i32(x)),
        None => None,
    }
}

fn clamp_opt_exec(v: Option<i64>) -> (res: Option<i32>)
    ensures
        res == clamp_opt(v),
{
    match v {
        Some(x) => Some(clamp_i32_exec(x)),
        None => None,
    }
}

/// The numbers an item stores from a request: counts, sort index and
/// special flag clamped into `i32` (each absent one left as it is), the
/// refresh time 0 by default.
pub fn item_numbers(default_count: Option<i64>, default_refresh_time: Option<i64>, sort_index: Option<i64>, special_flag: Option<i64>) -> (res: ItemNumbers)
    ensures
        res == (ItemNumbers {
            default_count: clamp_opt(default_count),
            default_refresh_time: match default_refresh_time {
                Some(t) => t,
                None => 0,
            },
            sort_index: clamp_opt(sort_index),
            special_flag: clamp_opt(special_flag),
        }),
{
    ItemNumbers {
        default_count: clamp_opt_exec(default_count),
        default_refresh_time: match default_refresh_time {
            Some(t) => t,
            None => 0,
        },
        sort_index: clamp_opt_exec(sort_index),
        special_flag: clamp_opt_exec(special_flag),
    }
}

/// Every id of `ids` is among `known`.
pub open spec fn all_known(ids: Seq<i64>, known: Seq<i64>) -> bool {
    forall|i: int| 0 <= i < ids.len() ==> known.contains(#[trigger] ids[i])
}

pub(crate) fn all_known_exec(ids: &Vec<i64>, known: &Vec<i64>) -> (res: bool)
    ensures
        res == all_known(ids@, known@),
{
    let mut i: usize = 0;
    while i < ids.len()
        invariant
            i <= ids@.len(),
            forall|t: int| 0 <= t < i ==> known@.contains(#[trigger] ids@[t]),
        decreases ids@.len() - i,
    {
        if !crate::ids::contains_i64(known, ids[i]) {
            return false;
        }
        i += 1;
    }
    true
}

/// Checks that the types an item is added with all exist.
pub fn check_types_exist(type_ids: &Vec<i64>, existing: &Vec<i64>) -> (res: Result<(), ItemError>)
    ensures
        res is Ok <==> all_known(type_ids@, existing@),
        res is Err ==> res == Err::<(), ItemError>(ItemError::BadType),
{
    if all_known_exec(type_ids, existing) {
        Ok(())
    } else {
        Err(ItemError::BadType)
    }
}

/// The items that joining a type links anew: those among the first `n`
/// that neither had a link to the type nor came earlier in the request.
pub open spec fn join_new(items: Seq<i64>, linked: Seq<i64>, n: int) -> Seq<i64>
    decreases n,
{
    if n <= 0 {
        Seq::empty()
    } else {
        let p = join_new(items, linked, n - 1);
        if linked.contains(items[n - 1]) || p.contains(items[n - 1]) {
            p
        } else {
            p.push(items[n - 1])
        }
    }
}

proof fn lemma_join_new(items: Seq<i64>, linked: Seq<i64>, n: int)
    requires
        0 <= n <= items.len(),
    ensures
        forall|x: i64|
            #[trigger] join_new(items, linked, n).contains(x) <==> (!linked.contains(x) && exists|i: int|
                0 <= i < n && items[i] == x),
        forall|a: int, b: int|
            0 <= a < b < join_new(items, linked, n).len() ==> #[trigger] join_new(items, linked, n)[a]
                != #[trigger] join_new(items, linked, n)[b],
    decreases n,
{
    if n > 0 {
        lemma_join_new(items, linked, n - 1);
        let p = join_new(items, linked, n - 1);
        let q = join_new(items, linked, n);
        let y = items[n - 1];
        if !(linked.contains(y) || p.contains(y)) {
            assert(q == p.push(y));
            assert forall|x: i64| #[trigger] q.contains(x) <==> (p.contains(x) || x == y) by {
                if p.contains(x) {
                    let k = choose|k: int| 0 <= k < p.len() && p[k] == x;
                    assert(q[k] == x);
                }
                if x == y {
                    assert(q[p.len() as int] == x);
                }
                if q.contains(x) {
                    let k = choose|k: int| 0 <= k < q.len() && q[k] == x;
                    if k < p.len() {
                        assert(p[k] == x);
                    }
                }
            }
            assert forall|a: int, b: int| 0 <= a < b < q.len() implies #[trigger] q[a] != #[trigger] q[b] by {
                if b == p.len() {
                    assert(q[a] == p[a]);
                    assert(!p.contains(y));
                } else {
                    assert(q[a] == p[a] && q[b] == p[b]);
                }
            }
        }
        assert forall|x: i64| #[trigger] q.contains(x) <==> (!linked.contains(x) && exists|i: int|
            0 <= i < n && items[i] == x) by {
            if exists|i: int| 0 <= i < n && items[i] == x {
                let i = choose|i: int| 0 <= i < n && items[i] == x;
                if i < n - 1 {
                }
            }
        }
    }
}

/// Joining items to a type links, once each, exactly the requested items
/// that had no link to the type: an item is in the plan when the request
/// names it and it had no link, and no item is in it twice.
pub proof fn join_links_each_new_item_once(items: Seq<i64>, linked: Seq<i64>)
    ensures
        forall|x: i64|
            #[trigger] join_new(items, linked, items.len() as int).contains(x) <==> (items.contains(x)
                && !linked.contains(x)),
        forall|a: int, b: int|
            0 <= a < b < join_new(items, linked, items.len() as int).len() ==> #[trigger] join_new(
                items,
                linked,
                items.len() as int,
            )[a] != #[trigger] join_new(items, linked, items.len() as int)[b],
{
    lemma_join_new(items, linked, items.len() as int);
}

/// Plans joining items to a type: the type must exist and every item too;
/// then each item without a link to the type is linked, once.
pub fn plan_join_type(type_exists: bool, items: &Vec<i64>, existing_items: &Vec<i64>, linked: &Vec<i64>) -> (res: Result<Vec<i64>, ItemError>)
    ensures
        !type_exists ==> res == Err::<Vec<i64>, ItemError>(ItemError::BadType),
        type_exists && !all_known(items@, existing_items@) ==> res == Err::<Vec<i64>, ItemError>(ItemError::BadItem),
        type_exists && all_known(items@, existing_items@) ==> (res matches Ok(v) && v@ == join_new(items@, linked@, items@.len() as int)),
{
    if !type_exists {
        return Err(ItemError::BadType);
    }
    if !all_known_exec(items, existing_items) {
        return Err(ItemError::BadItem);
    }
    let mut out: Vec<i64> = Vec::new();
    let mut i: usize = 0;
    while i < items.len()
        invariant
            i <= items@.len(),
            out@ == join_new(items@, linked@, i as int),
        decreases items@.len() - i,
    {
        let x = items[i];
        if !crate::ids::contains_i64(linked, x) && !crate::ids::contains_i64(&out, x) {
            out.push(x);
        }
        i += 1;
    }
    Ok(out)
}

/// What deleting an item does: a missing item answers `false`; a shared
/// item is refused; any other is deleted, answering `true`.
pub fn delete_item_verdict(found: bool, is_common: bool) -> (res: Result<bool, ItemError>)
    ensures
        res == (if !found {
            Ok(false)
        } else if is_common {
            Err(ItemError::CommonItem)
        } else {
            Ok(true)
        }),
{
    if !found {
        Ok(false)
    } else if is_common {
        Err(ItemError::CommonItem)
    } else {
        Ok(true)
    }
}

/// The tag to look an icon up by: only when no icon id is given and the
/// tag is not empty.
pub fn icon_tag_to_look_up(icon_id: i64, icon_tag: &Option<String>) -> (res: bool)
    ensures
        res == (icon_id == 0 && (icon_tag matches Some(t) && t@.len() > 0)),
{
    if icon_id != 0 {
        return false;
    }
    match icon_tag {
        Some(t) => crate::text::chars_of(t.as_str()).len() > 0,
        None => false,
    }
}

/// The icon an item is stored with: the given id, else the icon the tag
/// named (0 when the tag named none or was not looked up).
pub fn resolve_icon_id(icon_id: i64, looked_up: Option<i64>) -> (res: i64)
    ensures
        res == (if icon_id != 0 {
            icon_id
        } else {
            match looked_up {
                Some(i) => i,
                None => 0,
            }
        }),
{
    if icon_id != 0 {
        icon_id
    } else {
        match looked_up {
            Some(i) => i,
            None => 0,
        }
    }
}

/// Candidates as plain `(id, name)` values.
pub open spec fn cands_view(c: Seq<(i64, String)>) -> Seq<(i64, Seq<char>)> {
    c.map_values(|x: (i64, String)| (x.0, x.1@))
}

/// The names as plain text.
pub open spec fn names_view(n: Seq<String>) -> Seq<Seq<char>> {
    n.map_values(|x: String| x@)
}

/// The id of the first of the first `n` candidates with this name.
pub open spec fn first_id_of_name(c: Seq<(i64, Seq<char>)>, name: Seq<char>, n: int) -> Option<i64>
    decreases n,
{
    if n <= 0 {
        None
    } else {
        match first_id_of_name(c, name, n - 1) {
            Some(x) => Some(x),
            None => if c[n - 1].1 == name { Some(c[n - 1].0) } else { None },
        }
    }
}

proof fn lemma_first_id_sticks(c: Seq<(i64, Seq<char>)>, name: Seq<char>, n: int, m: int)
    requires
        n <= m,
        first_id_of_name(c, name, n) is Some,
    ensures
        first_id_of_name(c, name, m) == first_id_of_name(c, name, n),
    decreases m - n,
{
    if n < m {
        lemma_first_id_sticks(c, name, n, m - 1);
    }
}

proof fn lemma_first_id_seen(c: Seq<(i64, Seq<char>)>, name: Seq<char>, n: int)
    requires
        first_id_of_name(c, name, n) is Some,
    ensures
        exists|t: int| 0 <= t < n && c[t].1 == name,
    decreases n,
{
    if n > 0 && first_id_of_name(c, name, n - 1) is Some {
        lemma_first_id_seen(c, name, n - 1);
    }
}

proof fn lemma_first_id_of_name(c: Seq<(i64, Seq<char>)>, name: Seq<char>, n: int)
    requires
        0 <= n <= c.len(),
    ensures
        first_id_of_name(c, name, n) is None <==> forall|t: int| 0 <= t < n ==> (#[trigger] c[t]).1 != name,
        first_id_of_name(c, name, n) is Some ==> exists|i: int|
            0 <= i < n && (#[trigger] c[i]).1 == name && first_id_of_name(c, name, n) == Some(c[i].0) && forall|t: int|
                0 <= t < i ==> (#[trigger] c[t]).1 != name,
    decreases n,
{
    if n > 0 {
        lemma_first_id_of_name(c, name, n - 1);
        if first_id_of_name(c, name, n - 1) is None && c[n - 1].1 == name {
            assert(c[n - 1].1 == name);
        }
    }
}

/// The id found for a name is that of the first candidate with the name;
/// none is found exactly when no candidate has it.
pub proof fn first_candidate_wins(c: Seq<(i64, Seq<char>)>, name: Seq<char>)
    ensures
        first_id_of_name(c, name, c.len() as int) is None <==> forall|t: int| 0 <= t < c.len() ==> (#[trigger] c[t]).1 != name,
        forall|i: int|
            0 <= i < c.len() && (#[trigger] c[i]).1 == name && (forall|t: int| 0 <= t < i ==> (#[trigger] c[t]).1 != name)
                ==> first_id_of_name(c, name, c.len() as int) == Some(c[i].0),
{
    lemma_first_id_of_name(c, name, c.len() as int);
    assert forall|i: int|
        0 <= i < c.len() && (#[trigger] c[i]).1 == name && (forall|t: int| 0 <= t < i ==> (#[trigger] c[t]).1 != name)
            implies first_id_of_name(c, name, c.len() as int) == Some(c[i].0) by {
        let j = choose|j: int|
            0 <= j < c.len() && (#[trigger] c[j]).1 == name && first_id_of_name(c, name, c.len() as int) == Some(c[j].0)
                && forall|t: int| 0 <= t < j ==> (#[trigger] c[t]).1 != name;
        if j < i {
            assert(c[j].1 != name);
        } else if i < j {
            assert(c[i].1 != name);
        }
    }
}

/// The entries' names sort strictly ascending.
pub open spec fn names_ascending(s: Seq<(String, i64)>) -> bool {
    forall|a: int, b: int| 0 <= a < b < s.len() ==> crate::text::text_lt(s[a].0@, s[b].0@)
}

fn contains_name(names: &Vec<String>, name: &str) -> (res: bool)
    ensures
        res == names_view(names@).contains(name@),
{
    let ghost nv = names_view(names@);
    let mut i: usize = 0;
    while i < names.len()
        invariant
            i <= names@.len(),
            nv == names_view(names@),
            forall|t: int| 0 <= t < i ==> nv[t] != name@,
        decreases names@.len() - i,
    {
        if crate::text::text_eq(names[i].as_str(), name) {
            assert(nv[i as int] == name@);
            return true;
        }
        i += 1;
    }
    false
}

/// The items to mark as shared: among the candidates whose name is not yet
/// shared, the first of each name, by name in ascending order.
pub fn first_item_per_name(cands: &Vec<(i64, String)>, shared_names: &Vec<String>) -> (res: Vec<(String, i64)>)
    ensures
        names_ascending(res@),
        forall|k: int|
            0 <= k < res@.len() ==> !names_view(shared_names@).contains((#[trigger] res@[k]).0@)
                && first_id_of_name(cands_view(cands@), res@[k].0@, cands@.len() as int) == Some(res@[k].1),
        forall|t: int|
            0 <= t < cands@.len() && !names_view(shared_names@).contains(#[trigger] cands@[t].1@) ==> exists|k: int|
                0 <= k < res@.len() && res@[k].0@ == cands@[t].1@,
{
    let ghost cv = cands_view(cands@);
    let ghost sv = names_view(shared_names@);
    let mut out: Vec<(String, i64)> = Vec::new();
    let mut i: usize = 0;
    while i < cands.len()
        invariant
            i <= cands@.len(),
            cv == cands_view(cands@),
            sv == names_view(shared_names@),
            names_ascending(out@),
            forall|k: int|
                0 <= k < out@.len() ==> !sv.contains((#[trigger] out@[k]).0@) && first_id_of_name(cv, out@[k].0@, i as int)
                    == Some(out@[k].1),
            forall|t: int|
                0 <= t < i && !sv.contains(#[trigger] cands@[t].1@) ==> exists|k: int| 0 <= k < out@.len() && out@[k].0@ == cands@[t].1@,
        decreases cands@.len() - i,
    {
        let name = cands[i].1.as_str();
        let id = cands[i].0;
        assert(cv[i as int] == (id, name@));
        if contains_name(shared_names, name) {
            proof {
                assert forall|k: int| 0 <= k < out@.len() implies first_id_of_name(cv, (#[trigger] out@[k]).0@, i + 1) == Some(out@[k].1) by {
                    lemma_first_id_sticks(cv, out@[k].0@, i as int, i + 1);
                }
            }
            i += 1;
            continue;
        }
        let mut j: usize = 0;
        while j < out.len() && crate::text::text_lt_exec(out[j].0.as_str(), name)
            invariant
                j <= out@.len(),
                forall|t: int| 0 <= t < j ==> crate::text::text_lt(out@[t].0@, name@),
            decreases out@.len() - j,
        {
            j += 1;
        }
        if j < out.len() && crate::text::text_eq(out[j].0.as_str(), name) {
            proof {
                assert forall|k: int| 0 <= k < out@.len() implies first_id_of_name(cv, (#[trigger] out@[k]).0@, i + 1) == Some(out@[k].1) by {
                    lemma_first_id_sticks(cv, out@[k].0@, i as int, i + 1);
                }
                assert(out@[j as int].0@ == cands@[i as int].1@);
            }
            i += 1;
            continue;
        }
        let ghost before = out@;
        proof {
            // The name is not listed yet: those before `j` sort before it and
            // those from `j` on after it.
            assert forall|k: int| 0 <= k < before.len() implies (#[trigger] before[k]).0@ != name@ by {
                if k < j {
                    crate::text::lemma_lt_irreflexive(name@, 0);
                } else {
                    crate::text::lemma_text_lt_total(before[j as int].0@, name@);
                    crate::text::lemma_lt_asymmetric(name@, before[j as int].0@, 0);
                    if k > j {
                        assert(crate::text::text_lt(before[j as int].0@, before[k].0@));
                        crate::text::lemma_lt_transitive(name@, before[j as int].0@, before[k].0@, 0);
                        crate::text::lemma_lt_irreflexive(name@, 0);
                    }
                }
            }
            if first_id_of_name(cv, name@, i as int) is Some {
                lemma_first_id_seen(cv, name@, i as int);
                let t = choose|t: int| 0 <= t < i && cv[t].1 == name@;
                assert(cands@[t].1@ == name@);
                let k = choose|k: int| 0 <= k < before.len() && before[k].0@ == cands@[t].1@;
                assert(before[k].0@ != name@);
            }
        }
        out.insert(j, (name.to_owned(), id));
        proof {
            assert(out@ == before.subrange(0, j as int).push((out@[j as int].0, id)) + before.subrange(j as int, before.len() as int));
            assert forall|a: int, b: int| 0 <= a < b < out@.len() implies crate::text::text_lt(out@[a].0@, out@[b].0@) by {
                if j < before.len() {
                    assert(before[j as int].0@ != name@);
                    crate::text::lemma_text_lt_total(before[j as int].0@, name@);
                }
                if b < j {
                } else if b == j {
                    assert(out@[a] == before[a]);
                } else if a < j {
                    assert(out@[b] == before[b - 1]);
                    assert(crate::text::text_lt(name@, before[j as int].0@));
                    if b - 1 > j {
                        crate::text::lemma_lt_transitive(before[a].0@, name@, before[j as int].0@, 0);
                        assert(crate::text::text_lt(before[j as int].0@, before[b - 1].0@));
                        crate::text::lemma_lt_transitive(before[a].0@, before[j as int].0@, before[b - 1].0@, 0);
                    } else {
                        crate::text::lemma_lt_transitive(before[a].0@, name@, before[j as int].0@, 0);
                    }
                } else if a == j {
                    assert(out@[b] == before[b - 1]);
                    if b - 1 > j {
                        assert(crate::text::text_lt(before[j as int].0@, before[b - 1].0@));
                        crate::text::lemma_lt_transitive(name@, before[j as int].0@, before[b - 1].0@, 0);
                    }
                } else {
                    assert(out@[a] == before[a - 1]);
                    assert(out@[b] == before[b - 1]);
                }
            }
            assert forall|k: int|
                0 <= k < out@.len() implies !sv.contains((#[trigger] out@[k]).0@) && first_id_of_name(cv, out@[k].0@, i + 1)
                    == Some(out@[k].1) by {
                if k < j {
                    assert(out@[k] == before[k]);
                    lemma_first_id_sticks(cv, out@[k].0@, i as int, i + 1);
                } else if k > j {
                    assert(out@[k] == before[k - 1]);
                    lemma_first_id_sticks(cv, out@[k].0@, i as int, i + 1);
                }
            }
            assert forall|t: int|
                0 <= t < i + 1 && !sv.contains(#[trigger] cands@[t].1@) implies exists|k: int| 0 <= k < out@.len() && out@[k].0@ == cands@[t].1@ by {
                if t < i {
                    let k = choose|k: int| 0 <= k < before.len() && before[k].0@ == cands@[t].1@;
                    if k < j {
                        assert(out@[k] == before[k]);
                    } else {
                        assert(out@[k + 1] == before[k]);
                    }
                } else {
                    assert(out@[j as int].0@ == cands@[t].1@);
                }
            }
        }
        i += 1;
    }
    out
}

} // verus!
