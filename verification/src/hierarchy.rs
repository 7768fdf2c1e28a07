//! Areas, icon types and tag types: trees by parent id like item types.
//! Their own-parent checks, the leaf flags of parents, which parents a
//! list reads, and what deleting an area leaves behind.

use vstd::prelude::*;

verus! {

/// A tree whose nodes name their parent.
#[derive(Clone, Copy, PartialEq, Eq, Structural, Debug)]
pub enum TreeKind {
    IconType,
    TagType,
}

/// A request that would make a node its own parent.
#[derive(Clone, Copy, PartialEq, Eq, Structural, Debug)]
pub struct OwnParent {
    pub kind: TreeKind,
}

impl OwnParent {
    /// The message sent back to the client.
    pub fn message(&self) -> (res: &'static str)
        ensures
            res@ == (match self.kind {
                TreeKind::IconType => "图标类型ID不允许与父ID相同，会造成自身父子"@,
                TreeKind::TagType => "标签类型ID不允许与父ID相同，会造成自身父子"@,
            }),
    {
        match self.kind {
            TreeKind::IconType => "图标类型ID不允许与父ID相同，会造成自身父子",
            TreeKind::TagType => "标签类型ID不允许与父ID相同，会造成自身父子",
        }
    }
}

/// A node may not become its own parent.
pub fn check_parent(kind: TreeKind, id: i64, parent_id: i64) -> (res: Result<(), OwnParent>)
    ensures
        res == (if id == parent_id { Err(OwnParent { kind }) } else { Ok(()) }),
{
    if id == parent_id {
        Err(OwnParent { kind })
    } else {
        Ok(())
    }
}

/// The leaf flag written to a parent when a child leaves it (counted
/// before the move, or after), if any is written: ids at or below 0 name
/// no parent.
pub fn recalc_parent_leaf(parent_id: i64, before_modify: bool, children: u64) -> (res: Option<bool>)
    ensures
        res == (if parent_id <= 0 {
            None
        } else if before_modify {
            Some(children == 1)
        } else {
            Some(children == 0)
        }),
{
    if parent_id <= 0 {
        None
    } else if before_modify {
        Some(children == 1)
    } else {
        Some(children == 0)
    }
}

/// Which parents a type list reads.
pub enum ParentFilter {
    /// The top level (parent -1).
    TopLevel,
    /// The children of these parents.
    ChildrenOf(Vec<i64>),
}

/// The parents a tag type list reads: the top level unless types other
/// than -1 are named, then their children.
pub fn tag_type_parents(type_ids: Option<Vec<i64>>) -> (res: ParentFilter)
    ensures
        match type_ids {
            Some(v) => if v@.len() > 0 && !v@.contains(-1i64) {
                res matches ParentFilter::ChildrenOf(p) && p@ == v@
            } else {
                res is TopLevel
            },
            None => res is TopLevel,
        },
{
    match type_ids {
        Some(v) => if v.len() > 0 && !crate::ids::contains_i64(&v, -1) {
            ParentFilter::ChildrenOf(v)
        } else {
            ParentFilter::TopLevel
        },
        None => ParentFilter::TopLevel,
    }
}

/// The positive ids among the first `n`, in order.
pub open spec fn positives(ids: Seq<i64>, n: int) -> Seq<i64>
    decreases n,
{
    if n <= 0 {
        Seq::empty()
    } else if ids[n - 1] > 0 {
        positives(ids, n - 1).push(ids[n - 1])
    } else {
        positives(ids, n - 1)
    }
}

proof fn lemma_positives_filter(ids: Seq<i64>, n: int)
    requires
        0 <= n <= ids.len(),
    ensures
        positives(ids, n) == ids.take(n).filter(|x: i64| x > 0),
    decreases n,
{
    if n == 0 {
        reveal(Seq::filter);
        assert(ids.take(0).filter(|x: i64| x > 0) =~= Seq::<i64>::empty());
    } else {
        lemma_positives_filter(ids, n - 1);
        assert(ids.take(n) =~= ids.take(n - 1).push(ids[n - 1]));
        ids.take(n - 1).lemma_filter_push(ids[n - 1], |x: i64| x > 0);
    }
}

/// The parents that an icon type list names are its positive ids, in
/// order, repeats kept: the list filtered by `id > 0`.
pub proof fn named_parents_are_the_positive_ids(ids: Seq<i64>)
    ensures
        positives(ids, ids.len() as int) == ids.filter(|x: i64| x > 0),
{
    lemma_positives_filter(ids, ids.len() as int);
    assert(ids.take(ids.len() as int) =~= ids);
}

/// The parents an icon type list reads: the children of the positive
/// named types, or the top level when none is named.
pub fn icon_type_parents(type_ids: Option<Vec<i64>>) -> (res: ParentFilter)
    ensures
        match type_ids {
            Some(v) => if positives(v@, v@.len() as int).len() > 0 {
                res matches ParentFilter::ChildrenOf(p) && p@ == positives(v@, v@.len() as int)
            } else {
                res is TopLevel
            },
            None => res is TopLevel,
        },
{
    match type_ids {
        Some(v) => {
            let mut p: Vec<i64> = Vec::new();
            let mut i: usize = 0;
            while i < v.len()
                invariant
                    i <= v@.len(),
                    p@ == positives(v@, i as int),
                decreases v@.len() - i,
            {
                if v[i] > 0 {
                    p.push(v[i]);
                }
                i += 1;
            }
            if p.len() > 0 {
                ParentFilter::ChildrenOf(p)
            } else {
                ParentFilter::TopLevel
            }
        },
        None => ParentFilter::TopLevel,
    }
}

/// The parent an area list filters on: only a positive one.
pub fn area_parent_filter(parent_id: Option<i64>) -> (res: Option<i64>)
    ensures
        res == (match parent_id {
            Some(p) => if p > 0 { Some(p) } else { None },
            None => None,
        }),
{
    match parent_id {
        Some(p) => if p > 0 {
            Some(p)
        } else {
            None
        },
        None => None,
    }
}

/// An area the caller may not see reads as missing.
#[derive(Clone, Copy, PartialEq, Eq, Structural, Debug)]
pub struct AreaNotFound;

impl AreaNotFound {
    /// The message sent back to the client.
    pub fn message(&self) -> (res: &'static str)
        ensures
            res@ == "Area not found"@,
    {
        "Area not found"
    }
}

/// An area is shown when it exists and its hidden flag is one the caller
/// may see.
pub fn area_visible(found: bool, hidden_flag: i32, allowed: &Vec<i32>) -> (res: Result<(), AreaNotFound>)
    ensures
        res is Ok <==> (found && allowed@.contains(hidden_flag)),
{
    let mut seen = false;
    let mut i: usize = 0;
    while i < allowed.len()
        invariant
            i <= allowed@.len(),
            seen <==> exists|t: int| 0 <= t < i && allowed@[t] == hidden_flag,
        decreases allowed@.len() - i,
    {
        if allowed[i] == hidden_flag {
            seen = true;
        }
        i += 1;
    }
    if found && seen {
        Ok(())
    } else {
        Err(AreaNotFound)
    }
}

/// The markers among the first `n` that kept no item link, in order.
pub open spec fn orphans(markers: Seq<i64>, surviving: Seq<i64>, n: int) -> Seq<i64>
    decreases n,
{
    if n <= 0 {
        Seq::empty()
    } else if surviving.contains(markers[n - 1]) {
        orphans(markers, surviving, n - 1)
    } else {
        orphans(markers, surviving, n - 1).push(markers[n - 1])
    }
}

proof fn lemma_orphans_filter(markers: Seq<i64>, surviving: Seq<i64>, n: int)
    requires
        0 <= n <= markers.len(),
    ensures
        orphans(markers, surviving, n) == markers.take(n).filter(|m: i64| !surviving.contains(m)),
    decreases n,
{
    if n == 0 {
        reveal(Seq::filter);
        assert(markers.take(0).filter(|m: i64| !surviving.contains(m)) =~= Seq::<i64>::empty());
    } else {
        lemma_orphans_filter(markers, surviving, n - 1);
        assert(markers.take(n) =~= markers.take(n - 1).push(markers[n - 1]));
        markers.take(n - 1).lemma_filter_push(markers[n - 1], |m: i64| !surviving.contains(m));
    }
}

/// The markers that go with a deleted area are, in order, exactly those
/// that no surviving item link names: the markers filtered by "not among
/// the survivors".
pub proof fn orphans_are_the_unlinked_markers(markers: Seq<i64>, surviving: Seq<i64>)
    ensures
        orphans(markers, surviving, markers.len() as int) == markers.filter(|m: i64| !surviving.contains(m)),
{
    lemma_orphans_filter(markers, surviving, markers.len() as int);
    assert(markers.take(markers.len() as int) =~= markers);
}

/// The markers of a deleted area's items that no longer have any item
/// link: they go too.
pub fn orphaned_markers(markers: &Vec<i64>, surviving: &Vec<i64>) -> (res: Vec<i64>)
    ensures
        res@ == orphans(markers@, surviving@, markers@.len() as int),
{
    let mut res: Vec<i64> = Vec::new();
    let mut i: usize = 0;
    while i < markers.len()
        invariant
            i <= markers@.len(),
            res@ == orphans(markers@, surviving@, i as int),
        decreases markers@.len() - i,
    {
        if !crate::ids::contains_i64(surviving, markers[i]) {
            res.push(markers[i]);
        }
        i += 1;
    }
    res
}

/// The leaf flag of a deleted area's parent: set when it has a parent (a
/// positive id), to whether no area is left under it.
pub fn parent_leaf_after_delete(parent_id: i64, remaining: u64) -> (res: Option<bool>)
    ensures
        res == (if parent_id > 0 { Some(remaining == 0) } else { None }),
{
    if parent_id > 0 {
        Some(remaining == 0)
    } else {
        None
    }
}

} // verus!
