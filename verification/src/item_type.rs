//! Item types: a forest by parent id. Deleting a type takes its whole
//! subtree; moving and editing types keeps each parent's leaf flag right.

use vstd::prelude::*;
use crate::tweak::{clamp_i32, clamp_i32_exec};

verus! {

/// A type as the tree reads it: its id and its parent's id.
#[derive(Clone, Copy, PartialEq, Eq, Structural, Debug)]
pub struct TypeNode {
    pub id: i64,
    pub parent_id: i64,
}

/// Some type row names `child` with parent `parent`.
pub open spec fn child_of(types: Seq<TypeNode>, parent: i64, child: i64) -> bool {
    exists|t: int| 0 <= t < types.len() && (#[trigger] types[t]).id == child && types[t].parent_id == parent
}

/// Step `k` of the chain goes from a type to one of its children.
pub open spec fn chain_step(types: Seq<TypeNode>, p: Seq<i64>, k: int) -> bool {
    child_of(types, p[k], p[k + 1])
}

/// Each step of `p` goes from a type to one of its children.
pub open spec fn is_chain(types: Seq<TypeNode>, p: Seq<i64>) -> bool {
    forall|k: int| 0 <= k < p.len() - 1 ==> #[trigger] chain_step(types, p, k)
}

/// `x` is `root` or below it: some chain of children leads from `root` to
/// `x`.
pub open spec fn in_subtree(types: Seq<TypeNode>, root: i64, x: i64) -> bool {
    exists|p: Seq<i64>| p.len() > 0 && p[0] == root && p[p.len() - 1] == x && #[trigger] is_chain(types, p)
}

/// The ids a subtree can hold: the root's and those of the rows.
pub open spec fn universe(types: Seq<TypeNode>, root: i64) -> Seq<i64> {
    seq![root] + types.map_values(|t: TypeNode| t.id)
}

proof fn lemma_bound(visited: Seq<i64>, u: Seq<i64>)
    requires
        visited.no_duplicates(),
        forall|k: int| 0 <= k < visited.len() ==> u.contains(#[trigger] visited[k]),
    ensures
        visited.len() <= u.len(),
{
    visited.unique_seq_to_set();
    u.lemma_cardinality_of_set();
    assert(visited.to_set().subset_of(u.to_set())) by {
        assert forall|x: i64| visited.to_set().contains(x) implies u.to_set().contains(x) by {
            let k = choose|k: int| 0 <= k < visited.len() && visited[k] == x;
            assert(u.contains(visited[k]));
        }
    }
    vstd::set_lib::lemma_len_subset(visited.to_set(), u.to_set());
}

proof fn lemma_chain_extend(types: Seq<TypeNode>, root: i64, cur: i64, c: i64, t: int)
    requires
        in_subtree(types, root, cur),
        0 <= t < types.len(),
        types[t].id == c,
        types[t].parent_id == cur,
    ensures
        in_subtree(types, root, c),
{
    let p = choose|p: Seq<i64>| p.len() > 0 && p[0] == root && p[p.len() - 1] == cur && #[trigger] is_chain(types, p);
    let q = p.push(c);
    assert forall|k: int| 0 <= k < q.len() - 1 implies #[trigger] chain_step(types, q, k) by {
        if k < p.len() - 1 {
            assert(chain_step(types, p, k));
            assert(q[k] == p[k] && q[k + 1] == p[k + 1]);
        } else {
            assert(q[k] == cur && q[k + 1] == c);
            assert(types[t].id == c && types[t].parent_id == cur);
        }
    }
    assert(is_chain(types, q));
}

proof fn lemma_chain_in(types: Seq<TypeNode>, visited: Seq<i64>, p: Seq<i64>, k: int)
    requires
        0 <= k < p.len(),
        visited.contains(p[0]),
        is_chain(types, p),
        forall|kk: int, t: int|
            #![trigger visited[kk], types[t]]
            0 <= kk < visited.len() && 0 <= t < types.len() && types[t].parent_id == visited[kk] ==> visited.contains(
                types[t].id,
            ),
    ensures
        visited.contains(p[k]),
    decreases k,
{
    if k > 0 {
        lemma_chain_in(types, visited, p, k - 1);
        assert(chain_step(types, p, k - 1));
        let t = choose|t: int| 0 <= t < types.len() && (#[trigger] types[t]).id == p[k] && types[t].parent_id == p[k - 1];
        let kk = choose|kk: int| 0 <= kk < visited.len() && visited[kk] == p[k - 1];
        assert(visited.contains(types[t].id));
    }
}

proof fn lemma_closed_holds_subtree(types: Seq<TypeNode>, root: i64, visited: Seq<i64>, x: i64)
    requires
        visited.contains(root),
        forall|k: int, t: int|
            #![trigger visited[k], types[t]]
            0 <= k < visited.len() && 0 <= t < types.len() && types[t].parent_id == visited[k] ==> visited.contains(
                types[t].id,
            ),
        in_subtree(types, root, x),
    ensures
        visited.contains(x),
{
    let p = choose|p: Seq<i64>| p.len() > 0 && p[0] == root && p[p.len() - 1] == x && #[trigger] is_chain(types, p);
    lemma_chain_in(types, visited, p, p.len() - 1);
}

/// The ids of a type's subtree (the type and everything below it), each
/// once, the type first.
pub fn subtree_ids(types: &Vec<TypeNode>, root: i64) -> (res: Vec<i64>)
    ensures
        res@.len() > 0 && res@[0] == root,
        res@.no_duplicates(),
        forall|x: i64| #[trigger] res@.contains(x) <==> in_subtree(types@, root, x),
{
    let ghost u = universe(types@, root);
    let mut visited: Vec<i64> = Vec::new();
    visited.push(root);
    proof {
        let p = seq![root];
        assert(is_chain(types@, p));
        assert(u[0] == root);
    }
    let mut i: usize = 0;
    while i < visited.len()
        invariant
            u == universe(types@, root),
            visited@.len() > 0 && visited@[0] == root,
            i <= visited@.len(),
            visited@.len() <= u.len(),
            visited@.no_duplicates(),
            forall|k: int| 0 <= k < visited@.len() ==> u.contains(#[trigger] visited@[k]),
            forall|k: int| 0 <= k < visited@.len() ==> in_subtree(types@, root, #[trigger] visited@[k]),
            forall|k: int, t: int|
                #![trigger visited@[k], types@[t]]
                0 <= k < i && 0 <= t < types@.len() && types@[t].parent_id == visited@[k] ==> visited@.contains(
                    types@[t].id,
                ),
        decreases u.len() - i,
    {
        let cur = visited[i];
        let mut j: usize = 0;
        while j < types.len()
            invariant
                u == universe(types@, root),
                visited@.len() > 0 && visited@[0] == root,
                i < visited@.len(),
                cur == visited@[i as int],
                j <= types@.len(),
                visited@.len() <= u.len(),
                visited@.no_duplicates(),
                forall|k: int| 0 <= k < visited@.len() ==> u.contains(#[trigger] visited@[k]),
                forall|k: int| 0 <= k < visited@.len() ==> in_subtree(types@, root, #[trigger] visited@[k]),
                forall|k: int, t: int|
                    #![trigger visited@[k], types@[t]]
                    0 <= k < i && 0 <= t < types@.len() && types@[t].parent_id == visited@[k] ==> visited@.contains(
                        types@[t].id,
                    ),
                forall|t: int| 0 <= t < j && types@[t].parent_id == cur ==> visited@.contains(#[trigger] types@[t].id),
            decreases types@.len() - j,
        {
            let node = types[j];
            if node.parent_id == cur && !crate::ids::contains_i64(&visited, node.id) {
                let ghost before = visited@;
                proof {
                    assert(in_subtree(types@, root, before[i as int]));
                    lemma_chain_extend(types@, root, cur, node.id, j as int);
                    assert(u[j + 1] == node.id);
                }
                visited.push(node.id);
                proof {
                    assert forall|k: int| 0 <= k < visited@.len() implies u.contains(#[trigger] visited@[k]) by {
                        if k < before.len() {
                            assert(visited@[k] == before[k]);
                        } else {
                            assert(u[j + 1] == visited@[k]);
                        }
                    }
                    assert forall|k: int| 0 <= k < visited@.len() implies in_subtree(types@, root, #[trigger] visited@[k]) by {
                        if k < before.len() {
                            assert(visited@[k] == before[k]);
                        }
                    }
                    assert(visited@.no_duplicates()) by {
                        assert forall|a: int, b: int| 0 <= a < visited@.len() && 0 <= b < visited@.len() && a != b implies visited@[a] != visited@[b] by {
                            if a < before.len() && b < before.len() {
                                assert(visited@[a] == before[a] && visited@[b] == before[b]);
                            } else if a < before.len() {
                                assert(visited@[a] == before[a]);
                            } else if b < before.len() {
                                assert(visited@[b] == before[b]);
                            }
                        }
                    }
                    lemma_bound(visited@, u);
                    assert forall|k: int, t: int|
                        #![trigger visited@[k], types@[t]]
                        0 <= k < i && 0 <= t < types@.len() && types@[t].parent_id == visited@[k] implies visited@.contains(
                            types@[t].id,
                        ) by {
                        assert(visited@[k] == before[k]);
                        assert(before.contains(types@[t].id));
                        let q = choose|q: int| 0 <= q < before.len() && before[q] == types@[t].id;
                        assert(visited@[q] == before[q]);
                    }
                    assert forall|t: int| 0 <= t < j + 1 && types@[t].parent_id == cur implies visited@.contains(#[trigger] types@[t].id) by {
                        if t < j {
                            let q = choose|q: int| 0 <= q < before.len() && before[q] == types@[t].id;
                            assert(visited@[q] == before[q]);
                        } else {
                            assert(visited@[before.len() as int] == node.id);
                        }
                    }
                }
            }
            j += 1;
        }
        i += 1;
    }
    proof {
        assert forall|x: i64| #[trigger] visited@.contains(x) <==> in_subtree(types@, root, x) by {
            if visited@.contains(x) {
                let k = choose|k: int| 0 <= k < visited@.len() && visited@[k] == x;
                assert(in_subtree(types@, root, visited@[k]));
            }
            if in_subtree(types@, root, x) {
                assert(visited@[0] == root);
                lemma_closed_holds_subtree(types@, root, visited@, x);
            }
        }
    }
    visited
}

/// An item-type request that cannot be served.
#[derive(Clone, Copy, PartialEq, Eq, Structural, Debug)]
pub enum TypeError {
    /// A type would become its own parent.
    OwnParent,
    /// The type to delete does not exist.
    NotFound,
    /// The target of a move does not exist; it carries the target's id.
    TargetNotFound(i64),
    /// A type is added without a name.
    NameRequired,
}

impl TypeError {
    /// The message sent back to the client (a missing target's id follows
    /// its message).
    pub fn message(&self) -> (res: &'static str)
        ensures
            res@ == (match *self {
                TypeError::OwnParent => "物品类型ID不允许与父ID相同，会造成自身父子"@,
                TypeError::NotFound => "ItemType not found"@,
                TypeError::TargetNotFound(_) => "ItemType not found: "@,
                TypeError::NameRequired => "name required"@,
            }),
    {
        match self {
            TypeError::OwnParent => "物品类型ID不允许与父ID相同，会造成自身父子",
            TypeError::NotFound => "ItemType not found",
            TypeError::TargetNotFound(_) => "ItemType not found: ",
            TypeError::NameRequired => "name required",
        }
    }
}

/// An update may not make a type its own parent.
pub fn check_own_parent(id: i64, parent_id: i64) -> (res: Result<(), TypeError>)
    ensures
        res == (if id == parent_id { Err(TypeError::OwnParent) } else { Ok(()) }),
{
    if id == parent_id {
        Err(TypeError::OwnParent)
    } else {
        Ok(())
    }
}

/// The new leaf flag of a parent after a change, if it changes: a type is
/// a leaf exactly when no type has it as parent. Ids at or below 0 name no
/// parent, and a missing parent has nothing to change.
pub fn refreshed_final(type_id: i64, current: Option<bool>, children: u64) -> (res: Option<bool>)
    ensures
        res == (if type_id <= 0 {
            None
        } else {
            match current {
                Some(f) => if f != (children == 0) { Some(children == 0) } else { None },
                None => None,
            }
        }),
{
    if type_id <= 0 {
        return None;
    }
    match current {
        Some(f) => if f != (children == 0) {
            Some(children == 0)
        } else {
            None
        },
        None => None,
    }
}

/// The leaf flag a parent gets when a child leaves it: counted before the
/// move it is a leaf when the leaving child was its only one; counted
/// after, when it has none.
pub fn leaf_after_leaving(before_modify: bool, count: u64) -> (res: bool)
    ensures
        res == (if before_modify { count == 1 } else { count == 0 }),
{
    if before_modify {
        count == 1
    } else {
        count == 0
    }
}

/// A new type is a leaf when it says so or has a parent.
pub fn new_type_is_final(is_final: bool, parent_id: i64) -> (res: bool)
    ensures
        res == (is_final || parent_id > 0),
{
    is_final || parent_id > 0
}

/// Checks a move of types under a target: the target may not be among the
/// moved types, and must exist.
pub fn check_move(target: i64, moved: &Vec<i64>, target_exists: bool) -> (res: Result<(), TypeError>)
    ensures
        res == (if moved@.contains(target) {
            Err(TypeError::OwnParent)
        } else if !target_exists {
            Err(TypeError::TargetNotFound(target))
        } else {
            Ok(())
        }),
{
    if crate::ids::contains_i64(moved, target) {
        Err(TypeError::OwnParent)
    } else if !target_exists {
        Err(TypeError::TargetNotFound(target))
    } else {
        Ok(())
    }
}

/// The former parents of the first `n` found types that a move changes
/// (those not already under the target), in order.
pub open spec fn left_parents(found: Seq<TypeNode>, target: i64, n: int) -> Seq<i64>
    decreases n,
{
    if n <= 0 {
        Seq::empty()
    } else if found[n - 1].parent_id != target {
        left_parents(found, target, n - 1).push(found[n - 1].parent_id)
    } else {
        left_parents(found, target, n - 1)
    }
}

proof fn lemma_left_parents_filter(found: Seq<TypeNode>, target: i64, n: int)
    requires
        0 <= n <= found.len(),
    ensures
        left_parents(found, target, n) == found.take(n).filter(|t: TypeNode| t.parent_id != target).map_values(
            |t: TypeNode| t.parent_id,
        ),
    decreases n,
{
    let pred = |t: TypeNode| t.parent_id != target;
    let f = |t: TypeNode| t.parent_id;
    if n == 0 {
        reveal(Seq::filter);
        assert(found.take(0).filter(pred).map_values(f) =~= Seq::<i64>::empty());
    } else {
        lemma_left_parents_filter(found, target, n - 1);
        assert(found.take(n) =~= found.take(n - 1).push(found[n - 1]));
        found.take(n - 1).lemma_filter_push(found[n - 1], pred);
        let m = found.take(n - 1).filter(pred);
        assert(m.push(found[n - 1]).map_values(f) =~= m.map_values(f).push(found[n - 1].parent_id));
    }
}

/// The parents that a move leaves are the parents of the moved types that
/// were not already under the target, in order, repeats kept; none of them
/// is the target.
pub proof fn moved_types_leave_their_other_parents(found: Seq<TypeNode>, target: i64)
    ensures
        left_parents(found, target, found.len() as int) == found.filter(|t: TypeNode| t.parent_id != target).map_values(
            |t: TypeNode| t.parent_id,
        ),
        !left_parents(found, target, found.len() as int).contains(target),
{
    lemma_left_parents_filter(found, target, found.len() as int);
    assert(found.take(found.len() as int) =~= found);
    let pred = |t: TypeNode| t.parent_id != target;
    let m = found.filter(pred);
    let l = left_parents(found, target, found.len() as int);
    if l.contains(target) {
        let k = choose|k: int| 0 <= k < l.len() && #[trigger] l[k] == target;
        assert(l[k] == m[k].parent_id);
        found.lemma_filter_pred(pred, k);
    }
}

/// The former parents of the moved types whose parent changes, in order.
pub fn moved_from_parents(found: &Vec<TypeNode>, target: i64) -> (res: Vec<i64>)
    ensures
        res@ == left_parents(found@, target, found@.len() as int),
{
    let mut res: Vec<i64> = Vec::new();
    let mut i: usize = 0;
    while i < found.len()
        invariant
            i <= found@.len(),
            res@ == left_parents(found@, target, i as int),
        decreases found@.len() - i,
    {
        if found[i].parent_id != target {
            res.push(found[i].parent_id);
        }
        i += 1;
    }
    res
}

/// Which types a type list request reads.
pub enum TypeListQuery {
    /// Nothing: an empty page.
    EmptyPage,
    /// The top-level types: parent -1, or their own parent.
    TopLevel,
    /// The children of these types.
    ChildrenOf(Vec<i64>),
    /// These types.
    Only(Vec<i64>),
    /// Every type.
    Every,
}

/// The query of a type list request: with no types named, the top level
/// when asking for children (`self_flag`), else nothing; with types named,
/// their children (the top level when -1 is among them), or the types
/// themselves (every type when -1 is among them).
pub fn type_list_query(type_ids: Option<Vec<i64>>, self_flag: bool) -> (res: TypeListQuery)
    ensures
        ({
            let list = match type_ids {
                Some(v) => v@,
                None => Seq::empty(),
            };
            if list.len() == 0 {
                if self_flag { res is TopLevel } else { res is EmptyPage }
            } else if self_flag {
                if list.contains(-1i64) { res is TopLevel } else { res matches TypeListQuery::ChildrenOf(v) && v@ == list }
            } else if list.contains(-1i64) {
                res is Every
            } else {
                res matches TypeListQuery::Only(v) && v@ == list
            }
        }),
{
    let list = match type_ids {
        Some(v) => v,
        None => Vec::new(),
    };
    if list.len() == 0 {
        if self_flag {
            TypeListQuery::TopLevel
        } else {
            TypeListQuery::EmptyPage
        }
    } else if self_flag {
        if crate::ids::contains_i64(&list, -1) {
            TypeListQuery::TopLevel
        } else {
            TypeListQuery::ChildrenOf(list)
        }
    } else if crate::ids::contains_i64(&list, -1) {
        TypeListQuery::Every
    } else {
        TypeListQuery::Only(list)
    }
}

/// The sort index a new type is stored with: the given one (0 by default)
/// clamped into `i32`.
pub fn new_type_sort_index(sort_index: Option<i64>) -> (res: i32)
    ensures
        res == clamp_i32(match sort_index {
            Some(s) => s,
            None => 0,
        }),
{
    clamp_i32_exec(match sort_index {
        Some(s) => s,
        None => 0,
    })
}

} // verus!
