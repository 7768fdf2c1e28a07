//! Grouping rows by a string key, first appearance first.

use vstd::prelude::*;

verus! {

/// Indices `i < n` with `keys[i] == k`, ascending.
pub open spec fn indices_with_key(keys: Seq<Seq<char>>, k: Seq<char>, n: int) -> Seq<usize>
    decreases n,
{
    if n <= 0 {
        Seq::empty()
    } else {
        let p = indices_with_key(keys, k, n - 1);
        if keys[n - 1] == k {
            p.push((n - 1) as usize)
        } else {
            p
        }
    }
}

proof fn lemma_indices_bounds(keys: Seq<Seq<char>>, k: Seq<char>, n: int)
    requires
        0 <= n <= keys.len(),
        keys.len() <= usize::MAX,
    ensures
        forall|j: int|
            0 <= j < indices_with_key(keys, k, n).len() ==> {
                &&& indices_with_key(keys, k, n)[j] < n
                &&& keys[indices_with_key(keys, k, n)[j] as int] == k
            },
    decreases n,
{
    if n > 0 {
        lemma_indices_bounds(keys, k, n - 1);
        let p = indices_with_key(keys, k, n - 1);
        assert forall|j: int| 0 <= j < indices_with_key(keys, k, n).len() implies {
            &&& indices_with_key(keys, k, n)[j] < n
            &&& keys[indices_with_key(keys, k, n)[j] as int] == k
        } by {
            if j < p.len() {
                assert(indices_with_key(keys, k, n)[j] == p[j]);
                assert(p[j] < n - 1 && keys[p[j] as int] == k);
            }
        }
    }
}

proof fn lemma_indices_nonempty(keys: Seq<Seq<char>>, k: Seq<char>, n: int, i: int)
    requires
        0 <= i < n <= keys.len(),
        keys[i] == k,
    ensures
        indices_with_key(keys, k, n).len() > 0,
    decreases n,
{
    if i < n - 1 {
        lemma_indices_nonempty(keys, k, n - 1, i);
    }
}

proof fn lemma_indices_members(keys: Seq<Seq<char>>, k: Seq<char>, n: int)
    requires
        0 <= n <= keys.len() <= usize::MAX,
    ensures
        forall|j: int| 0 <= j < n && #[trigger] keys[j] == k ==> indices_with_key(keys, k, n).contains(j as usize),
        forall|a: int, b: int|
            0 <= a < b < indices_with_key(keys, k, n).len() ==> #[trigger] indices_with_key(keys, k, n)[a]
                < #[trigger] indices_with_key(keys, k, n)[b],
    decreases n,
{
    if n > 0 {
        lemma_indices_members(keys, k, n - 1);
        lemma_indices_bounds(keys, k, n - 1);
        let p = indices_with_key(keys, k, n - 1);
        let q = indices_with_key(keys, k, n);
        assert forall|j: int| 0 <= j < n && #[trigger] keys[j] == k implies q.contains(j as usize) by {
            if j < n - 1 {
                let r = choose|r: int| 0 <= r < p.len() && p[r] == j as usize;
                assert(q[r] == p[r]);
            } else {
                assert(q[q.len() - 1] == j as usize);
            }
        }
        assert forall|a: int, b: int| 0 <= a < b < q.len() implies #[trigger] q[a] < #[trigger] q[b] by {
            assert(q[a] == p[a]);
            if b < p.len() {
                assert(q[b] == p[b]);
            }
        }
    }
}

/// The rows of a group are, in ascending order, exactly the rows that
/// carry its key.
pub proof fn group_rows_are_the_rows_with_its_key(keys: Seq<Seq<char>>, k: Seq<char>)
    requires
        keys.len() <= usize::MAX,
    ensures
        forall|r: int|
            0 <= r < indices_with_key(keys, k, keys.len() as int).len() ==> (#[trigger] indices_with_key(
                keys,
                k,
                keys.len() as int,
            )[r] as int) < keys.len() && keys[indices_with_key(keys, k, keys.len() as int)[r] as int] == k,
        forall|j: int|
            0 <= j < keys.len() && #[trigger] keys[j] == k ==> indices_with_key(keys, k, keys.len() as int).contains(
                j as usize,
            ),
        forall|a: int, b: int|
            0 <= a < b < indices_with_key(keys, k, keys.len() as int).len() ==> #[trigger] indices_with_key(
                keys,
                k,
                keys.len() as int,
            )[a] < #[trigger] indices_with_key(keys, k, keys.len() as int)[b],
{
    lemma_indices_bounds(keys, k, keys.len() as int);
    lemma_indices_members(keys, k, keys.len() as int);
}

/// Some group carries the key `k`.
pub open spec fn has_group(groups: Seq<(String, Vec<usize>)>, k: Seq<char>) -> bool {
    exists|g: int| 0 <= g < groups.len() && groups[g].0@ == k
}

fn find_group(groups: &Vec<(String, Vec<usize>)>, key: &String) -> (res: Option<usize>)
    ensures
        match res {
            Some(gi) => gi < groups@.len() && groups@[gi as int].0@ == key@,
            None => forall|g: int| 0 <= g < groups@.len() ==> groups@[g].0@ != key@,
        },
{
    let mut j: usize = 0;
    while j < groups.len()
        invariant
            j <= groups.len(),
            forall|g: int| 0 <= g < j ==> groups@[g].0@ != key@,
        decreases groups.len() - j,
    {
        if groups[j].0 == *key {
            return Some(j);
        }
        j += 1;
    }
    None
}

/// Groups row indices by key: one entry per distinct key, in the order in
/// which the keys first appear, holding the key and the ascending indices
/// of the rows that carry it.
pub fn group_by_key(keys: &Vec<String>) -> (res: Vec<(String, Vec<usize>)>)
    ensures
        forall|g: int|
            #![trigger res@[g]]
            0 <= g < res@.len() ==> res@[g].1@ == indices_with_key(
                keys@.map_values(|s: String| s@),
                res@[g].0@,
                keys@.len() as int,
            ) && res@[g].1@.len() > 0,
        forall|g: int, h: int|
            #![trigger res@[g], res@[h]]
            0 <= g < h < res@.len() ==> res@[g].0@ != res@[h].0@,
        forall|i: int|
            #![trigger keys@[i]]
            0 <= i < keys@.len() ==> has_group(res@, keys@[i]@),
        forall|g: int, h: int|
            #![trigger res@[g], res@[h]]
            0 <= g < h < res@.len() ==> res@[g].1@[0] < res@[h].1@[0],
{
    let ghost ks = keys@.map_values(|s: String| s@);
    let mut groups: Vec<(String, Vec<usize>)> = Vec::new();
    let mut i: usize = 0;
    while i < keys.len()
        invariant
            i <= keys.len(),
            ks == keys@.map_values(|s: String| s@),
            forall|g: int|
                #![trigger groups@[g]]
                0 <= g < groups@.len() ==> groups@[g].1@ == indices_with_key(ks, groups@[g].0@, i as int)
                    && groups@[g].1@.len() > 0,
            forall|g: int, h: int|
                #![trigger groups@[g], groups@[h]]
                0 <= g < h < groups@.len() ==> groups@[g].0@ != groups@[h].0@,
            forall|j: int|
                #![trigger ks[j]]
                0 <= j < i ==> has_group(groups@, ks[j]),
            forall|g: int, h: int|
                #![trigger groups@[g], groups@[h]]
                0 <= g < h < groups@.len() ==> groups@[g].1@[0] < groups@[h].1@[0],
            forall|g: int| #![trigger groups@[g]] 0 <= g < groups@.len() ==> groups@[g].1@[0] < i,
        decreases keys.len() - i,
    {
        let ghost k = keys@[i as int]@;
        assert(ks[i as int] == k);
        let found = find_group(&groups, &keys[i]);
        let ghost old_groups = groups@;
        match found {
            Some(gi) => {
                let mut entry = groups.remove(gi);
                entry.1.push(i);
                groups.insert(gi, entry);
                proof {
                    assert forall|g: int| #![trigger groups@[g]] 0 <= g < groups@.len() implies groups@[g].1@
                        == indices_with_key(ks, groups@[g].0@, i + 1) && groups@[g].1@.len() > 0 by {
                        if g != gi {
                            assert(groups@[g] == old_groups[g]);
                        }
                    }
                    assert forall|g: int| #![trigger groups@[g]] 0 <= g < groups@.len() implies groups@[g].1@[0]
                        == old_groups[g].1@[0] by {
                        if g != gi {
                            assert(groups@[g] == old_groups[g]);
                        } else {
                            assert(groups@[g].1@ == old_groups[g].1@.push(i));
                        }
                    }
                }
            },
            None => {
                let gi = groups.len();
                let mut list: Vec<usize> = Vec::new();
                list.push(i);
                groups.push((keys[i].clone(), list));
                proof {
                    assert(indices_with_key(ks, k, i as int).len() == 0) by {
                        if indices_with_key(ks, k, i as int).len() > 0 {
                            lemma_indices_bounds(ks, k, i as int);
                            let j = indices_with_key(ks, k, i as int)[0] as int;
                            let g = choose|g: int| 0 <= g < old_groups.len() && old_groups[g].0@ == ks[j];
                        }
                    }
                    assert(indices_with_key(ks, k, i as int) == Seq::<usize>::empty());
                    assert forall|g: int| #![trigger groups@[g]] 0 <= g < groups@.len() implies groups@[g].1@
                        == indices_with_key(ks, groups@[g].0@, i + 1) && groups@[g].1@.len() > 0 by {
                        if g < gi {
                            assert(groups@[g] == old_groups[g]);
                        }
                    }
                    assert forall|g: int| #![trigger groups@[g]] 0 <= g < gi implies groups@[g] == old_groups[g] by {}
                    assert(groups@[gi as int].1@[0] == i);
                }
            },
        }
        proof {
            assert forall|j: int| #![trigger ks[j]] 0 <= j < i + 1 implies has_group(groups@, ks[j]) by {
                if j < i {
                    let g = choose|g: int| 0 <= g < old_groups.len() && old_groups[g].0@ == ks[j];
                    assert(groups@[g].0@ == old_groups[g].0@);
                } else {
                    match found {
                        Some(gi) => { assert(groups@[gi as int].0@ == k); },
                        None => { assert(groups@[old_groups.len() as int].0@ == k); },
                    }
                }
            }
        }
        i += 1;
    }
    proof {
        assert forall|j: int| #![trigger keys@[j]] 0 <= j < keys@.len() implies has_group(groups@, keys@[j]@) by {
            assert(ks[j] == keys@[j]@);
        }
    }
    groups
}

} // verus!
