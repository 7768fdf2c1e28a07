//! Id lists: membership, and ascending lists without repeats.

use vstd::prelude::*;

verus! {

/// Each element is smaller than the next.
pub open spec fn strictly_increasing(s: Seq<i64>) -> bool {
    forall|a: int, b: int| 0 <= a < b < s.len() ==> s[a] < s[b]
}

/// Whether `v` holds `x`.
pub fn contains_i64(v: &Vec<i64>, x: i64) -> (res: bool)
    ensures
        res == v@.contains(x),
{
    let mut j: usize = 0;
    while j < v.len()
        invariant
            j <= v.len(),
            forall|t: int| 0 <= t < j ==> v@[t] != x,
        decreases v.len() - j,
    {
        if v[j] == x {
            return true;
        }
        j += 1;
    }
    false
}

/// Inserts `x` into an ascending list without repeats, keeping it so.
pub fn insert_sorted(v: &mut Vec<i64>, x: i64)
    requires
        strictly_increasing(old(v)@),
    ensures
        strictly_increasing(final(v)@),
        forall|m: i64| #[trigger] final(v)@.contains(m) <==> (old(v)@.contains(m) || m == x),
{
    let mut j: usize = 0;
    while j < v.len() && v[j] < x
        invariant
            j <= v@.len(),
            forall|t: int| 0 <= t < j ==> v@[t] < x,
        decreases v@.len() - j,
    {
        j += 1;
    }
    if j < v.len() && v[j] == x {
        return;
    }
    let ghost before = v@;
    v.insert(j, x);
    proof {
        assert(v@ == before.subrange(0, j as int).push(x) + before.subrange(j as int, before.len() as int));
        assert forall|a: int, b: int| 0 <= a < b < v@.len() implies v@[a] < v@[b] by {
            if b < j {
            } else if b == j {
            } else if a < j {
                assert(v@[b] == before[b - 1]);
                assert(before[b - 1] > x || before[b - 1] == x || before[b - 1] < x);
                if j < before.len() {
                    assert(before[j as int] > x);
                    assert(before[j as int] <= before[b - 1]);
                }
            } else if a == j {
                assert(v@[b] == before[b - 1]);
                assert(before[j as int] > x);
                assert(before[j as int] <= before[b - 1]);
            } else {
                assert(v@[a] == before[a - 1]);
                assert(v@[b] == before[b - 1]);
            }
        }
        assert forall|m: i64| #[trigger] v@.contains(m) <==> (before.contains(m) || m == x) by {
            if v@.contains(m) {
                let t = choose|t: int| 0 <= t < v@.len() && v@[t] == m;
                if t < j {
                    assert(before[t] == m);
                } else if t > j {
                    assert(before[t - 1] == m);
                }
            }
            if before.contains(m) {
                let t = choose|t: int| 0 <= t < before.len() && before[t] == m;
                if t < j {
                    assert(v@[t] == m);
                } else {
                    assert(v@[t + 1] == m);
                }
            }
            if m == x {
                assert(v@[j as int] == x);
            }
        }
    }
}

} // verus!
