//! The marker diff snapshot: a hand-written protobuf encoding of
//! `MarkerDiffSnapshotVoList { repeated MarkerDiffSnapshotVo snapshots = 1; }`
//! with `MarkerDiffSnapshotVo { uint64 version = 1; uint64 id = 2;
//! optional string linkage_id = 15; }`, and the join that builds its rows.

use vstd::prelude::*;
use vstd::string::*;
use vstd::utf8::*;
use std::collections::{HashMap, HashSet};
use vstd::relations::{sorted_by, total_ordering};
use crate::text::{decimal_string, decimal_text, push_text};

verus! {

/// One snapshot row. A `linkage_id` that is `None` or empty is not written.
pub struct DiffSnapshot {
    pub version: u64,
    pub id: u64,
    pub linkage_id: Option<String>,
}

/// LEB128 (protobuf varint) bytes of `v`: seven bits per byte, low bits
/// first, the high bit set on every byte but the last.
pub open spec fn varint(v: nat) -> Seq<u8>
    decreases v,
{
    if v < 128 {
        seq![v as u8]
    } else {
        seq![((v % 128) + 128) as u8] + varint(v / 128)
    }
}

/// Reads one varint from the front of `bytes`: the value and the number of
/// bytes it took, or `None` when the bytes end before a final byte.
pub open spec fn read_varint(bytes: Seq<u8>) -> Option<(nat, nat)>
    decreases bytes.len(),
{
    if bytes.len() == 0 {
        None
    } else if bytes[0] < 128 {
        Some((bytes[0] as nat, 1nat))
    } else {
        match read_varint(bytes.drop_first()) {
            Some((rest, n)) => Some((((bytes[0] - 128) + 128 * rest) as nat, n + 1)),
            None => None,
        }
    }
}

/// Protobuf field key: `field << 3 | wire`.
pub open spec fn field_key(field: nat, wire: nat) -> nat {
    field * 8 + wire
}

/// The wire bytes of one snapshot message (proto3: zero scalars and a
/// missing or empty linkage id are left out).
pub open spec fn snapshot_bytes(s: DiffSnapshot) -> Seq<u8> {
    (if s.version != 0 {
        varint(field_key(1, 0)) + varint(s.version as nat)
    } else {
        Seq::empty()
    }) + (if s.id != 0 {
        varint(field_key(2, 0)) + varint(s.id as nat)
    } else {
        Seq::empty()
    }) + (match s.linkage_id {
        Some(l) => if l@.len() > 0 {
            varint(field_key(15, 2)) + varint(encode_utf8(l@).len()) + encode_utf8(l@)
        } else {
            Seq::empty()
        },
        None => Seq::empty(),
    })
}

/// The wire bytes of the list message: each snapshot framed as field 1.
pub open spec fn snapshot_list_bytes(snaps: Seq<DiffSnapshot>) -> Seq<u8>
    decreases snaps.len(),
{
    if snaps.len() == 0 {
        Seq::empty()
    } else {
        let last = snapshot_bytes(snaps.last());
        snapshot_list_bytes(snaps.drop_last()) + varint(field_key(1, 2)) + varint(last.len())
            + last
    }
}

proof fn lemma_varint_step(v: u64)
    requires
        v >= 128,
    ensures
        (v & 0x7f) as nat == v as nat % 128,
        (v >> 7u64) as nat == v as nat / 128,
        ((v & 0x7f) | 0x80) as nat == (v as nat % 128) + 128,
        (v >> 7u64) < v,
{
    assert(v & 0x7f == v % 128) by (bit_vector);
    assert(v >> 7u64 == v / 128) by (bit_vector);
    assert((v & 0x7f) | 0x80 == (v & 0x7f) + 128) by (bit_vector);
    assert(v & 0x7f < 128) by (bit_vector);
}

/// Appends the varint encoding of `v`.
pub fn put_varint(buf: &mut Vec<u8>, v: u64)
    ensures
        final(buf)@ == old(buf)@ + varint(v as nat),
{
    let ghost start = buf@;
    let mut cur = v;
    while cur >= 128
        invariant
            buf@ + varint(cur as nat) == start + varint(v as nat),
        decreases cur,
    {
        proof {
            lemma_varint_step(cur);
        }
        let byte = ((cur & 0x7f) | 0x80) as u8;
        let ghost before = buf@;
        buf.push(byte);
        assert(varint(cur as nat) == seq![byte] + varint((cur >> 7u64) as nat));
        assert(buf@ + varint((cur >> 7u64) as nat) == before + varint(cur as nat));
        cur = cur >> 7;
    }
    buf.push(cur as u8);
    assert(varint(cur as nat) == seq![cur as u8]);
}

/// Protobuf field key `field << 3 | wire`.
pub fn tag(field: u64, wire: u64) -> (res: u64)
    requires
        field < 0x2000_0000_0000_0000,
        wire < 8,
    ensures
        res as nat == field_key(field as nat, wire as nat),
{
    assert((field << 3u64) | wire == field * 8 + wire) by (bit_vector)
        requires
            field < 0x2000_0000_0000_0000,
            wire < 8,
    ;
    (field << 3) | wire
}

fn append_bytes(buf: &mut Vec<u8>, bytes: &[u8])
    ensures
        final(buf)@ == old(buf)@ + bytes@,
{
    let ghost start = buf@;
    let mut i: usize = 0;
    while i < bytes.len()
        invariant
            i <= bytes.len(),
            buf@ == start + bytes@.take(i as int),
        decreases bytes.len() - i,
    {
        buf.push(bytes[i]);
        assert(bytes@.take(i + 1) == bytes@.take(i as int).push(bytes@[i as int]));
        i += 1;
    }
    assert(bytes@.take(bytes.len() as int) == bytes@);
}

/// The wire bytes of one snapshot message.
pub fn encode_snapshot(s: &DiffSnapshot) -> (res: Vec<u8>)
    ensures
        res@ == snapshot_bytes(*s),
{
    let mut msg: Vec<u8> = Vec::new();
    if s.version != 0 {
        put_varint(&mut msg, tag(1, 0));
        put_varint(&mut msg, s.version);
    }
    let ghost first = msg@;
    if s.id != 0 {
        put_varint(&mut msg, tag(2, 0));
        put_varint(&mut msg, s.id);
    }
    let ghost second = msg@;
    match &s.linkage_id {
        Some(lid) => {
            let l: &str = lid.as_str();
            if !l.is_empty() {
                let bytes = l.as_bytes();
                put_varint(&mut msg, tag(15, 2));
                put_varint(&mut msg, bytes.len() as u64);
                append_bytes(&mut msg, bytes);
            }
        },
        None => {},
    }
    msg
}

/// `MarkerDiffSnapshotVoList` bytes: every snapshot framed as field 1.
pub fn encode_diff_snapshot_list(snapshots: &[DiffSnapshot]) -> (res: Vec<u8>)
    ensures
        res@ == snapshot_list_bytes(snapshots@),
{
    let mut out: Vec<u8> = Vec::new();
    let mut i: usize = 0;
    while i < snapshots.len()
        invariant
            i <= snapshots.len(),
            out@ == snapshot_list_bytes(snapshots@.take(i as int)),
        decreases snapshots.len() - i,
    {
        let msg = encode_snapshot(&snapshots[i]);
        put_varint(&mut out, tag(1, 2));
        put_varint(&mut out, msg.len() as u64);
        append_bytes(&mut out, msg.as_slice());
        assert(snapshots@.take(i + 1).drop_last() == snapshots@.take(i as int));
        i += 1;
    }
    assert(snapshots@.take(snapshots.len() as int) == snapshots@);
    out
}


/// Whether a linkage row `(from_id, to_id, group_id)` touches marker `id`.
pub open spec fn touches(pair: (i64, i64, String), id: i64) -> bool {
    pair.0 == id || pair.1 == id
}

/// The group of the first linkage row that touches marker `id`.
pub open spec fn linkage_of(pairs: Seq<(i64, i64, String)>, id: i64) -> Option<Seq<char>>
    decreases pairs.len(),
{
    if pairs.len() == 0 {
        None
    } else {
        match linkage_of(pairs.drop_last(), id) {
            Some(g) => Some(g),
            None => if touches(pairs.last(), id) {
                Some(pairs.last().2@)
            } else {
                None
            },
        }
    }
}

proof fn lemma_linkage_of(pairs: Seq<(i64, i64, String)>, id: i64)
    ensures
        linkage_of(pairs, id) is None <==> forall|t: int| 0 <= t < pairs.len() ==> (#[trigger] pairs[t]).0 != id
            && pairs[t].1 != id,
        forall|t: int|
            0 <= t < pairs.len() && ((#[trigger] pairs[t]).0 == id || pairs[t].1 == id) && (forall|u: int|
                0 <= u < t ==> (#[trigger] pairs[u]).0 != id && pairs[u].1 != id) ==> linkage_of(pairs, id) == Some(
                pairs[t].2@,
            ),
    decreases pairs.len(),
{
    if pairs.len() > 0 {
        let p = pairs.drop_last();
        lemma_linkage_of(p, id);
        assert forall|t: int| 0 <= t < p.len() implies #[trigger] p[t] == pairs[t] by {}
        assert forall|t: int|
            0 <= t < pairs.len() && ((#[trigger] pairs[t]).0 == id || pairs[t].1 == id) && (forall|u: int|
                0 <= u < t ==> (#[trigger] pairs[u]).0 != id && pairs[u].1 != id) implies linkage_of(pairs, id) == Some(
            pairs[t].2@,
        ) by {
            if t < p.len() {
                assert(p[t] == pairs[t]);
                assert forall|u: int| 0 <= u < t implies (#[trigger] p[u]).0 != id && p[u].1 != id by {
                    assert(p[u] == pairs[u]);
                }
            } else {
                assert forall|u: int| 0 <= u < p.len() implies (#[trigger] p[u]).0 != id && p[u].1 != id by {
                    assert(p[u] == pairs[u]);
                }
            }
        }
        if linkage_of(pairs, id) is None {
            assert forall|t: int| 0 <= t < pairs.len() implies (#[trigger] pairs[t]).0 != id && pairs[t].1 != id by {
                if t < p.len() {
                    assert(p[t] == pairs[t]);
                }
            }
        } else if forall|t: int| 0 <= t < pairs.len() ==> (#[trigger] pairs[t]).0 != id && pairs[t].1 != id {
            assert forall|u: int| 0 <= u < p.len() implies (#[trigger] p[u]).0 != id && p[u].1 != id by {
                assert(p[u] == pairs[u]);
            }
            assert(pairs.last() == pairs[pairs.len() - 1]);
        }
    }
}

/// A snapshot's linkage group is that of the first linkage row that has
/// its marker at either end, and it has none exactly when no row has it.
pub proof fn snapshot_group_is_the_first_touching_row(pairs: Seq<(i64, i64, String)>, id: i64)
    ensures
        linkage_of(pairs, id) is None <==> forall|t: int| 0 <= t < pairs.len() ==> (#[trigger] pairs[t]).0 != id
            && pairs[t].1 != id,
        forall|t: int|
            0 <= t < pairs.len() && ((#[trigger] pairs[t]).0 == id || pairs[t].1 == id) && (forall|u: int|
                0 <= u < t ==> (#[trigger] pairs[u]).0 != id && pairs[u].1 != id) ==> linkage_of(pairs, id) == Some(
                pairs[t].2@,
            ),
{
    lemma_linkage_of(pairs, id);
}

/// The view of an optional string.
pub open spec fn opt_view(o: Option<String>) -> Option<Seq<char>> {
    match o {
        Some(s) => Some(s@),
        None => None,
    }
}

/// Joins `(version, id)` marker rows with linkage rows `(from_id, to_id,
/// group_id)`: each snapshot carries the group of the first linkage row that
/// touches its marker. Rows that touch no marker are ignored.
pub fn assemble_snapshots(markers: Vec<(i64, i64)>, linkage_pairs: &[(i64, i64, String)]) -> (res:
    Vec<DiffSnapshot>)
    ensures
        res@.len() == markers@.len(),
        forall|j: int|
            #![trigger res@[j]]
            0 <= j < markers@.len() ==> {
                &&& res@[j].version == markers@[j].0 as u64
                &&& res@[j].id == markers@[j].1 as u64
                &&& opt_view(res@[j].linkage_id) == linkage_of(linkage_pairs@, markers@[j].1)
            },
{
    broadcast use vstd::std_specs::hash::group_hash_axioms;

    let mut visible: HashSet<i64> = HashSet::new();
    let mut m: usize = 0;
    while m < markers.len()
        invariant
            m <= markers.len(),
            forall|v: i64| visible@.contains(v) <==> exists|j: int| 0 <= j < m && markers@[j].1 == v,
        decreases markers.len() - m,
    {
        visible.insert(markers[m].1);
        proof {
            assert forall|v: i64| visible@.contains(v) implies exists|j: int|
                0 <= j < m + 1 && markers@[j].1 == v by {
                if v != markers@[m as int].1 {
                    let j = choose|j: int| 0 <= j < m && markers@[j].1 == v;
                    assert(0 <= j < m + 1 && markers@[j].1 == v);
                } else {
                    assert(0 <= m < m + 1 && markers@[m as int].1 == v);
                }
            }
        }
        m += 1;
    }
    let mut linkage: HashMap<i64, usize> = HashMap::new();
    let mut i: usize = 0;
    while i < linkage_pairs.len()
        invariant
            i <= linkage_pairs.len(),
            forall|v: i64| visible@.contains(v) <==> exists|j: int| 0 <= j < markers@.len() && markers@[j].1 == v,
            forall|v: i64|
                #![trigger linkage@.contains_key(v)]
                linkage@.contains_key(v) ==> {
                    &&& linkage@[v] < i
                    &&& linkage_of(linkage_pairs@.take(i as int), v) == Some(
                        linkage_pairs@[linkage@[v] as int].2@,
                    )
                },
            forall|v: i64|
                #![trigger linkage_of(linkage_pairs@.take(i as int), v)]
                visible@.contains(v) && linkage_of(linkage_pairs@.take(i as int), v) is Some
                    ==> linkage@.contains_key(v),
        decreases linkage_pairs.len() - i,
    {
        let from = linkage_pairs[i].0;
        let to = linkage_pairs[i].1;
        let ghost before = linkage@;
        let ghost next = linkage_pairs@.take(i + 1);
        assert(next.drop_last() == linkage_pairs@.take(i as int));
        assert(next.last() == linkage_pairs@[i as int]);
        if visible.contains(&from) && !linkage.contains_key(&from) {
            linkage.insert(from, i);
        }
        if visible.contains(&to) && !linkage.contains_key(&to) {
            linkage.insert(to, i);
        }
        proof {
            assert forall|v: i64| #![trigger linkage@.contains_key(v)] linkage@.contains_key(v) implies {
                &&& linkage@[v] < i + 1
                &&& linkage_of(next, v) == Some(linkage_pairs@[linkage@[v] as int].2@)
            } by {
                if before.contains_key(v) {
                    assert(linkage@[v] == before[v]);
                } else {
                    assert(linkage@[v] == i);
                    assert(linkage_of(linkage_pairs@.take(i as int), v) is None);
                }
            }
            assert forall|v: i64|
                #![trigger linkage_of(next, v)]
                visible@.contains(v) && linkage_of(next, v) is Some implies linkage@.contains_key(v) by {
                if linkage_of(linkage_pairs@.take(i as int), v) is Some {
                    assert(before.contains_key(v));
                }
            }
        }
        i += 1;
    }
    assert(linkage_pairs@.take(linkage_pairs.len() as int) == linkage_pairs@);
    let mut res: Vec<DiffSnapshot> = Vec::new();
    let mut k: usize = 0;
    while k < markers.len()
        invariant
            k <= markers.len(),
            res@.len() == k,
            forall|v: i64| visible@.contains(v) <==> exists|j: int| 0 <= j < markers@.len() && markers@[j].1 == v,
            forall|v: i64|
                #![trigger linkage@.contains_key(v)]
                linkage@.contains_key(v) ==> {
                    &&& linkage@[v] < linkage_pairs@.len()
                    &&& linkage_of(linkage_pairs@, v) == Some(linkage_pairs@[linkage@[v] as int].2@)
                },
            forall|v: i64|
                #![trigger linkage_of(linkage_pairs@, v)]
                visible@.contains(v) && linkage_of(linkage_pairs@, v) is Some
                    ==> linkage@.contains_key(v),
            forall|j: int|
                #![trigger res@[j]]
                0 <= j < k ==> {
                    &&& res@[j].version == markers@[j].0 as u64
                    &&& res@[j].id == markers@[j].1 as u64
                    &&& opt_view(res@[j].linkage_id) == linkage_of(linkage_pairs@, markers@[j].1)
                },
        decreases markers.len() - k,
    {
        let (version, id) = markers[k];
        assert(visible@.contains(id)) by {
            assert(0 <= k < markers@.len() && markers@[k as int].1 == id);
        }
        let linkage_id = match linkage.get(&id) {
            Some(idx) => Some(linkage_pairs[*idx].2.clone()),
            None => None,
        };
        res.push(DiffSnapshot { version: version as u64, id: id as u64, linkage_id });
        k += 1;
    }
    res
}

/// Reading back the varint that `put_varint` wrote gives the value and the
/// exact number of bytes written, whatever follows it.
pub proof fn varint_roundtrip(v: nat, rest: Seq<u8>)
    ensures
        read_varint(varint(v) + rest) == Some((v, varint(v).len())),
    decreases v,
{
    let bytes = varint(v) + rest;
    if v < 128 {
        assert(bytes[0] == v as u8);
    } else {
        varint_roundtrip(v / 128, rest);
        assert(bytes.drop_first() == varint(v / 128) + rest);
        assert(bytes[0] == ((v % 128) + 128) as u8);
    }
}

/// The order of flags: ascending.
pub open spec fn flag_leq() -> spec_fn(i32, i32) -> bool {
    |a: i32, b: i32| a <= b
}

/// The flags joined by `,` in order.
pub open spec fn joined_flags(s: Seq<i32>) -> Seq<char>
    decreases s.len(),
{
    if s.len() == 0 {
        Seq::empty()
    } else if s.len() == 1 {
        decimal_text(s[0] as int)
    } else {
        joined_flags(s.drop_last()) + ","@ + decimal_text(s.last() as int)
    }
}

/// The cache key of a role's diff snapshot: `marker:diff_snapshot:` and
/// its allowed flags, ascending, joined by `,`.
pub open spec fn diff_snapshot_key_text(flags: Seq<i32>) -> Seq<char> {
    "marker:diff_snapshot:"@ + joined_flags(flags.sort_by(flag_leq()))
}

proof fn lemma_flag_leq_total()
    ensures
        total_ordering(flag_leq()),
{
}

/// The flags, ascending (duplicates kept).
fn sorted_flags(flags: &Vec<i32>) -> (res: Vec<i32>)
    ensures
        res@ == flags@.sort_by(flag_leq()),
{
    broadcast use vstd::seq_lib::group_to_multiset_ensures;
    let mut out: Vec<i32> = Vec::new();
    let mut i: usize = 0;
    while i < flags.len()
        invariant
            i <= flags@.len(),
            sorted_by(out@, flag_leq()),
            out@.to_multiset() == flags@.take(i as int).to_multiset(),
        decreases flags@.len() - i,
    {
        let x = flags[i];
        let mut p: usize = 0;
        while p < out.len() && out[p] <= x
            invariant
                p <= out@.len(),
                forall|a: int| 0 <= a < p ==> #[trigger] out@[a] <= x,
            decreases out@.len() - p,
        {
            p += 1;
        }
        let ghost old_out = out@;
        proof {
            assert forall|b: int| p <= b < old_out.len() implies x <= #[trigger] old_out[b] by {
                assert(flag_leq()(old_out[p as int], old_out[b]) || b == p);
            }
        }
        out.insert(p, x);
        proof {
            vstd::seq_lib::to_multiset_insert(old_out, p as int, x);
            assert(out@ == old_out.insert(p as int, x));
            assert(flags@.take(i + 1) =~= flags@.take(i as int).push(x));
            flags@.take(i as int).to_multiset_ensures();
            assert(flags@.take(i as int).push(x).to_multiset() =~= flags@.take(i as int).to_multiset().insert(x));
            assert(out@.to_multiset() == old_out.to_multiset().insert(x));
            assert forall|a: int, b: int| 0 <= a < b < out@.len() implies #[trigger] flag_leq()(out@[a], out@[b]) by {
                if b < p {
                    assert(flag_leq()(old_out[a], old_out[b]));
                } else if b == p {
                } else if a < p {
                } else if a == p {
                } else {
                    assert(flag_leq()(old_out[a - 1], old_out[b - 1]));
                }
            }
        }
        i += 1;
    }
    proof {
        assert(flags@.take(flags@.len() as int) =~= flags@);
        lemma_flag_leq_total();
        flags@.lemma_sort_by_ensures(flag_leq());
        vstd::seq_lib::lemma_sorted_unique(out@, flags@.sort_by(flag_leq()), flag_leq());
    }
    out
}

/// The cache key of a role's diff snapshot, from its allowed flags.
pub fn diff_snapshot_key(flags: &Vec<i32>) -> (res: String)
    ensures
        res@ == diff_snapshot_key_text(flags@),
{
    let sorted = sorted_flags(flags);
    let mut s = String::new();
    push_text(&mut s, "marker:diff_snapshot:");
    let ghost prefix = s@;
    let mut i: usize = 0;
    while i < sorted.len()
        invariant
            i <= sorted@.len(),
            prefix == "marker:diff_snapshot:"@,
            s@ == prefix + joined_flags(sorted@.take(i as int)),
        decreases sorted@.len() - i,
    {
        if i > 0 {
            push_text(&mut s, ",");
        }
        let d = decimal_string(sorted[i] as i64);
        push_text(&mut s, d.as_str());
        proof {
            let t = sorted@.take(i + 1);
            assert(t.drop_last() =~= sorted@.take(i as int));
            assert(t.last() == sorted@[i as int]);
            if i == 0 {
                assert(t.len() == 1);
                assert(joined_flags(sorted@.take(0)) =~= Seq::<char>::empty());
            }
        }
        i += 1;
    }
    assert(sorted@.take(sorted@.len() as int) =~= sorted@);
    s
}

} // verus!
