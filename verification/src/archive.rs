//! Save slots: each slot keeps its archive history newest first, at most
//! five entries; saving the archive the slot already holds last writes
//! nothing, and restoring drops the newest entry.

use vstd::prelude::*;
use vstd::string::*;
use crate::text::{chars_of, parse_i64, parse_i64_exec, trim, trim_exec};

verus! {

/// Entries a slot keeps.
pub const MAX_HISTORY_PER_SLOT: usize = 5;

/// One archive of a slot: when it was saved (milliseconds) and its text.
pub struct ArchiveEntry {
    pub time: i64,
    pub archive: String,
}

/// The entries as plain values.
pub open spec fn entries_view(e: Seq<ArchiveEntry>) -> Seq<(i64, Seq<char>)> {
    e.map_values(|x: ArchiveEntry| (x.time, x.archive@))
}

/// A slot's history after saving `entry`: `None` (nothing written) when
/// the newest entry holds the same archive text; else the entry goes first
/// and the history keeps its five newest entries.
pub open spec fn saved_history(h: Seq<(i64, Seq<char>)>, entry: (i64, Seq<char>)) -> Option<Seq<(i64, Seq<char>)>> {
    if h.len() > 0 && h[0].1 == entry.1 {
        None
    } else {
        let n = seq![entry] + h;
        Some(if n.len() > MAX_HISTORY_PER_SLOT { n.take(MAX_HISTORY_PER_SLOT as int) } else { n })
    }
}

/// Saves an archive into a slot's history (`None`: the slot already holds
/// it last, and nothing is written).
pub fn save_entry(history: Vec<ArchiveEntry>, entry: ArchiveEntry) -> (res: Option<Vec<ArchiveEntry>>)
    ensures
        match (res, saved_history(entries_view(history@), (entry.time, entry.archive@))) {
            (Some(r), Some(s)) => entries_view(r@) == s,
            (None, None) => true,
            _ => false,
        },
{
    let mut history = history;
    if history.len() > 0 && history[0].archive == entry.archive {
        return None;
    }
    let ghost h = entries_view(history@);
    let ghost e = (entry.time, entry.archive@);
    history.insert(0, entry);
    assert(entries_view(history@) =~= seq![e] + h);
    if history.len() > MAX_HISTORY_PER_SLOT {
        history.truncate(MAX_HISTORY_PER_SLOT);
        assert(entries_view(history@) =~= (seq![e] + h).take(MAX_HISTORY_PER_SLOT as int));
    }
    Some(history)
}

/// Why a restore is refused.
#[derive(Clone, Copy, PartialEq, Eq, Structural, Debug)]
pub enum ArchiveError {
    Empty,
    SlotOutOfRange,
    NoSlot,
}

impl ArchiveError {
    /// The message sent back to the client.
    pub fn message(&self) -> (res: &'static str)
        ensures
            res@ == (match *self {
                ArchiveError::Empty => "存档为空，无历史存档"@,
                ArchiveError::SlotOutOfRange => "slot_index out of range"@,
                ArchiveError::NoSlot => "槽位不存在"@,
            }),
    {
        match self {
            ArchiveError::Empty => "存档为空，无历史存档",
            ArchiveError::SlotOutOfRange => "slot_index out of range",
            ArchiveError::NoSlot => "槽位不存在",
        }
    }
}

/// Restores a slot: the newest entry is dropped and returned; refused on
/// an empty history.
pub fn restore_entry(history: Vec<ArchiveEntry>) -> (res: Result<(ArchiveEntry, Vec<ArchiveEntry>), ArchiveError>)
    ensures
        history@.len() == 0 <==> res is Err,
        res is Err ==> res == Err::<(ArchiveEntry, Vec<ArchiveEntry>), ArchiveError>(ArchiveError::Empty),
        res matches Ok((e, rest)) ==> e == history@[0] && rest@ == history@.skip(1),
{
    let mut history = history;
    let ghost orig = history@;
    if history.len() == 0 {
        return Err(ArchiveError::Empty);
    }
    let e = history.remove(0);
    assert(history@ =~= orig.skip(1));
    Ok((e, history))
}

/// A restore undoes a save that wrote: it gives back the saved entry, and
/// the history before the save (without its oldest entry when the slot was
/// full).
pub proof fn restore_undoes_save(h: Seq<(i64, Seq<char>)>, entry: (i64, Seq<char>))
    requires
        saved_history(h, entry) is Some,
    ensures
        saved_history(h, entry)->0[0] == entry,
        saved_history(h, entry)->0.skip(1) == (if h.len() >= MAX_HISTORY_PER_SLOT {
            h.take(MAX_HISTORY_PER_SLOT - 1)
        } else {
            h
        }),
        saved_history(h, entry)->0.len() <= MAX_HISTORY_PER_SLOT,
{
    let n = seq![entry] + h;
    if n.len() > MAX_HISTORY_PER_SLOT {
        assert(n.take(MAX_HISTORY_PER_SLOT as int).skip(1) =~= h.take(MAX_HISTORY_PER_SLOT - 1));
    } else {
        assert(n.skip(1) =~= h);
    }
}

/// Saving the archive that a save just wrote writes nothing.
pub proof fn save_is_idempotent(h: Seq<(i64, Seq<char>)>, entry: (i64, Seq<char>), again: (i64, Seq<char>))
    requires
        saved_history(h, entry) is Some,
        again.1 == entry.1,
    ensures
        saved_history(saved_history(h, entry)->0, again) is None,
{
}

/// A slot index as the `i32` the slot column holds (refused when it does
/// not fit).
pub fn slot_index_of(slot_index: i64) -> (res: Result<i32, ArchiveError>)
    ensures
        i32::MIN <= slot_index <= i32::MAX ==> res == Ok::<i32, ArchiveError>(slot_index as i32),
        !(i32::MIN <= slot_index <= i32::MAX) ==> res == Err::<i32, ArchiveError>(ArchiveError::SlotOutOfRange),
{
    if slot_index < -2147483648i64 || slot_index > 2147483647i64 {
        Err(ArchiveError::SlotOutOfRange)
    } else {
        Ok(slot_index as i32)
    }
}

/// A stored `time` field: a number (its value when it is an `i64`), a
/// text, or anything else.
pub enum RawTime {
    Number(Option<i64>),
    Text(String),
    Other,
}

/// A stored history element: its `time` (if present) and its `archive`
/// (the text of a string, the JSON text of any other non-null value, or
/// `None` when null or absent).
pub struct RawEntry {
    pub time: Option<RawTime>,
    pub archive: Option<String>,
}

/// A stored `data` column: an array of elements, a bare text (an older
/// layout: one archive without a time), or anything else.
pub enum RawData {
    Array(Vec<RawEntry>),
    Text(String),
    Other,
}

/// The time of a stored element: a number's value, a text's value once
/// trimmed and parsed as `i64`; 0 when absent or unreadable.
pub open spec fn entry_time(t: Option<RawTime>) -> i64 {
    match t {
        Some(RawTime::Number(Some(n))) => n,
        Some(RawTime::Text(s)) => match parse_i64(trim(s@)) {
            Some(v) => v,
            None => 0,
        },
        _ => 0,
    }
}

/// A stored element as an entry: its time, and its archive text (empty
/// when it has none).
pub open spec fn raw_view(e: RawEntry) -> (i64, Seq<char>) {
    (entry_time(e.time), match e.archive {
        Some(a) => a@,
        None => Seq::empty(),
    })
}

/// The history that a stored column holds, newest first.
pub open spec fn parsed_history(d: RawData) -> Seq<(i64, Seq<char>)> {
    match d {
        RawData::Array(v) => v@.map_values(|e: RawEntry| raw_view(e)),
        RawData::Text(t) => seq![(0i64, t@)],
        RawData::Other => Seq::empty(),
    }
}

fn entry_time_exec(t: &Option<RawTime>) -> (res: i64)
    ensures
        res == entry_time(*t),
{
    match t {
        Some(RawTime::Number(Some(n))) => *n,
        Some(RawTime::Text(s)) => {
            let cs = chars_of(s.as_str());
            let tr = trim_exec(&cs);
            match parse_i64_exec(&tr) {
                Some(v) => v,
                None => 0,
            }
        },
        _ => 0,
    }
}

/// Reads a slot's stored history, newest first.
pub fn parse_entries(d: &RawData) -> (res: Vec<ArchiveEntry>)
    ensures
        entries_view(res@) == parsed_history(*d),
{
    let mut out: Vec<ArchiveEntry> = Vec::new();
    match d {
        RawData::Array(v) => {
            let mut i: usize = 0;
            while i < v.len()
                invariant
                    i <= v@.len(),
                    entries_view(out@) == v@.take(i as int).map_values(|e: RawEntry| raw_view(e)),
                decreases v@.len() - i,
            {
                let e = &v[i];
                let time = entry_time_exec(&e.time);
                let archive = match &e.archive {
                    Some(a) => a.clone(),
                    None => String::new(),
                };
                let ghost before = out@;
                out.push(ArchiveEntry { time, archive });
                proof {
                    assert(v@.take(i + 1) == v@.take(i as int).push(v@[i as int]));
                    assert(entries_view(out@) == entries_view(before).push((time, archive@)));
                    assert(raw_view(v@[i as int]) == (time, archive@));
                    assert(v@.take(i + 1).map_values(|e: RawEntry| raw_view(e)) == v@.take(i as int).map_values(
                        |e: RawEntry| raw_view(e),
                    ).push(raw_view(v@[i as int])));
                }
                i += 1;
            }
            assert(v@.take(v@.len() as int) == v@);
        },
        RawData::Text(t) => {
            out.push(ArchiveEntry { time: 0, archive: t.clone() });
            assert(entries_view(out@) =~= seq![(0i64, t@)]);
        },
        RawData::Other => {
            assert(entries_view(out@) =~= Seq::<(i64, Seq<char>)>::empty());
        },
    }
    out
}

/// Row `j` opens a run of rows of one slot.
pub open spec fn slot_start(slots: Seq<i32>, j: int) -> bool {
    j == 0 || slots[j - 1] != slots[j]
}

/// The rows, among the first `n`, that open a run of one slot.
pub open spec fn slot_starts(slots: Seq<i32>, n: int) -> Seq<usize>
    decreases n,
{
    if n <= 0 {
        Seq::empty()
    } else if slot_start(slots, n - 1) {
        slot_starts(slots, n - 1).push((n - 1) as usize)
    } else {
        slot_starts(slots, n - 1)
    }
}

proof fn lemma_slot_starts(slots: Seq<i32>, n: int)
    requires
        0 <= n <= slots.len() <= usize::MAX,
    ensures
        forall|r: int|
            0 <= r < slot_starts(slots, n).len() ==> (#[trigger] slot_starts(slots, n)[r] as int) < n && slot_start(
                slots,
                slot_starts(slots, n)[r] as int,
            ),
        forall|a: int, b: int|
            0 <= a < b < slot_starts(slots, n).len() ==> #[trigger] slot_starts(slots, n)[a] < #[trigger] slot_starts(
                slots,
                n,
            )[b],
        forall|j: int| 0 <= j < n && #[trigger] slot_start(slots, j) ==> slot_starts(slots, n).contains(j as usize),
    decreases n,
{
    if n > 0 {
        lemma_slot_starts(slots, n - 1);
        let p = slot_starts(slots, n - 1);
        let q = slot_starts(slots, n);
        assert forall|r: int| 0 <= r < p.len() implies q[r] == p[r] by {}
        assert forall|j: int| 0 <= j < n && #[trigger] slot_start(slots, j) implies q.contains(j as usize) by {
            if j < n - 1 {
                let r = choose|r: int| 0 <= r < p.len() && p[r] == j as usize;
                assert(q[r] == j as usize);
            } else {
                assert(q[q.len() - 1] == j as usize);
            }
        }
    }
}

proof fn lemma_run_start(slots: Seq<i32>, j: int)
    requires
        0 <= j < slots.len(),
    ensures
        exists|i: int| 0 <= i <= j && #[trigger] slot_start(slots, i) && slots[i] == slots[j],
    decreases j,
{
    if !slot_start(slots, j) {
        lemma_run_start(slots, j - 1);
        let i = choose|i: int| 0 <= i <= j - 1 && #[trigger] slot_start(slots, i) && slots[i] == slots[j - 1];
        assert(slot_start(slots, i) && slots[i] == slots[j]);
    } else {
        assert(slot_start(slots, j));
    }
}

/// Listing every slot keeps, in row order, exactly the rows that open a run
/// of one slot (the first row, and each row whose slot differs from the
/// row before); every slot that has a row has a kept row; and where the
/// rows come ordered by slot, the kept rows' slots strictly ascend, so each
/// slot is kept once.
pub proof fn one_row_per_slot(slots: Seq<i32>)
    requires
        slots.len() <= usize::MAX,
    ensures
        forall|j: int|
            0 <= j < slots.len() ==> (#[trigger] slot_starts(slots, slots.len() as int).contains(j as usize) <==> (j == 0
                || slots[j - 1] != slots[j])),
        forall|j: int|
            #![trigger slots[j]]
            0 <= j < slots.len() ==> exists|r: int|
                0 <= r < slot_starts(slots, slots.len() as int).len() && slots[#[trigger] slot_starts(
                    slots,
                    slots.len() as int,
                )[r] as int] == slots[j],
        (forall|a: int, b: int| 0 <= a < b < slots.len() ==> #[trigger] slots[a] <= #[trigger] slots[b]) ==> forall|
            a: int,
            b: int,
        |
            0 <= a < b < slot_starts(slots, slots.len() as int).len() ==> slots[#[trigger] slot_starts(
                slots,
                slots.len() as int,
            )[a] as int] < slots[#[trigger] slot_starts(slots, slots.len() as int)[b] as int],
{
    let n = slots.len() as int;
    lemma_slot_starts(slots, n);
    let k = slot_starts(slots, n);
    assert forall|j: int| 0 <= j < n implies (#[trigger] k.contains(j as usize) <==> (j == 0 || slots[j - 1]
        != slots[j])) by {
        if k.contains(j as usize) {
            let r = choose|r: int| 0 <= r < k.len() && k[r] == j as usize;
            assert(slot_start(slots, k[r] as int));
        } else {
            assert(!slot_start(slots, j));
        }
    }
    assert forall|j: int| #![trigger slots[j]] 0 <= j < n implies exists|r: int| 0 <= r < k.len() && slots[#[trigger] k[r] as int] == slots[j] by {
        lemma_run_start(slots, j);
        let i = choose|i: int| 0 <= i <= j && #[trigger] slot_start(slots, i) && slots[i] == slots[j];
        assert(k.contains(i as usize));
        let r = choose|r: int| 0 <= r < k.len() && k[r] == i as usize;
        assert(slots[k[r] as int] == slots[j]);
    }
    if forall|a: int, b: int| 0 <= a < b < slots.len() ==> #[trigger] slots[a] <= #[trigger] slots[b] {
        lemma_sorted_slot_starts(slots);
    }
}

proof fn lemma_sorted_slot_starts(slots: Seq<i32>)
    requires
        slots.len() <= usize::MAX,
        forall|a: int, b: int| 0 <= a < b < slots.len() ==> #[trigger] slots[a] <= #[trigger] slots[b],
    ensures
        forall|a: int, b: int|
            0 <= a < b < slot_starts(slots, slots.len() as int).len() ==> slots[#[trigger] slot_starts(
                slots,
                slots.len() as int,
            )[a] as int] < slots[#[trigger] slot_starts(slots, slots.len() as int)[b] as int],
{
    let n = slots.len() as int;
    lemma_slot_starts(slots, n);
    let k = slot_starts(slots, n);
    assert forall|a: int, b: int| 0 <= a < b < k.len() implies slots[#[trigger] k[a] as int] < slots[#[trigger] k[b] as int] by {
        let x = k[a] as int;
        let y = k[b] as int;
        assert(x < y);
        assert(slot_start(slots, y));
        assert(slots[y - 1] <= slots[y]);
        if x < y - 1 {
            assert(slots[x] <= slots[y - 1]);
        }
    }
}

/// The rows kept when listing every slot: rows come ordered by slot and,
/// within a slot, best first; the first row of each slot is kept.
pub fn first_row_per_slot(slots: &Vec<i32>) -> (res: Vec<usize>)
    ensures
        res@ == slot_starts(slots@, slots@.len() as int),
{
    let mut res: Vec<usize> = Vec::new();
    let mut j: usize = 0;
    while j < slots.len()
        invariant
            j <= slots@.len(),
            res@ == slot_starts(slots@, j as int),
        decreases slots@.len() - j,
    {
        if j == 0 || slots[j - 1] != slots[j] {
            res.push(j);
        }
        j += 1;
    }
    res
}

} // verus!
