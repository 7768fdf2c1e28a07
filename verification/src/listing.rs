//! List requests of the history, action-log, device and icon tables: the
//! filters and orders they ask for and the pages they read.

use vstd::prelude::*;
use crate::text::{chars_of, parse_i64, parse_i64_exec, text_eq, trim, trim_exec};
use crate::item::{all_known, all_known_exec};
use chrono::{TimeZone, Utc};

verus! {

/// Splitting the first `n` characters at `c`: the finished fields and the
/// field in progress.
pub open spec fn split_state(s: Seq<char>, c: char, n: int) -> (Seq<Seq<char>>, Seq<char>)
    decreases n,
{
    if n <= 0 {
        (Seq::empty(), Seq::empty())
    } else {
        let (f, cur) = split_state(s, c, n - 1);
        if s[n - 1] == c {
            (f.push(cur), Seq::empty())
        } else {
            (f, cur.push(s[n - 1]))
        }
    }
}

/// The fields of `s` between the occurrences of `c` (`str::split`).
pub open spec fn split_fields(s: Seq<char>, c: char) -> Seq<Seq<char>> {
    let (f, cur) = split_state(s, c, s.len() as int);
    f.push(cur)
}

/// Fields joined back with `c` between each two.
pub open spec fn joined_with(fields: Seq<Seq<char>>, c: char) -> Seq<char>
    decreases fields.len(),
{
    if fields.len() == 0 {
        Seq::empty()
    } else if fields.len() == 1 {
        fields[0]
    } else {
        joined_with(fields.drop_last(), c) + seq![c] + fields.last()
    }
}

proof fn lemma_split_state(s: Seq<char>, c: char, n: int)
    requires
        0 <= n <= s.len(),
    ensures
        joined_with(split_state(s, c, n).0.push(split_state(s, c, n).1), c) == s.take(n),
        forall|i: int, j: int|
            0 <= i < split_state(s, c, n).0.len() && 0 <= j < split_state(s, c, n).0[i].len() ==> #[trigger] split_state(
                s,
                c,
                n,
            ).0[i][j] != c,
        forall|j: int| 0 <= j < split_state(s, c, n).1.len() ==> #[trigger] split_state(s, c, n).1[j] != c,
    decreases n,
{
    if n == 0 {
        assert(s.take(0) =~= Seq::<char>::empty());
        assert(split_state(s, c, 0).0.push(split_state(s, c, 0).1).len() == 1);
    } else {
        lemma_split_state(s, c, n - 1);
        let (f, cur) = split_state(s, c, n - 1);
        let x = s[n - 1];
        assert(s.take(n) =~= s.take(n - 1).push(x));
        if x == c {
            let g = f.push(cur).push(Seq::<char>::empty());
            assert(g.drop_last() == f.push(cur));
            assert(joined_with(g, c) =~= s.take(n - 1) + seq![c] + Seq::<char>::empty());
            assert(joined_with(g, c) =~= s.take(n));
            let f2 = f.push(cur);
            assert forall|i: int, j: int| 0 <= i < f2.len() && 0 <= j < f2[i].len() implies #[trigger] f2[i][j] != c by {
                if i < f.len() {
                    assert(f2[i] == f[i]);
                }
            }
        } else {
            let g = f.push(cur.push(x));
            if f.len() == 0 {
                assert(joined_with(f.push(cur), c) == cur);
                assert(joined_with(g, c) == cur.push(x));
            } else {
                assert(g.drop_last() == f);
                assert(f.push(cur).drop_last() == f);
                assert(joined_with(g, c) =~= joined_with(f, c) + seq![c] + cur.push(x));
                assert(joined_with(f.push(cur), c) == joined_with(f, c) + seq![c] + cur);
            }
            assert(joined_with(g, c) =~= s.take(n));
            assert forall|j: int| 0 <= j < cur.push(x).len() implies #[trigger] cur.push(x)[j] != c by {
                if j < cur.len() {
                    assert(cur.push(x)[j] == cur[j]);
                }
            }
        }
    }
}

/// Splitting at `c` loses nothing and keeps no `c` in a field: the fields
/// joined back with `c` give the text again, and no field holds `c`.
pub proof fn split_fields_join_back(s: Seq<char>, c: char)
    ensures
        joined_with(split_fields(s, c), c) == s,
        forall|i: int, j: int|
            0 <= i < split_fields(s, c).len() && 0 <= j < split_fields(s, c)[i].len() ==> #[trigger] split_fields(s, c)[i][j]
                != c,
{
    lemma_split_state(s, c, s.len() as int);
    assert(s.take(s.len() as int) =~= s);
    let (f, cur) = split_state(s, c, s.len() as int);
    let g = f.push(cur);
    assert forall|i: int, j: int| 0 <= i < g.len() && 0 <= j < g[i].len() implies #[trigger] g[i][j] != c by {
        if i < f.len() {
            assert(g[i] == f[i]);
        } else {
            assert(g[i] == cur);
        }
    }
}

/// The ids that the first `n` fields read as (trimmed; fields that are no
/// `i64` are skipped).
pub open spec fn field_ids(fields: Seq<Seq<char>>, n: int) -> Seq<i64>
    decreases n,
{
    if n <= 0 {
        Seq::empty()
    } else {
        match parse_i64(trim(fields[n - 1])) {
            Some(v) => field_ids(fields, n - 1).push(v),
            None => field_ids(fields, n - 1),
        }
    }
}

proof fn lemma_field_ids_push(fields: Seq<Seq<char>>, x: Seq<char>, n: int)
    requires
        0 <= n <= fields.len(),
    ensures
        field_ids(fields.push(x), n) == field_ids(fields, n),
    decreases n,
{
    if n > 0 {
        lemma_field_ids_push(fields, x, n - 1);
    }
}

proof fn lemma_field_ids_filter(fields: Seq<Seq<char>>, n: int)
    requires
        0 <= n <= fields.len(),
    ensures
        field_ids(fields, n) == fields.take(n).filter(|f: Seq<char>| parse_i64(trim(f)) is Some).map_values(
            |f: Seq<char>| parse_i64(trim(f))->0,
        ),
    decreases n,
{
    let pred = |f: Seq<char>| parse_i64(trim(f)) is Some;
    let g = |f: Seq<char>| parse_i64(trim(f))->0;
    if n == 0 {
        reveal(Seq::filter);
        assert(fields.take(0).filter(pred).map_values(g) =~= Seq::<i64>::empty());
    } else {
        lemma_field_ids_filter(fields, n - 1);
        assert(fields.take(n) =~= fields.take(n - 1).push(fields[n - 1]));
        fields.take(n - 1).lemma_filter_push(fields[n - 1], pred);
        let m = fields.take(n - 1).filter(pred);
        assert(m.push(fields[n - 1]).map_values(g) =~= m.map_values(g).push(g(fields[n - 1])));
    }
}

/// The creator ids of a filter text are, in order, the values of its
/// comma-separated fields that read as an `i64` once trimmed; the other
/// fields are skipped.
pub proof fn creator_ids_are_the_numeric_fields(s: Seq<char>)
    ensures
        creator_ids(s) == split_fields(s, ',').filter(|f: Seq<char>| parse_i64(trim(f)) is Some).map_values(
            |f: Seq<char>| parse_i64(trim(f))->0,
        ),
{
    let fs = split_fields(s, ',');
    lemma_field_ids_filter(fs, fs.len() as int);
    assert(fs.take(fs.len() as int) =~= fs);
}

/// The creator ids of a history filter: the comma-separated fields that
/// read as ids, in order.
pub open spec fn creator_ids(s: Seq<char>) -> Seq<i64> {
    field_ids(split_fields(s, ','), split_fields(s, ',').len() as int)
}

fn field_value(cur: &Vec<char>) -> (res: Option<i64>)
    ensures
        res == parse_i64(trim(cur@)),
{
    let t = trim_exec(cur);
    parse_i64_exec(&t)
}

/// Reads the creator ids of a history filter.
pub fn parse_creator_ids(s: &str) -> (res: Vec<i64>)
    ensures
        res@ == creator_ids(s@),
{
    let cs = chars_of(s);
    let mut out: Vec<i64> = Vec::new();
    let mut cur: Vec<char> = Vec::new();
    let mut i: usize = 0;
    while i < cs.len()
        invariant
            i <= cs@.len(),
            cs@ == s@,
            out@ == field_ids(split_state(s@, ',', i as int).0, split_state(s@, ',', i as int).0.len() as int),
            cur@ == split_state(s@, ',', i as int).1,
        decreases cs@.len() - i,
    {
        let ghost st = split_state(s@, ',', i as int);
        if cs[i] == ',' {
            let v = field_value(&cur);
            proof {
                lemma_field_ids_push(st.0, cur@, st.0.len() as int);
            }
            if let Some(x) = v {
                out.push(x);
            }
            cur = Vec::new();
            assert(cur@ =~= Seq::<char>::empty());
        } else {
            cur.push(cs[i]);
        }
        i += 1;
    }
    let ghost st = split_state(s@, ',', s@.len() as int);
    let v = field_value(&cur);
    proof {
        lemma_field_ids_push(st.0, cur@, st.0.len() as int);
    }
    if let Some(x) = v {
        out.push(x);
    }
    out
}

/// How the history list filters on creators.
pub enum CreatorFilter {
    Any,
    Is(i64),
    AnyOf(Vec<i64>),
}

/// The creator filter of the ids read: none filters nothing, one filters
/// on equality, more on membership.
pub fn creator_filter(ids: Vec<i64>) -> (res: CreatorFilter)
    ensures
        ids@.len() == 0 ==> res is Any,
        ids@.len() == 1 ==> res == CreatorFilter::Is(ids@[0]),
        ids@.len() > 1 ==> (res matches CreatorFilter::AnyOf(v) && v@ == ids@),
{
    if ids.len() == 0 {
        CreatorFilter::Any
    } else if ids.len() == 1 {
        CreatorFilter::Is(ids[0])
    } else {
        CreatorFilter::AnyOf(ids)
    }
}

/// Whether `chrono` can represent the instant `secs` seconds after the
/// epoch.
pub uninterp spec fn secs_in_range(secs: i64) -> bool;

/// `chrono::Utc.timestamp_opt(secs, 0).single()`, read back as
/// microseconds. It gives the one instant `secs` whole seconds after the
/// epoch, or nothing when that is out of range; which counts are in range
/// is left to the name.
#[verifier::external_body]
fn micros_of_secs(secs: i64) -> (res: Option<i64>)
    ensures
        res is Some <==> secs_in_range(secs),
        res matches Some(t) ==> t == secs * 1000000,
{
    match Utc.timestamp_opt(secs, 0).single() {
        Some(dt) => Some(dt.timestamp_micros()),
        None => None,
    }
}

/// A history filter bound that names no instant.
#[derive(Clone, Copy, PartialEq, Eq, Structural, Debug)]
pub enum BoundError {
    InvalidStart,
    InvalidEnd,
}

impl BoundError {
    /// The message sent back to the client.
    pub fn message(&self) -> (res: &'static str)
        ensures
            res@ == (match *self {
                BoundError::InvalidStart => "Invalid start timestamp"@,
                BoundError::InvalidEnd => "Invalid end timestamp"@,
            }),
    {
        match self {
            BoundError::InvalidStart => "Invalid start timestamp",
            BoundError::InvalidEnd => "Invalid end timestamp",
        }
    }
}

/// The instant of a bound's seconds, or the bound's error.
pub fn bound_of(secs: Option<i64>, micros: Option<i64>, err: BoundError) -> (res: Result<Option<i64>, BoundError>)
    ensures
        res == (match secs {
            None => Ok(None),
            Some(_) => match micros {
                Some(t) => Ok(Some(t)),
                None => Err(err),
            },
        }),
{
    match secs {
        None => Ok(None),
        Some(_) => match micros {
            Some(t) => Ok(Some(t)),
            None => Err(err),
        },
    }
}

/// The time window of a history list (microseconds): each given bound
/// must name an instant.
pub fn history_window(start: Option<i64>, end: Option<i64>) -> (res: Result<(Option<i64>, Option<i64>), BoundError>)
    ensures
        ({
            let s = match start {
                None => Ok(None),
                Some(x) => if secs_in_range(x) { Ok(Some((x * 1000000) as i64)) } else { Err(BoundError::InvalidStart) },
            };
            let e = match end {
                None => Ok(None),
                Some(x) => if secs_in_range(x) { Ok(Some((x * 1000000) as i64)) } else { Err(BoundError::InvalidEnd) },
            };
            res == (match s {
                Err(x) => Err(x),
                Ok(a) => match e {
                    Err(x) => Err(x),
                    Ok(b) => Ok((a, b)),
                },
            })
        }),
{
    let sm = match start {
        Some(x) => micros_of_secs(x),
        None => None,
    };
    let a = match bound_of(start, sm, BoundError::InvalidStart) {
        Ok(a) => a,
        Err(e) => {
            return Err(e);
        },
    };
    let em = match end {
        Some(x) => micros_of_secs(x),
        None => None,
    };
    let b = match bound_of(end, em, BoundError::InvalidEnd) {
        Ok(b) => b,
        Err(e) => {
            return Err(e);
        },
    };
    Ok((a, b))
}

/// An order of the history list.
#[derive(Clone, Copy, PartialEq, Eq, Structural, Debug)]
pub enum HistorySort {
    UpdateTimeAsc,
    UpdateTimeDesc,
}

/// The orders of a history list: those asked for, or newest update first
/// when none is asked for.
pub fn history_sorts(sorts: Option<Vec<HistorySort>>) -> (res: Vec<HistorySort>)
    ensures
        match sorts {
            Some(v) => res@ == v@,
            None => res@ == seq![HistorySort::UpdateTimeDesc],
        },
{
    match sorts {
        Some(v) => v,
        None => {
            let mut r: Vec<HistorySort> = Vec::new();
            r.push(HistorySort::UpdateTimeDesc);
            r
        },
    }
}

/// The offset of a page of `size`: `(current - 1)` (saturating, taken as
/// `u64`) times the size, saturating.
pub open spec fn offset_of(size: u64, current: i64) -> u64 {
    let before: u64 = (if current == i64::MIN { i64::MIN } else { (current - 1) as i64 }) as u64;
    if before * size > u64::MAX { u64::MAX } else { (before * size) as u64 }
}

fn offset_exec(size: u64, current: i64) -> (res: u64)
    ensures
        res == offset_of(size, current),
{
    let back: i64 = if current == i64::MIN { current } else { current - 1 };
    let before: u64 = back as u64;
    match before.checked_mul(size) {
        Some(v) => v,
        None => u64::MAX,
    }
}

/// The page of a history list: only when both the page and its size are
/// given; the size as `u64`, uncapped.
pub fn history_page(size: Option<i64>, current: Option<i64>) -> (res: Option<(u64, u64)>)
    ensures
        res == (match (size, current) {
            (Some(s), Some(c)) => Some((s as u64, offset_of(s as u64, c))),
            _ => None,
        }),
{
    match (size, current) {
        (Some(s), Some(c)) => Some((s as u64, offset_exec(s as u64, c))),
        _ => None,
    }
}

/// The page of an icon list: only when both the page and its size are
/// given; the size at most 200, as `u64`.
pub fn icon_page(size: Option<i64>, current: Option<i64>) -> (res: Option<(u64, u64)>)
    ensures
        res == (match (size, current) {
            (Some(s), Some(c)) => {
                let z: i64 = if s < 200 { s } else { 200 };
                Some((z as u64, offset_of(z as u64, c)))
            },
            _ => None,
        }),
{
    match (size, current) {
        (Some(s), Some(c)) => {
            let z: i64 = if s < 200 { s } else { 200 };
            Some((z as u64, offset_exec(z as u64, c)))
        },
        _ => None,
    }
}

/// The icon ids a list filters on: `icon_list`, else `icon_id_list`; only
/// when not empty.
pub fn icon_id_filter(icon_list: Option<Vec<i64>>, icon_id_list: Option<Vec<i64>>) -> (res: Option<Vec<i64>>)
    ensures
        ({
            let chosen = match icon_list {
                Some(v) => Some(v@),
                None => match icon_id_list {
                    Some(v) => Some(v@),
                    None => None,
                },
            };
            match chosen {
                Some(v) => if v.len() > 0 { res matches Some(r) && r@ == v } else { res is None },
                None => res is None,
            }
        }),
{
    let chosen = match icon_list {
        Some(v) => Some(v),
        None => icon_id_list,
    };
    match chosen {
        Some(v) => if v.len() > 0 {
            Some(v)
        } else {
            None
        },
        None => None,
    }
}

/// A type named for an icon that does not exist.
#[derive(Clone, Copy, PartialEq, Eq, Structural, Debug)]
pub struct IconTypeMismatch;

impl IconTypeMismatch {
    /// The message sent back to the client.
    pub fn message(&self) -> (res: &'static str)
        ensures
            res@ == "类型ID错误"@,
    {
        "类型ID错误"
    }
}

/// Checks the types named for an icon against the ids found among the live
/// types: every named id must be found (an id named twice is found once).
pub fn check_icon_types(named: &Vec<i64>, found: &Vec<i64>) -> (res: Result<(), IconTypeMismatch>)
    ensures
        res is Ok <==> all_known(named@, found@),
{
    if all_known_exec(named, found) {
        Ok(())
    } else {
        Err(IconTypeMismatch)
    }
}

/// How the action log filters on the action.
#[derive(Clone, Copy, PartialEq, Eq, Structural, Debug)]
pub enum ActionFilter {
    Any,
    Login,
    /// An action number that names no action: the list answers empty.
    Unknown(i64),
}

/// The action filter of a request: 0 is the login action.
pub fn action_filter(action: Option<i64>) -> (res: ActionFilter)
    ensures
        res == (match action {
            None => ActionFilter::Any,
            Some(a) => if a == 0 { ActionFilter::Login } else { ActionFilter::Unknown(a) },
        }),
{
    match action {
        None => ActionFilter::Any,
        Some(a) => if a == 0 {
            ActionFilter::Login
        } else {
            ActionFilter::Unknown(a)
        },
    }
}

/// A column of the action log.
#[derive(Clone, Copy, PartialEq, Eq, Structural, Debug)]
pub enum LogColumn {
    CreateTime,
    DeviceId,
    Id,
    Ipv4,
    IsError,
    UpdateTime,
}

/// The order a sort key names: a column name with `+` (ascending) or `-`
/// (descending); any other key names none.
pub open spec fn log_sort_of(key: Seq<char>) -> Option<(LogColumn, bool)> {
    if key == "createTime+"@ {
        Some((LogColumn::CreateTime, false))
    } else if key == "createTime-"@ {
        Some((LogColumn::CreateTime, true))
    } else if key == "deviceId+"@ {
        Some((LogColumn::DeviceId, false))
    } else if key == "deviceId-"@ {
        Some((LogColumn::DeviceId, true))
    } else if key == "id+"@ {
        Some((LogColumn::Id, false))
    } else if key == "id-"@ {
        Some((LogColumn::Id, true))
    } else if key == "ipv4+"@ {
        Some((LogColumn::Ipv4, false))
    } else if key == "ipv4-"@ {
        Some((LogColumn::Ipv4, true))
    } else if key == "isError+"@ {
        Some((LogColumn::IsError, false))
    } else if key == "isError-"@ {
        Some((LogColumn::IsError, true))
    } else if key == "updateTime+"@ {
        Some((LogColumn::UpdateTime, false))
    } else if key == "updateTime-"@ {
        Some((LogColumn::UpdateTime, true))
    } else {
        None
    }
}

/// The order a sort key names.
pub fn log_sort(key: &str) -> (res: Option<(LogColumn, bool)>)
    ensures
        res == log_sort_of(key@),
{
    if text_eq(key, "createTime+") {
        Some((LogColumn::CreateTime, false))
    } else if text_eq(key, "createTime-") {
        Some((LogColumn::CreateTime, true))
    } else if text_eq(key, "deviceId+") {
        Some((LogColumn::DeviceId, false))
    } else if text_eq(key, "deviceId-") {
        Some((LogColumn::DeviceId, true))
    } else if text_eq(key, "id+") {
        Some((LogColumn::Id, false))
    } else if text_eq(key, "id-") {
        Some((LogColumn::Id, true))
    } else if text_eq(key, "ipv4+") {
        Some((LogColumn::Ipv4, false))
    } else if text_eq(key, "ipv4-") {
        Some((LogColumn::Ipv4, true))
    } else if text_eq(key, "isError+") {
        Some((LogColumn::IsError, false))
    } else if text_eq(key, "isError-") {
        Some((LogColumn::IsError, true))
    } else if text_eq(key, "updateTime+") {
        Some((LogColumn::UpdateTime, false))
    } else if text_eq(key, "updateTime-") {
        Some((LogColumn::UpdateTime, true))
    } else {
        None
    }
}

/// The orders that the first `n` keys name (unknown keys skipped).
pub open spec fn log_sorts_of(keys: Seq<String>, n: int) -> Seq<(LogColumn, bool)>
    decreases n,
{
    if n <= 0 {
        Seq::empty()
    } else {
        match log_sort_of(keys[n - 1]@) {
            Some(o) => log_sorts_of(keys, n - 1).push(o),
            None => log_sorts_of(keys, n - 1),
        }
    }
}

proof fn lemma_log_sorts_filter(keys: Seq<String>, n: int)
    requires
        0 <= n <= keys.len(),
    ensures
        log_sorts_of(keys, n) == keys.take(n).filter(|k: String| log_sort_of(k@) is Some).map_values(
            |k: String| log_sort_of(k@)->0,
        ),
    decreases n,
{
    let pred = |k: String| log_sort_of(k@) is Some;
    let f = |k: String| log_sort_of(k@)->0;
    if n == 0 {
        reveal(Seq::filter);
        assert(keys.take(0).filter(pred).map_values(f) =~= Seq::<(LogColumn, bool)>::empty());
    } else {
        lemma_log_sorts_filter(keys, n - 1);
        assert(keys.take(n) =~= keys.take(n - 1).push(keys[n - 1]));
        keys.take(n - 1).lemma_filter_push(keys[n - 1], pred);
        let m = keys.take(n - 1).filter(pred);
        assert(m.push(keys[n - 1]).map_values(f) =~= m.map_values(f).push(f(keys[n - 1])));
    }
}

/// The orders of a sort-key list are those of its known keys, in list
/// order: unknown keys are skipped, nothing else is dropped or reordered.
pub proof fn sort_keys_keep_known_ones_in_order(keys: Seq<String>)
    ensures
        log_sorts_of(keys, keys.len() as int) == keys.filter(|k: String| log_sort_of(k@) is Some).map_values(
            |k: String| log_sort_of(k@)->0,
        ),
{
    lemma_log_sorts_filter(keys, keys.len() as int);
    assert(keys.take(keys.len() as int) =~= keys);
}

/// The orders a list of sort keys names, in order.
pub fn log_sorts(keys: &Vec<String>) -> (res: Vec<(LogColumn, bool)>)
    ensures
        res@ == log_sorts_of(keys@, keys@.len() as int),
{
    let mut res: Vec<(LogColumn, bool)> = Vec::new();
    let mut i: usize = 0;
    while i < keys.len()
        invariant
            i <= keys@.len(),
            res@ == log_sorts_of(keys@, i as int),
        decreases keys@.len() - i,
    {
        if let Some(o) = log_sort(keys[i].as_str()) {
            res.push(o);
        }
        i += 1;
    }
    res
}

/// A column of the device list.
#[derive(Clone, Copy, PartialEq, Eq, Structural, Debug)]
pub enum DeviceColumn {
    DeviceId,
    Id,
    Ipv4,
    LastLoginTime,
    Status,
    UpdateTime,
}

/// An order of the device list.
#[derive(Clone, Copy, PartialEq, Eq, Structural, Debug)]
pub enum DeviceSort {
    DeviceId,
    DeviceIdReverse,
    Id,
    IdReverse,
    Ipv4,
    Ipv4Reverse,
    LastLoginTime,
    LastLoginTimeReverse,
    Status,
    StatusReverse,
    UpdateTime,
    UpdateTimeReverse,
}

/// The column and direction (descending when `true`) of a device order.
pub fn device_sort(s: DeviceSort) -> (res: (DeviceColumn, bool))
    ensures
        res == (match s {
            DeviceSort::DeviceId => (DeviceColumn::DeviceId, false),
            DeviceSort::DeviceIdReverse => (DeviceColumn::DeviceId, true),
            DeviceSort::Id => (DeviceColumn::Id, false),
            DeviceSort::IdReverse => (DeviceColumn::Id, true),
            DeviceSort::Ipv4 => (DeviceColumn::Ipv4, false),
            DeviceSort::Ipv4Reverse => (DeviceColumn::Ipv4, true),
            DeviceSort::LastLoginTime => (DeviceColumn::LastLoginTime, false),
            DeviceSort::LastLoginTimeReverse => (DeviceColumn::LastLoginTime, true),
            DeviceSort::Status => (DeviceColumn::Status, false),
            DeviceSort::StatusReverse => (DeviceColumn::Status, true),
            DeviceSort::UpdateTime => (DeviceColumn::UpdateTime, false),
            DeviceSort::UpdateTimeReverse => (DeviceColumn::UpdateTime, true),
        }),
{
    match s {
        DeviceSort::DeviceId => (DeviceColumn::DeviceId, false),
        DeviceSort::DeviceIdReverse => (DeviceColumn::DeviceId, true),
        DeviceSort::Id => (DeviceColumn::Id, false),
        DeviceSort::IdReverse => (DeviceColumn::Id, true),
        DeviceSort::Ipv4 => (DeviceColumn::Ipv4, false),
        DeviceSort::Ipv4Reverse => (DeviceColumn::Ipv4, true),
        DeviceSort::LastLoginTime => (DeviceColumn::LastLoginTime, false),
        DeviceSort::LastLoginTimeReverse => (DeviceColumn::LastLoginTime, true),
        DeviceSort::Status => (DeviceColumn::Status, false),
        DeviceSort::StatusReverse => (DeviceColumn::Status, true),
        DeviceSort::UpdateTime => (DeviceColumn::UpdateTime, false),
        DeviceSort::UpdateTimeReverse => (DeviceColumn::UpdateTime, true),
    }
}

} // verus!
