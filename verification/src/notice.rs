//! Notices: the title search pattern, the channel and validity filters of
//! the notice list and its paging, and the validity times a notice is
//! stored with.

use vstd::prelude::*;
use vstd::string::*;
use crate::text::{chars_of, string_of, replace_all, replace_all_exec, text_eq};
use chrono::{DateTime, NaiveDateTime};

verus! {

/// `s` with the LIKE wildcards escaped: `\` doubled first, then `%` and `_`
/// prefixed with `\`.
pub open spec fn escaped_like(s: Seq<char>) -> Seq<char> {
    replace_all(replace_all(replace_all(s, seq!['\\'], seq!['\\', '\\']), seq!['%'], seq!['\\', '%']), seq!['_'], seq![
        '\\',
        '_',
    ])
}

/// Escapes the LIKE wildcards of a search text, so that it matches only
/// itself.
pub fn escape_like(s: &str) -> (res: String)
    ensures
        res@ == escaped_like(s@),
{
    let cs = chars_of(s);
    let mut bs: Vec<char> = Vec::new();
    bs.push('\\');
    let mut bb: Vec<char> = Vec::new();
    bb.push('\\');
    bb.push('\\');
    let a = replace_all_exec(&cs, &bs, &bb);
    let mut pct: Vec<char> = Vec::new();
    pct.push('%');
    let mut bpct: Vec<char> = Vec::new();
    bpct.push('\\');
    bpct.push('%');
    let b = replace_all_exec(&a, &pct, &bpct);
    let mut us: Vec<char> = Vec::new();
    us.push('_');
    let mut bus: Vec<char> = Vec::new();
    bus.push('\\');
    bus.push('_');
    let c = replace_all_exec(&b, &us, &bus);
    assert(bs@ == seq!['\\']);
    assert(bb@ == seq!['\\', '\\']);
    assert(pct@ == seq!['%']);
    assert(bpct@ == seq!['\\', '%']);
    assert(us@ == seq!['_']);
    assert(bus@ == seq!['\\', '_']);
    string_of(&c)
}

/// A LIKE wildcard, or the escape character.
pub open spec fn is_like_special(c: char) -> bool {
    c == '\\' || c == '%' || c == '_'
}

/// One character as it stands escaped.
pub open spec fn escape_char(c: char) -> Seq<char> {
    if is_like_special(c) {
        seq!['\\', c]
    } else {
        seq![c]
    }
}

/// A text escaped character by character.
pub open spec fn escape_chars(s: Seq<char>) -> Seq<char>
    decreases s.len(),
{
    if s.len() == 0 {
        Seq::empty()
    } else {
        escape_char(s[0]) + escape_chars(s.skip(1))
    }
}

/// Whether the LIKE pattern `p` (escape character `\`) matches the whole
/// of `t`: `%` matches any run of characters, `_` any one character, `\`
/// makes the character after it literal, and any other character matches
/// itself.
pub open spec fn like_matches(p: Seq<char>, t: Seq<char>) -> bool
    decreases p.len(), t.len(),
{
    if p.len() == 0 {
        t.len() == 0
    } else if p[0] == '\\' && p.len() >= 2 {
        t.len() > 0 && t[0] == p[1] && like_matches(p.skip(2), t.skip(1))
    } else if p[0] == '%' {
        like_matches(p.skip(1), t) || (t.len() > 0 && like_matches(p, t.skip(1)))
    } else if p[0] == '_' {
        t.len() > 0 && like_matches(p.skip(1), t.skip(1))
    } else {
        t.len() > 0 && t[0] == p[0] && like_matches(p.skip(1), t.skip(1))
    }
}

proof fn lemma_replace_first(s: Seq<char>, c: char, r: Seq<char>)
    requires
        s.len() > 0,
    ensures
        replace_all(s, seq![c], r) == (if s[0] == c { r } else { seq![s[0]] }) + replace_all(s.skip(1), seq![c], r),
{
    assert(crate::text::occurs_at(s, seq![c], 0) <==> s[0] == c) by {
        if s[0] == c {
            assert(s.subrange(0, 1) =~= seq![c]);
        }
        if crate::text::occurs_at(s, seq![c], 0) {
            assert(s.subrange(0, 1)[0] == s[0]);
        }
    }
}

proof fn lemma_replace_concat(a: Seq<char>, b: Seq<char>, c: char, r: Seq<char>)
    ensures
        replace_all(a + b, seq![c], r) == replace_all(a, seq![c], r) + replace_all(b, seq![c], r),
    decreases a.len(),
{
    if a.len() == 0 {
        assert(a + b =~= b);
        assert(replace_all(a, seq![c], r) =~= Seq::<char>::empty());
        assert(replace_all(a, seq![c], r) + replace_all(b, seq![c], r) =~= replace_all(b, seq![c], r));
    } else {
        lemma_replace_first(a + b, c, r);
        lemma_replace_first(a, c, r);
        assert((a + b).skip(1) =~= a.skip(1) + b);
        assert((a + b)[0] == a[0]);
        lemma_replace_concat(a.skip(1), b, c, r);
        let h = if a[0] == c { r } else { seq![a[0]] };
        assert(h + (replace_all(a.skip(1), seq![c], r) + replace_all(b, seq![c], r)) =~= (h + replace_all(
            a.skip(1),
            seq![c],
            r,
        )) + replace_all(b, seq![c], r));
    }
}

proof fn lemma_replace_single(x: char, c: char, r: Seq<char>)
    ensures
        replace_all(seq![x], seq![c], r) == (if x == c { r } else { seq![x] }),
{
    lemma_replace_first(seq![x], c, r);
    assert(seq![x].skip(1) =~= Seq::<char>::empty());
    let h = if x == c { r } else { seq![x] };
    assert(h + Seq::<char>::empty() =~= h);
}

proof fn lemma_escape_one(x: char)
    ensures
        replace_all(
            replace_all(replace_all(seq![x], seq!['\\'], seq!['\\', '\\']), seq!['%'], seq!['\\', '%']),
            seq!['_'],
            seq!['\\', '_'],
        ) == escape_char(x),
{
    lemma_replace_single(x, '\\', seq!['\\', '\\']);
    if x == '\\' {
        assert(seq!['\\', '\\'] =~= seq!['\\'] + seq!['\\']);
        lemma_replace_concat(seq!['\\'], seq!['\\'], '%', seq!['\\', '%']);
        lemma_replace_single('\\', '%', seq!['\\', '%']);
        lemma_replace_concat(seq!['\\'], seq!['\\'], '_', seq!['\\', '_']);
        lemma_replace_single('\\', '_', seq!['\\', '_']);
    } else {
        lemma_replace_single(x, '%', seq!['\\', '%']);
        if x == '%' {
            assert(seq!['\\', '%'] =~= seq!['\\'] + seq!['%']);
            lemma_replace_concat(seq!['\\'], seq!['%'], '_', seq!['\\', '_']);
            lemma_replace_single('\\', '_', seq!['\\', '_']);
            lemma_replace_single('%', '_', seq!['\\', '_']);
        } else {
            lemma_replace_single(x, '_', seq!['\\', '_']);
        }
    }
}

proof fn lemma_escaped_like_chars(s: Seq<char>)
    ensures
        escaped_like(s) == escape_chars(s),
    decreases s.len(),
{
    if s.len() > 0 {
        let x = s[0];
        let rest = s.skip(1);
        assert(s =~= seq![x] + rest);
        lemma_replace_concat(seq![x], rest, '\\', seq!['\\', '\\']);
        let a1 = replace_all(seq![x], seq!['\\'], seq!['\\', '\\']);
        let b1 = replace_all(rest, seq!['\\'], seq!['\\', '\\']);
        lemma_replace_concat(a1, b1, '%', seq!['\\', '%']);
        let a2 = replace_all(a1, seq!['%'], seq!['\\', '%']);
        let b2 = replace_all(b1, seq!['%'], seq!['\\', '%']);
        lemma_replace_concat(a2, b2, '_', seq!['\\', '_']);
        lemma_escape_one(x);
        lemma_escaped_like_chars(rest);
    } else {
        assert(s =~= Seq::<char>::empty());
    }
}

proof fn lemma_escaped_matches(s: Seq<char>, t: Seq<char>)
    ensures
        like_matches(escape_chars(s), t) <==> t == s,
    decreases s.len(),
{
    let p = escape_chars(s);
    if s.len() == 0 {
        assert(p =~= Seq::<char>::empty());
        if t.len() == 0 {
            assert(t =~= s);
        }
    } else {
        let x = s[0];
        let rest = s.skip(1);
        lemma_escaped_matches(rest, t.skip(1));
        if is_like_special(x) {
            assert(p.skip(2) =~= escape_chars(rest));
        } else {
            assert(p.skip(1) =~= escape_chars(rest));
        }
        if t.len() > 0 && t[0] == x && t.skip(1) == rest {
            assert forall|i: int| 0 <= i < t.len() implies t[i] == s[i] by {
                if i > 0 {
                    assert(t[i] == t.skip(1)[i - 1]);
                    assert(s[i] == rest[i - 1]);
                }
            }
            assert(t =~= s);
        }
    }
}

/// An escaped search text, taken as a LIKE pattern, matches exactly the
/// text it was made from.
pub proof fn escaped_like_matches_only_itself(s: Seq<char>, t: Seq<char>)
    ensures
        like_matches(escaped_like(s), t) <==> t == s,
{
    lemma_escaped_like_chars(s);
    lemma_escaped_matches(s, t);
}

/// Where a notice is shown.
#[derive(Clone, Copy, PartialEq, Eq, Structural, Debug)]
pub enum NoticeChannel {
    Application,
    ClientApp,
    ClientPc,
    Common,
    Dadian,
    Dashboard,
    Tianli,
    Web,
}

/// The stored name of a channel.
pub open spec fn channel_name(c: NoticeChannel) -> Seq<char> {
    match c {
        NoticeChannel::Application => "APPLICATION"@,
        NoticeChannel::ClientApp => "CLIENT_APP"@,
        NoticeChannel::ClientPc => "CLIENT_PC"@,
        NoticeChannel::Common => "COMMON"@,
        NoticeChannel::Dadian => "DADIAN"@,
        NoticeChannel::Dashboard => "DASHBOARD"@,
        NoticeChannel::Tianli => "TIANLI"@,
        NoticeChannel::Web => "WEB"@,
    }
}

impl NoticeChannel {
    /// The stored name of the channel.
    pub fn name(&self) -> (res: &'static str)
        ensures
            res@ == channel_name(*self),
    {
        match self {
            NoticeChannel::Application => "APPLICATION",
            NoticeChannel::ClientApp => "CLIENT_APP",
            NoticeChannel::ClientPc => "CLIENT_PC",
            NoticeChannel::Common => "COMMON",
            NoticeChannel::Dadian => "DADIAN",
            NoticeChannel::Dashboard => "DASHBOARD",
            NoticeChannel::Tianli => "TIANLI",
            NoticeChannel::Web => "WEB",
        }
    }

    /// The channel of a stored name (`None` for an unknown name).
    pub fn from_name(name: &str) -> (res: Option<NoticeChannel>)
        ensures
            res == name_channel(name@),
    {
        if text_eq(name, "APPLICATION") {
            Some(NoticeChannel::Application)
        } else if text_eq(name, "CLIENT_APP") {
            Some(NoticeChannel::ClientApp)
        } else if text_eq(name, "CLIENT_PC") {
            Some(NoticeChannel::ClientPc)
        } else if text_eq(name, "COMMON") {
            Some(NoticeChannel::Common)
        } else if text_eq(name, "DADIAN") {
            Some(NoticeChannel::Dadian)
        } else if text_eq(name, "DASHBOARD") {
            Some(NoticeChannel::Dashboard)
        } else if text_eq(name, "TIANLI") {
            Some(NoticeChannel::Tianli)
        } else if text_eq(name, "WEB") {
            Some(NoticeChannel::Web)
        } else {
            None
        }
    }
}

/// The channel whose stored name is `s`, if any.
pub open spec fn name_channel(s: Seq<char>) -> Option<NoticeChannel> {
    if s == "APPLICATION"@ {
        Some(NoticeChannel::Application)
    } else if s == "CLIENT_APP"@ {
        Some(NoticeChannel::ClientApp)
    } else if s == "CLIENT_PC"@ {
        Some(NoticeChannel::ClientPc)
    } else if s == "COMMON"@ {
        Some(NoticeChannel::Common)
    } else if s == "DADIAN"@ {
        Some(NoticeChannel::Dadian)
    } else if s == "DASHBOARD"@ {
        Some(NoticeChannel::Dashboard)
    } else if s == "TIANLI"@ {
        Some(NoticeChannel::Tianli)
    } else if s == "WEB"@ {
        Some(NoticeChannel::Web)
    } else {
        None
    }
}

/// Reading a channel back from its stored name gives the channel.
pub proof fn channel_name_reads_back(c: NoticeChannel)
    ensures
        name_channel(channel_name(c)) == Some(c),
{
    reveal_strlit("APPLICATION");
    reveal_strlit("CLIENT_APP");
    reveal_strlit("CLIENT_PC");
    reveal_strlit("COMMON");
    reveal_strlit("DADIAN");
    reveal_strlit("DASHBOARD");
    reveal_strlit("TIANLI");
    reveal_strlit("WEB");
    match c {
        NoticeChannel::Application => {},
        NoticeChannel::ClientApp => {
            assert("CLIENT_APP"@ != "APPLICATION"@) by { assert("CLIENT_APP"@[0] != "APPLICATION"@[0]); }
        },
        NoticeChannel::ClientPc => {
            assert("CLIENT_PC"@ != "APPLICATION"@) by { assert("CLIENT_PC"@[0] != "APPLICATION"@[0]); }
            assert("CLIENT_PC"@ != "CLIENT_APP"@) by { assert("CLIENT_PC"@.len() != "CLIENT_APP"@.len()); }
        },
        NoticeChannel::Common => {
            assert("COMMON"@ != "APPLICATION"@) by { assert("COMMON"@.len() != "APPLICATION"@.len()); }
            assert("COMMON"@ != "CLIENT_APP"@) by { assert("COMMON"@.len() != "CLIENT_APP"@.len()); }
            assert("COMMON"@ != "CLIENT_PC"@) by { assert("COMMON"@.len() != "CLIENT_PC"@.len()); }
        },
        NoticeChannel::Dadian => {
            assert("DADIAN"@ != "APPLICATION"@) by { assert("DADIAN"@.len() != "APPLICATION"@.len()); }
            assert("DADIAN"@ != "CLIENT_APP"@) by { assert("DADIAN"@.len() != "CLIENT_APP"@.len()); }
            assert("DADIAN"@ != "CLIENT_PC"@) by { assert("DADIAN"@.len() != "CLIENT_PC"@.len()); }
            assert("DADIAN"@ != "COMMON"@) by { assert("DADIAN"@[0] != "COMMON"@[0]); }
        },
        NoticeChannel::Dashboard => {
            assert("DASHBOARD"@ != "APPLICATION"@) by { assert("DASHBOARD"@.len() != "APPLICATION"@.len()); }
            assert("DASHBOARD"@ != "CLIENT_APP"@) by { assert("DASHBOARD"@.len() != "CLIENT_APP"@.len()); }
            assert("DASHBOARD"@ != "CLIENT_PC"@) by { assert("DASHBOARD"@[0] != "CLIENT_PC"@[0]); }
            assert("DASHBOARD"@ != "COMMON"@) by { assert("DASHBOARD"@.len() != "COMMON"@.len()); }
            assert("DASHBOARD"@ != "DADIAN"@) by { assert("DASHBOARD"@.len() != "DADIAN"@.len()); }
        },
        NoticeChannel::Tianli => {
            assert("TIANLI"@ != "APPLICATION"@) by { assert("TIANLI"@.len() != "APPLICATION"@.len()); }
            assert("TIANLI"@ != "CLIENT_APP"@) by { assert("TIANLI"@.len() != "CLIENT_APP"@.len()); }
            assert("TIANLI"@ != "CLIENT_PC"@) by { assert("TIANLI"@.len() != "CLIENT_PC"@.len()); }
            assert("TIANLI"@ != "COMMON"@) by { assert("TIANLI"@[0] != "COMMON"@[0]); }
            assert("TIANLI"@ != "DADIAN"@) by { assert("TIANLI"@[0] != "DADIAN"@[0]); }
            assert("TIANLI"@ != "DASHBOARD"@) by { assert("TIANLI"@.len() != "DASHBOARD"@.len()); }
        },
        NoticeChannel::Web => {
            assert("WEB"@ != "APPLICATION"@) by { assert("WEB"@.len() != "APPLICATION"@.len()); }
            assert("WEB"@ != "CLIENT_APP"@) by { assert("WEB"@.len() != "CLIENT_APP"@.len()); }
            assert("WEB"@ != "CLIENT_PC"@) by { assert("WEB"@.len() != "CLIENT_PC"@.len()); }
            assert("WEB"@ != "COMMON"@) by { assert("WEB"@.len() != "COMMON"@.len()); }
            assert("WEB"@ != "DADIAN"@) by { assert("WEB"@.len() != "DADIAN"@.len()); }
            assert("WEB"@ != "DASHBOARD"@) by { assert("WEB"@.len() != "DASHBOARD"@.len()); }
            assert("WEB"@ != "TIANLI"@) by { assert("WEB"@.len() != "TIANLI"@.len()); }
        },
    }
}

/// A stored notice as the list filters read it: its channel names and its
/// validity window (microseconds; an open end is `None`).
pub struct NoticeRow {
    pub channels: Vec<String>,
    pub valid_time_start: Option<i64>,
    pub valid_time_end: Option<i64>,
}

/// The notice is shown on one of the wanted channels.
pub open spec fn on_channel(row: NoticeRow, wanted: Seq<NoticeChannel>) -> bool {
    exists|i: int, j: int|
        0 <= i < row.channels@.len() && 0 <= j < wanted.len() && #[trigger] row.channels@[i]@ == channel_name(
            #[trigger] wanted[j],
        )
}

/// The notice is valid at `now`: started (or without a start) and not
/// ended (or without an end).
pub open spec fn valid_at(row: NoticeRow, now: i64) -> bool {
    (match row.valid_time_start {
        Some(s) => s <= now,
        None => true,
    }) && (match row.valid_time_end {
        Some(e) => e >= now,
        None => true,
    })
}

/// The notice passes the list's filters.
pub open spec fn notice_kept(row: NoticeRow, wanted: Option<Seq<NoticeChannel>>, only_valid: bool, now: i64) -> bool {
    (match wanted {
        Some(w) => on_channel(row, w),
        None => true,
    }) && (!only_valid || valid_at(row, now))
}

/// The rows, among the first `n`, that pass the filters, in order.
pub open spec fn kept_notices(rows: Seq<NoticeRow>, wanted: Option<Seq<NoticeChannel>>, only_valid: bool, now: i64, n: int) -> Seq<usize>
    decreases n,
{
    if n <= 0 {
        Seq::empty()
    } else {
        let p = kept_notices(rows, wanted, only_valid, now, n - 1);
        if notice_kept(rows[n - 1], wanted, only_valid, now) {
            p.push((n - 1) as usize)
        } else {
            p
        }
    }
}

proof fn lemma_kept_notices(rows: Seq<NoticeRow>, wanted: Option<Seq<NoticeChannel>>, only_valid: bool, now: i64, n: int)
    requires
        0 <= n <= rows.len() <= usize::MAX,
    ensures
        forall|r: int|
            0 <= r < kept_notices(rows, wanted, only_valid, now, n).len() ==> {
                let i = #[trigger] kept_notices(rows, wanted, only_valid, now, n)[r] as int;
                0 <= i < n && notice_kept(rows[i], wanted, only_valid, now)
            },
        forall|r: int, q: int|
            0 <= r < q < kept_notices(rows, wanted, only_valid, now, n).len() ==> #[trigger] kept_notices(
                rows,
                wanted,
                only_valid,
                now,
                n,
            )[r] < #[trigger] kept_notices(rows, wanted, only_valid, now, n)[q],
        forall|i: int|
            0 <= i < n && notice_kept(#[trigger] rows[i], wanted, only_valid, now) ==> kept_notices(
                rows,
                wanted,
                only_valid,
                now,
                n,
            ).contains(i as usize),
    decreases n,
{
    if n > 0 {
        lemma_kept_notices(rows, wanted, only_valid, now, n - 1);
        let p = kept_notices(rows, wanted, only_valid, now, n - 1);
        let k = kept_notices(rows, wanted, only_valid, now, n);
        assert forall|i: int| 0 <= i < n && notice_kept(#[trigger] rows[i], wanted, only_valid, now) implies k.contains(
            i as usize,
        ) by {
            if i < n - 1 {
                assert(p.contains(i as usize));
                let r = choose|r: int| 0 <= r < p.len() && p[r] == i as usize;
                assert(k[r] == p[r]);
            } else {
                assert(k[k.len() - 1] == i as usize);
            }
        }
        assert forall|r: int| 0 <= r < k.len() implies {
            let i = #[trigger] k[r] as int;
            0 <= i < n && notice_kept(rows[i], wanted, only_valid, now)
        } by {
            if r < p.len() {
                assert(k[r] == p[r]);
            }
        }
        assert forall|r: int, q: int| 0 <= r < q < k.len() implies #[trigger] k[r] < #[trigger] k[q] by {
            if q < p.len() {
                assert(k[r] == p[r] && k[q] == p[q]);
            } else {
                assert(k[r] == p[r]);
                assert(p[r] as int <= n - 2);
            }
        }
    }
}

/// The notice list's filter, over all rows: the kept rows are listed in
/// increasing order, and row `i` is kept exactly when (with channels
/// asked for) one of its channel names is the name of one of the wanted
/// channels, whichever, and (when only valid notices are asked for) it has
/// started by `now`, or has no start, and has not ended before `now`, or
/// has no end.
pub proof fn notice_filter_keeps(rows: Seq<NoticeRow>, wanted: Option<Seq<NoticeChannel>>, only_valid: bool, now: i64)
    requires
        rows.len() <= usize::MAX,
    ensures
        forall|r: int, q: int|
            0 <= r < q < kept_notices(rows, wanted, only_valid, now, rows.len() as int).len() ==> #[trigger] kept_notices(
                rows,
                wanted,
                only_valid,
                now,
                rows.len() as int,
            )[r] < #[trigger] kept_notices(rows, wanted, only_valid, now, rows.len() as int)[q],
        forall|i: int|
            0 <= i < rows.len() ==> (#[trigger] kept_notices(rows, wanted, only_valid, now, rows.len() as int).contains(
                i as usize,
            ) <==> (wanted is None || exists|a: int, b: int|
                0 <= a < rows[i].channels@.len() && 0 <= b < wanted->0.len() && #[trigger] rows[i].channels@[a]@
                    == channel_name(#[trigger] wanted->0[b])) && (!only_valid || ((rows[i].valid_time_start is None
                || rows[i].valid_time_start->0 <= now) && (rows[i].valid_time_end is None || rows[i].valid_time_end->0
                >= now)))),
{
    let n = rows.len() as int;
    lemma_kept_notices(rows, wanted, only_valid, now, n);
    let k = kept_notices(rows, wanted, only_valid, now, n);
    assert forall|i: int| 0 <= i < n implies (#[trigger] k.contains(i as usize) <==> notice_kept(
        rows[i],
        wanted,
        only_valid,
        now,
    )) by {
        if k.contains(i as usize) {
            let r = choose|r: int| 0 <= r < k.len() && k[r] == i as usize;
            assert(k[r] as int == i);
        }
    }
}

/// The page size of a list request: 10 by default, at most 200 (taken as
/// a `usize`).
pub open spec fn page_size(size: Option<i64>) -> usize {
    let s = match size {
        Some(s) => s,
        None => 10,
    };
    (if s < 200 { s } else { 200 }) as usize
}

/// The number of a requested page (1 by default, taken as a `usize`).
pub open spec fn page_number(current: Option<i64>) -> usize {
    (match current {
        Some(c) => c,
        None => 1,
    }) as usize
}

/// The offset of a page: the rows of the pages before it.
pub open spec fn page_offset(size: Option<i64>, current: Option<i64>) -> int {
    (if page_number(current) >= 1 { page_number(current) - 1 } else { 0 }) * page_size(size)
}

/// The offset of a page, or `None` where it does not fit a `usize`
/// (`notice_page` is called only where it does).
pub fn notice_page_offset(size: Option<i64>, current: Option<i64>) -> (res: Option<usize>)
    ensures
        match res {
            Some(o) => o == page_offset(size, current),
            None => page_offset(size, current) > usize::MAX,
        },
{
    let s0: i64 = match size {
        Some(s) => s,
        None => 10,
    };
    let s: usize = (if s0 < 200 { s0 } else { 200 }) as usize;
    let c: usize = (match current {
        Some(c) => c,
        None => 1,
    }) as usize;
    let p: usize = if c >= 1 { c - 1 } else { 0 };
    p.checked_mul(s)
}

/// The wanted channels as a sequence.
pub open spec fn wanted_view(w: Option<Vec<NoticeChannel>>) -> Option<Seq<NoticeChannel>> {
    match w {
        Some(v) => Some(v@),
        None => None,
    }
}

/// One page of the notice list: every row that passed the filters, the
/// rows shown, the number of rows that passed, and the page size.
pub struct NoticePage {
    pub kept: Vec<usize>,
    pub rows: Vec<usize>,
    pub total: usize,
    pub size: usize,
}

fn on_channel_exec(row: &NoticeRow, wanted: &Vec<NoticeChannel>) -> (res: bool)
    ensures
        res == on_channel(*row, wanted@),
{
    let mut i: usize = 0;
    while i < row.channels.len()
        invariant
            i <= row.channels@.len(),
            forall|a: int, b: int|
                0 <= a < i && 0 <= b < wanted@.len() ==> #[trigger] row.channels@[a]@ != channel_name(#[trigger] wanted@[b]),
        decreases row.channels@.len() - i,
    {
        let mut j: usize = 0;
        while j < wanted.len()
            invariant
                i < row.channels@.len(),
                j <= wanted@.len(),
                forall|a: int, b: int|
                    0 <= a < i && 0 <= b < wanted@.len() ==> #[trigger] row.channels@[a]@ != channel_name(#[trigger] wanted@[b]),
                forall|b: int| 0 <= b < j ==> row.channels@[i as int]@ != channel_name(#[trigger] wanted@[b]),
            decreases wanted@.len() - j,
        {
            if text_eq(row.channels[i].as_str(), wanted[j].name()) {
                return true;
            }
            j += 1;
        }
        i += 1;
    }
    false
}

/// The notice list's filters and page: rows on one of the wanted channels
/// (when channels are given) and, when asked, valid at `now`; then the
/// page of the filtered rows (`size` per page, page numbers from 1; a page
/// number below 1 reads as the first page).
pub fn notice_page(
    rows: &Vec<NoticeRow>,
    wanted: &Option<Vec<NoticeChannel>>,
    only_valid: bool,
    now: i64,
    size: Option<i64>,
    current: Option<i64>,
) -> (res: NoticePage)
    requires
        page_offset(size, current) <= usize::MAX,
    ensures
        ({
            let w = wanted_view(*wanted);
            let kept = kept_notices(rows@, w, only_valid, now, rows@.len() as int);
            &&& res.kept@ == kept
            &&& res.total == kept.len()
            &&& res.size == page_size(size)
            &&& res.rows@ == (if page_offset(size, current) >= kept.len() {
                Seq::<usize>::empty()
            } else {
                kept.skip(page_offset(size, current)).take(
                    if kept.len() - page_offset(size, current) < page_size(size) {
                        kept.len() - page_offset(size, current)
                    } else {
                        page_size(size) as int
                    },
                )
            })
        }),
{
    let ghost w = wanted_view(*wanted);
    let mut kept: Vec<usize> = Vec::new();
    let mut i: usize = 0;
    while i < rows.len()
        invariant
            i <= rows@.len(),
            w == wanted_view(*wanted),
            kept@ == kept_notices(rows@, w, only_valid, now, i as int),
        decreases rows@.len() - i,
    {
        let row = &rows[i];
        let on = match wanted {
            Some(v) => on_channel_exec(row, v),
            None => true,
        };
        let valid = !only_valid || ((match row.valid_time_start {
            Some(s) => s <= now,
            None => true,
        }) && (match row.valid_time_end {
            Some(e) => e >= now,
            None => true,
        }));
        if on && valid {
            kept.push(i);
        }
        i += 1;
    }
    let s0: i64 = match size {
        Some(s) => s,
        None => 10,
    };
    let sz: usize = (if s0 < 200 { s0 } else { 200 }) as usize;
    let cur: usize = (match current {
        Some(c) => c,
        None => 1,
    }) as usize;
    let before: usize = if cur >= 1 { cur - 1 } else { 0 };
    assert(before * sz == page_offset(size, current)) by (nonlinear_arith)
        requires
            before == (if page_number(current) >= 1 { page_number(current) - 1 } else { 0 }),
            sz == page_size(size),
    ;
    let offset: usize = before * sz;
    let mut page: Vec<usize> = Vec::new();
    let mut k: usize = offset;
    while k < kept.len() && k - offset < sz
        invariant
            offset <= k,
            offset <= kept@.len() ==> k <= kept@.len(),
            offset <= kept@.len() ==> page@ == kept@.subrange(offset as int, k as int),
            offset > kept@.len() ==> page@.len() == 0,
            k - offset <= sz,
        decreases kept@.len() - k,
    {
        page.push(kept[k]);
        assert(kept@.subrange(offset as int, k + 1) == kept@.subrange(offset as int, k as int).push(kept@[k as int]));
        k += 1;
    }
    proof {
        if offset < kept@.len() {
            let n = if kept@.len() - offset < sz { kept@.len() - offset } else { sz as int };
            assert(kept@.skip(offset as int).take(n) =~= kept@.subrange(offset as int, k as int));
        } else {
            assert(page@ =~= Seq::<usize>::empty());
        }
    }
    let total = kept.len();
    NoticePage { kept, rows: page, total, size: sz }
}

/// The channels of the first `n` stored names, in order, unknown names
/// dropped.
pub open spec fn known_prefix(names: Seq<String>, n: int) -> Seq<NoticeChannel>
    decreases n,
{
    if n <= 0 {
        Seq::empty()
    } else {
        let p = known_prefix(names, n - 1);
        match name_channel(names[n - 1]@) {
            Some(c) => p.push(c),
            None => p,
        }
    }
}

/// The stored channel names mapped to channels (unknown names dropped).
pub fn known_channels(names: &Vec<String>) -> (res: Vec<NoticeChannel>)
    ensures
        res@ == known_prefix(names@, names@.len() as int),
{
    let mut res: Vec<NoticeChannel> = Vec::new();
    let mut i: usize = 0;
    while i < names.len()
        invariant
            i <= names@.len(),
            res@ == known_prefix(names@, i as int),
        decreases names@.len() - i,
    {
        if let Some(c) = NoticeChannel::from_name(names[i].as_str()) {
            res.push(c);
        }
        i += 1;
    }
    res
}

/// A sort index clamped into the `i32` range.
pub fn clamp_sort_index(i: i64) -> (res: i32)
    ensures
        res == (if i < i32::MIN { i32::MIN as int } else if i > i32::MAX { i32::MAX as int } else { i as int }),
{
    if i < -2147483648i64 {
        -2147483648i32
    } else if i > 2147483647i64 {
        2147483647i32
    } else {
        i as i32
    }
}

/// A validity time as a request carries it: absent (or `null`), a number
/// of milliseconds since the epoch, a text, or some other JSON value.
pub enum ValidTimeInput {
    Missing,
    Millis(i64),
    Text(String),
    Other,
}

/// Whether `chrono` can represent the instant `ms` milliseconds after the
/// epoch.
pub uninterp spec fn millis_in_range(ms: i64) -> bool;

/// The instant (microseconds since the epoch, UTC) that `chrono` reads from
/// an RFC 3339 text, if it reads one.
pub uninterp spec fn rfc3339_micros(s: Seq<char>) -> Option<i64>;

/// The instant (microseconds since the epoch) that `chrono` reads from a
/// text in the given format, taken as UTC, if it reads one.
pub uninterp spec fn naive_micros(s: Seq<char>, fmt: Seq<char>) -> Option<i64>;

/// `chrono::DateTime::from_timestamp_millis`, read back as microseconds.
/// The crate documents that it returns `None` only for an out-of-range
/// count and round-trips with `timestamp_millis`, so the instant is `ms`
/// whole milliseconds; which counts are in range is left to the name.
#[verifier::external_body]
pub(crate) fn micros_of_millis(ms: i64) -> (res: Option<i64>)
    ensures
        res is Some <==> millis_in_range(ms),
        res matches Some(t) ==> t == ms * 1000,
{
    match DateTime::from_timestamp_millis(ms) {
        Some(dt) => Some(dt.timestamp_micros()),
        None => None,
    }
}

/// `chrono::DateTime::parse_from_rfc3339`, converted to UTC and read as
/// microseconds since the epoch; what it accepts is left to the name.
#[verifier::external_body]
fn parse_rfc3339(s: &str) -> (res: Option<i64>)
    ensures
        res == rfc3339_micros(s@),
{
    match DateTime::parse_from_rfc3339(s) {
        Ok(dt) => Some(dt.naive_utc().and_utc().timestamp_micros()),
        Err(_) => None,
    }
}

/// `chrono::NaiveDateTime::parse_from_str`, taken as UTC and read as
/// microseconds since the epoch; what it accepts is left to the name.
#[verifier::external_body]
fn parse_naive(s: &str, fmt: &str) -> (res: Option<i64>)
    ensures
        res == naive_micros(s@, fmt@),
{
    match NaiveDateTime::parse_from_str(s, fmt) {
        Ok(dt) => Some(dt.and_utc().timestamp_micros()),
        Err(_) => None,
    }
}

/// The first of the parsed instants that exists, else `now`.
pub open spec fn first_or_now(a: Option<i64>, b: Option<i64>, c: Option<i64>, now: i64) -> i64 {
    match a {
        Some(t) => t,
        None => match b {
            Some(t) => t,
            None => match c {
                Some(t) => t,
                None => now,
            },
        },
    }
}

/// Picks the first instant that was read, falling back to `now`.
pub fn pick_parsed_time(a: Option<i64>, b: Option<i64>, c: Option<i64>, now: i64) -> (res: i64)
    ensures
        res == first_or_now(a, b, c, now),
{
    match a {
        Some(t) => t,
        None => match b {
            Some(t) => t,
            None => match c {
                Some(t) => t,
                None => now,
            },
        },
    }
}

/// The fractional-seconds ISO layout tried second.
pub open spec fn iso_layout() -> Seq<char> {
    "%Y-%m-%dT%H:%M:%S%.f"@
}

/// The plain layout tried last.
pub open spec fn plain_layout() -> Seq<char> {
    "%Y-%m-%d %H:%M:%S"@
}

/// The validity time a request's field stands for (microseconds since the
/// epoch): nothing for an absent field; the given milliseconds, or `now`
/// when they are out of range; the first reading of a text as RFC 3339,
/// then in the ISO layout, then in the plain layout, or `now`; `now` for
/// any other value.
pub open spec fn valid_time_of(input: ValidTimeInput, now: i64) -> Option<i64> {
    match input {
        ValidTimeInput::Missing => None,
        ValidTimeInput::Millis(ms) => Some(if millis_in_range(ms) { (ms * 1000) as i64 } else { now }),
        ValidTimeInput::Text(s) => Some(
            first_or_now(
                rfc3339_micros(s@),
                naive_micros(s@, iso_layout()),
                naive_micros(s@, plain_layout()),
                now,
            ),
        ),
        ValidTimeInput::Other => Some(now),
    }
}

/// Reads a validity time field, falling back to `now` where it cannot be
/// read.
pub fn parse_valid_time(input: &ValidTimeInput, now: i64) -> (res: Option<i64>)
    ensures
        res == valid_time_of(*input, now),
{
    match input {
        ValidTimeInput::Missing => None,
        ValidTimeInput::Millis(ms) => {
            let t = micros_of_millis(*ms);
            Some(pick_parsed_time(t, None, None, now))
        },
        ValidTimeInput::Text(s) => {
            let a = parse_rfc3339(s.as_str());
            let b = parse_naive(s.as_str(), "%Y-%m-%dT%H:%M:%S%.f");
            let c = parse_naive(s.as_str(), "%Y-%m-%d %H:%M:%S");
            Some(pick_parsed_time(a, b, c, now))
        },
        ValidTimeInput::Other => Some(now),
    }
}

} // verus!
