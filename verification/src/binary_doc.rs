//! BinaryMD5 pages: the compressed, MD5-keyed pages that clients sync by
//! digest, the keys under which they are cached, and the role filter on
//! what a client may fetch.

use vstd::prelude::*;
use vstd::string::*;
use base64::Engine;
use std::io::Write;
use vstd::utf8::encode_utf8;
use crate::text::{
    contains_seq, contains_exec,
    chars_of, string_of, push_text, decimal_string, decimal_text, second_field, second_field_exec,
    parse_i32, parse_i32_exec, lemma_decimal_text_chars, lemma_parse_i32_decimal, lemma_second_field,
};

verus! {

/// One entry of the md5 list: a page's digest and when it was made.
#[derive(Clone, Debug, PartialEq)]
pub struct BinaryMd5Vo {
    pub md5: String,
    pub time: i64,
}

/// A computed page: its digest, its time (kept while the page is cached,
/// so that the md5 list does not change on every request) and its bytes.
pub struct CachedPage {
    pub md5: String,
    pub time: i64,
    pub bytes: Vec<u8>,
}

/// One page of a domain's page set, under its page key.
pub struct ResultEntry {
    pub key: String,
    pub vo: BinaryMd5Vo,
    pub bytes: Vec<u8>,
}

/// A page as stored in Redis: the bytes travel as base64 text.
pub struct RedisResultEntry {
    pub key: String,
    pub vo: BinaryMd5Vo,
    pub bytes_b64: String,
}

/// What `flate2::write::GzEncoder` with the default level makes of the
/// given bytes when writing into a `Vec`: the gzip stream (its header
/// carries no time and no name), or `None` where the encoder reports an
/// error. The encoder has fixed settings and writes into memory, so the
/// outcome depends on the bytes alone.
pub uninterp spec fn gzip_of(data: Seq<u8>) -> Option<Seq<u8>>;

/// The MD5 digest of the bytes (16 bytes).
pub uninterp spec fn md5_of(data: Seq<u8>) -> Seq<u8>;

/// The padded standard base64 text of the bytes.
pub uninterp spec fn base64_of(data: Seq<u8>) -> Seq<char>;

/// Compresses bytes into a gzip stream: `GzEncoder::new(Vec::new(),
/// Compression::default())`, `write_all`, `finish`. The outcome is named
/// `gzip_of`; flate2 writes its 10-byte header as `1f 8b 08 00`, a zero
/// time and OS byte `ff`. `None` when the encoder reports an error. Whether
/// it ever does is left to the name.
#[verifier::external_body]
fn gzip_compress(data: &Vec<u8>) -> (res: Option<Vec<u8>>)
    ensures
        match res {
            Some(z) => gzip_of(data@) == Some(z@),
            None => gzip_of(data@) is None,
        },
        res matches Some(z) ==> z@.len() >= 10 && z@.take(10) == seq![
            0x1fu8,
            0x8bu8,
            0x08u8,
            0x00u8,
            0x00u8,
            0x00u8,
            0x00u8,
            0x00u8,
            0x00u8,
            0xffu8,
        ],
{
    let mut encoder = flate2::write::GzEncoder::new(Vec::new(), flate2::Compression::default());
    match encoder.write_all(data) {
        Ok(()) => encoder.finish().ok(),
        Err(_) => None,
    }
}

/// The MD5 digest of bytes: `md5::compute(data).0`.
#[verifier::external_body]
fn md5_digest(data: &Vec<u8>) -> (res: Vec<u8>)
    ensures
        res@ == md5_of(data@),
        res@.len() == 16,
{
    md5::compute(data).0.to_vec()
}

/// Standard padded base64 (`base64::engine::general_purpose::STANDARD.encode`),
/// four characters for every started group of three bytes.
#[verifier::external_body]
fn base64_encode(data: &Vec<u8>) -> (res: String)
    ensures
        res@ == base64_of(data@),
        res@.len() == 4 * ((data@.len() + 2) / 3),
{
    base64::engine::general_purpose::STANDARD.encode(data)
}

/// Standard base64 decoding (`STANDARD.decode`): the engine requires
/// canonical padding and no trailing bits, so it gives back exactly the
/// bytes whose encoding the text is, and refuses any other text.
#[verifier::external_body]
fn base64_decode(text: &String) -> (res: Option<Vec<u8>>)
    ensures
        forall|b: Seq<u8>| #[trigger] base64_of(b) == text@ ==> res is Some && res.unwrap()@ == b,
        res matches Some(d) ==> base64_of(d@) == text@,
{
    base64::engine::general_purpose::STANDARD.decode(text.as_bytes()).ok()
}

/// The lowercase hex digit of `d < 16`.
pub open spec fn hex_digit(d: u8) -> char {
    if d < 10 {
        (d + 48) as char
    } else {
        (d + 87) as char
    }
}

/// Two lowercase hex digits per byte, high nibble first (`{:02x}` per byte).
pub open spec fn hex_of(bytes: Seq<u8>) -> Seq<char>
    decreases bytes.len(),
{
    if bytes.len() == 0 {
        Seq::empty()
    } else {
        hex_of(bytes.drop_last()) + seq![hex_digit(bytes.last() / 16), hex_digit(bytes.last() % 16)]
    }
}

/// Hex text is two characters per byte.
pub proof fn lemma_hex_len(bytes: Seq<u8>)
    ensures
        hex_of(bytes).len() == 2 * bytes.len(),
    decreases bytes.len(),
{
    if bytes.len() > 0 {
        lemma_hex_len(bytes.drop_last());
    }
}

fn hex_digit_exec(d: u8) -> (res: char)
    requires
        d < 16,
    ensures
        res == hex_digit(d),
{
    if d < 10 {
        (d + 48) as char
    } else {
        (d + 87) as char
    }
}

/// The lowercase hex text of bytes.
pub fn hex_lower(bytes: &Vec<u8>) -> (res: String)
    ensures
        res@ == hex_of(bytes@),
{
    let mut cs: Vec<char> = Vec::new();
    let mut i: usize = 0;
    while i < bytes.len()
        invariant
            i <= bytes@.len(),
            cs@ == hex_of(bytes@.take(i as int)),
        decreases bytes@.len() - i,
    {
        let b = bytes[i];
        cs.push(hex_digit_exec(b / 16));
        cs.push(hex_digit_exec(b % 16));
        proof {
            assert(bytes@.take(i + 1).drop_last() == bytes@.take(i as int));
            assert(hex_of(bytes@.take(i as int)).push(hex_digit(b / 16)).push(hex_digit(b % 16))
                == hex_of(bytes@.take(i as int)) + seq![hex_digit(b / 16), hex_digit(b % 16)]);
        }
        i += 1;
    }
    assert(bytes@.take(bytes@.len() as int) == bytes@);
    string_of(&cs)
}

/// The lowercase hex MD5 digest of bytes: 32 hex digits.
pub fn md5_hex(bytes: &Vec<u8>) -> (res: String)
    ensures
        res@ == hex_of(md5_of(bytes@)),
        res@.len() == 32,
{
    let d = md5_digest(bytes);
    proof {
        lemma_hex_len(d@);
    }
    hex_lower(&d)
}

/// Compresses a page's serialized bytes and keys it by the MD5 of the
/// compressed bytes: the gzip stream and its lowercase hex digest; `None`
/// exactly when compression fails.
pub fn compress_md5(json: &Vec<u8>) -> (res: Option<(Vec<u8>, String)>)
    ensures
        match gzip_of(json@) {
            Some(g) => res matches Some((z, h)) && z@ == g && h@ == hex_of(md5_of(g)) && h@.len() == 32,
            None => res is None,
        },
{
    match gzip_compress(json) {
        Some(z) => {
            let h = md5_hex(&z);
            Some((z, h))
        },
        None => None,
    }
}

/// A copy of the bytes.
pub fn copy_bytes(b: &Vec<u8>) -> (res: Vec<u8>)
    ensures
        res@ == b@,
{
    let mut res: Vec<u8> = Vec::new();
    let mut i: usize = 0;
    while i < b.len()
        invariant
            i <= b@.len(),
            res@ == b@.take(i as int),
        decreases b@.len() - i,
    {
        res.push(b[i]);
        assert(b@.take(i + 1) == b@.take(i as int).push(b@[i as int]));
        i += 1;
    }
    assert(b@.take(b@.len() as int) == b@);
    res
}

fn copy_vo(vo: &BinaryMd5Vo) -> (res: BinaryMd5Vo)
    ensures
        res.md5@ == vo.md5@,
        res.time == vo.time,
{
    BinaryMd5Vo { md5: vo.md5.clone(), time: vo.time }
}

impl RedisResultEntry {
    /// The Redis form of a page: the same key and md5 entry, the bytes as
    /// base64 text.
    pub fn from_entry(e: &ResultEntry) -> (res: RedisResultEntry)
        ensures
            res.key@ == e.key@,
            res.vo.md5@ == e.vo.md5@,
            res.vo.time == e.vo.time,
            res.bytes_b64@ == base64_of(e.bytes@),
    {
        RedisResultEntry { key: e.key.clone(), vo: copy_vo(&e.vo), bytes_b64: base64_encode(&e.bytes) }
    }
}

impl ResultEntry {
    /// A page read back from Redis: the same key and md5 entry, the bytes
    /// decoded from base64 (empty when the text is not valid base64).
    pub fn from_redis(e: RedisResultEntry) -> (res: ResultEntry)
        ensures
            res.key@ == e.key@,
            res.vo.md5@ == e.vo.md5@,
            res.vo.time == e.vo.time,
            forall|b: Seq<u8>| #[trigger] base64_of(b) == e.bytes_b64@ ==> res.bytes@ == b,
            (forall|b: Seq<u8>| #[trigger] base64_of(b) != e.bytes_b64@) ==> res.bytes@.len() == 0,
    {
        let bytes = match base64_decode(&e.bytes_b64) {
            Some(d) => d,
            None => Vec::new(),
        };
        ResultEntry { key: e.key, vo: e.vo, bytes }
    }
}

/// A page survives its trip through Redis: reading back its Redis form
/// gives the same key, md5 entry and bytes.
pub proof fn redis_round_trip(e: ResultEntry, r: RedisResultEntry, back: ResultEntry)
    requires
        r.key@ == e.key@,
        r.vo.md5@ == e.vo.md5@,
        r.vo.time == e.vo.time,
        r.bytes_b64@ == base64_of(e.bytes@),
        back.key@ == r.key@,
        back.vo.md5@ == r.vo.md5@,
        back.vo.time == r.vo.time,
        forall|b: Seq<u8>| #[trigger] base64_of(b) == r.bytes_b64@ ==> back.bytes@ == b,
    ensures
        back.key@ == e.key@,
        back.vo.md5@ == e.vo.md5@,
        back.vo.time == e.vo.time,
        back.bytes@ == e.bytes@,
{
    assert(base64_of(e.bytes@) == r.bytes_b64@);
}

/// The Redis key of a domain's page set under a cache epoch:
/// `binmd5:result:{epoch}:{key}`.
pub open spec fn result_key_text(epoch: i64, key: Seq<char>) -> Seq<char> {
    "binmd5:result:"@ + decimal_text(epoch as int) + ":"@ + key
}

/// The Redis key of a domain's page set under a cache epoch.
pub fn result_redis_key(epoch: i64, key: &str) -> (res: String)
    ensures
        res@ == result_key_text(epoch, key@),
{
    let mut s = String::new();
    push_text(&mut s, "binmd5:result:");
    let e = decimal_string(epoch);
    push_text(&mut s, e.as_str());
    push_text(&mut s, ":");
    push_text(&mut s, key);
    s
}

/// The cache epoch as read from Redis: the stored one, or 1 when unset,
/// in which case 1 is also written (only if still unset, so replicas agree).
pub fn epoch_or_initial(stored: Option<i64>) -> (res: (i64, bool))
    ensures
        res == (match stored {
            Some(e) => (e, false),
            None => (1i64, true),
        }),
{
    match stored {
        Some(e) => (e, false),
        None => (1, true),
    }
}

/// Where a domain's page set comes from.
#[derive(Clone, Copy, PartialEq, Eq, Structural, Debug)]
pub enum ResultSource {
    /// The in-process cache.
    Local,
    /// Redis, warming the in-process cache.
    Shared,
    /// Computed afresh, then stored in both.
    Compute,
}

/// The lookup order of a page set: the in-process cache, then Redis, then
/// computing it.
pub fn result_source(local_hit: bool, shared_hit: bool) -> (res: ResultSource)
    ensures
        res == (if local_hit {
            ResultSource::Local
        } else if shared_hit {
            ResultSource::Shared
        } else {
            ResultSource::Compute
        }),
{
    if local_hit {
        ResultSource::Local
    } else if shared_hit {
        ResultSource::Shared
    } else {
        ResultSource::Compute
    }
}

/// The cache key of a group page of a domain: `{domain}:{flag}`.
pub fn group_page_key(domain: &str, flag: i32) -> (res: String)
    ensures
        res@ == domain@ + ":"@ + decimal_text(flag as int),
{
    let mut s = String::new();
    push_text(&mut s, domain);
    push_text(&mut s, ":");
    let d = decimal_string(flag as i64);
    push_text(&mut s, d.as_str());
    s
}

/// The cache key of a marker page: `marker:{flag}:{page_index}`.
pub open spec fn marker_page_key_text(flag: i32, page_index: i64) -> Seq<char> {
    "marker:"@ + decimal_text(flag as int) + ":"@ + decimal_text(page_index as int)
}

/// The cache key of a marker page.
pub fn marker_page_key(flag: i32, page_index: i64) -> (res: String)
    ensures
        res@ == marker_page_key_text(flag, page_index),
{
    let mut s = String::new();
    push_text(&mut s, "marker:");
    let f = decimal_string(flag as i64);
    push_text(&mut s, f.as_str());
    push_text(&mut s, ":");
    let p = decimal_string(page_index);
    push_text(&mut s, p.as_str());
    s
}

/// The hidden flag that a page key names: the `i32` between its first and
/// second `:`, or -1 when there is none.
pub open spec fn key_flag(key: Seq<char>) -> i32 {
    match second_field(key) {
        Some(f) => match parse_i32(f) {
            Some(v) => v,
            None => -1i32,
        },
        None => -1i32,
    }
}

/// The hidden flag that a page key names (`marker:{flag}:{page}`), or -1.
pub fn entry_flag(key: &str) -> (res: i32)
    ensures
        res == key_flag(key@),
{
    let cs = chars_of(key);
    match second_field_exec(&cs) {
        Some(f) => match parse_i32_exec(&f) {
            Some(v) => v,
            None => -1,
        },
        None => -1,
    }
}

/// The flag of a group page key reads back: `entry_flag` of the key that
/// `group_page_key` writes for a domain without `:` is the flag.
pub proof fn group_key_flag_reads_back(domain: Seq<char>, flag: i32)
    requires
        !domain.contains(':'),
    ensures
        key_flag(domain + ":"@ + decimal_text(flag as int)) == flag,
{
    reveal_strlit(":");
    let d = decimal_text(flag as int);
    lemma_decimal_text_chars(flag as int, ':');
    lemma_second_field(domain, d, Seq::empty());
    assert(domain + ":"@ + d =~= domain + seq![':'] + d + Seq::<char>::empty());
    lemma_parse_i32_decimal(flag);
}

/// The flag of a marker page key reads back: `entry_flag` of the key that
/// `marker_page_key` writes is the flag.
pub proof fn marker_key_flag_reads_back(flag: i32, page_index: i64)
    ensures
        key_flag(marker_page_key_text(flag, page_index)) == flag,
{
    reveal_strlit(":");
    reveal_strlit("marker:");
    let d = decimal_text(flag as int);
    let p = decimal_text(page_index as int);
    let m = seq!['m', 'a', 'r', 'k', 'e', 'r'];
    lemma_decimal_text_chars(flag as int, ':');
    assert(!m.contains(':')) by {
        if m.contains(':') {
            let k = choose|k: int| 0 <= k < m.len() && m[k] == ':';
        }
    }
    lemma_second_field(m, d, seq![':'] + p);
    assert(marker_page_key_text(flag, page_index) =~= m + seq![':'] + d + (seq![':'] + p));
    lemma_parse_i32_decimal(flag);
}

/// The flag is among those the role may see.
pub open spec fn flag_allowed(allowed: Seq<i32>, key: Seq<char>) -> bool {
    allowed.contains(key_flag(key))
}

fn contains_i32(v: &Vec<i32>, x: i32) -> (res: bool)
    ensures
        res == v@.contains(x),
{
    let mut j: usize = 0;
    while j < v.len()
        invariant
            j <= v.len(),
            forall|t: int| 0 <= t < j ==> v@[t] != x,
        decreases v.len() - j,
    {
        if v[j] == x {
            return true;
        }
        j += 1;
    }
    false
}

/// The pages of the set that the role may see, in order.
pub open spec fn visible_entries(entries: Seq<ResultEntry>, allowed: Seq<i32>, n: int) -> Seq<ResultEntry>
    decreases n,
{
    if n <= 0 {
        Seq::empty()
    } else {
        let p = visible_entries(entries, allowed, n - 1);
        if flag_allowed(allowed, entries[n - 1].key@) {
            p.push(entries[n - 1])
        } else {
            p
        }
    }
}

/// The md5 list that a role gets: the entries of the pages whose key flag
/// it may see, in page order.
pub fn visible_md5s(entries: &Vec<ResultEntry>, allowed: &Vec<i32>) -> (res: Vec<BinaryMd5Vo>)
    ensures
        res@.len() == visible_entries(entries@, allowed@, entries@.len() as int).len(),
        forall|k: int| 0 <= k < res@.len() ==> {
            &&& #[trigger] res@[k].md5@ == visible_entries(entries@, allowed@, entries@.len() as int)[k].vo.md5@
            &&& res@[k].time == visible_entries(entries@, allowed@, entries@.len() as int)[k].vo.time
        },
{
    let mut res: Vec<BinaryMd5Vo> = Vec::new();
    let mut i: usize = 0;
    while i < entries.len()
        invariant
            i <= entries@.len(),
            res@.len() == visible_entries(entries@, allowed@, i as int).len(),
            forall|k: int| 0 <= k < res@.len() ==> {
                &&& #[trigger] res@[k].md5@ == visible_entries(entries@, allowed@, i as int)[k].vo.md5@
                &&& res@[k].time == visible_entries(entries@, allowed@, i as int)[k].vo.time
            },
        decreases entries@.len() - i,
    {
        let e = &entries[i];
        let f = entry_flag(e.key.as_str());
        if contains_i32(allowed, f) {
            res.push(copy_vo(&e.vo));
        }
        i += 1;
    }
    res
}

proof fn lemma_visible_filter(entries: Seq<ResultEntry>, allowed: Seq<i32>, n: int)
    requires
        0 <= n <= entries.len(),
    ensures
        visible_entries(entries, allowed, n) == entries.take(n).filter(
            |e: ResultEntry| allowed.contains(key_flag(e.key@)),
        ),
    decreases n,
{
    let pred = |e: ResultEntry| allowed.contains(key_flag(e.key@));
    if n == 0 {
        reveal(Seq::filter);
        assert(entries.take(0).filter(pred) =~= Seq::<ResultEntry>::empty());
    } else {
        lemma_visible_filter(entries, allowed, n - 1);
        assert(entries.take(n) =~= entries.take(n - 1).push(entries[n - 1]));
        entries.take(n - 1).lemma_filter_push(entries[n - 1], pred);
    }
}

/// The md5 list of a role holds, in set order, exactly the pages whose key
/// flag the role may see: it is the set filtered by that flag.
pub proof fn listed_pages_are_the_visible_ones(entries: Seq<ResultEntry>, allowed: Seq<i32>)
    ensures
        visible_entries(entries, allowed, entries.len() as int) == entries.filter(
            |e: ResultEntry| allowed.contains(key_flag(e.key@)),
        ),
{
    lemma_visible_filter(entries, allowed, entries.len() as int);
    assert(entries.take(entries.len() as int) =~= entries);
}

/// Why a page fetch is refused: no page the role may see has that digest.
#[derive(Clone, Copy, PartialEq, Eq, Structural, Debug)]
pub enum PageError {
    NotFound,
}

impl PageError {
    /// The message sent back to the client.
    pub fn message(&self) -> (res: &'static str)
        ensures
            res@ == "分页数据未生成或超出获取范围"@,
    {
        "分页数据未生成或超出获取范围"
    }
}

/// The first page, among the first `n`, with digest `md5` whose flag the
/// role may see.
pub open spec fn first_page_for(entries: Seq<ResultEntry>, md5: Seq<char>, allowed: Seq<i32>, n: int) -> Option<int>
    decreases n,
{
    if n <= 0 {
        None
    } else {
        match first_page_for(entries, md5, allowed, n - 1) {
            Some(k) => Some(k),
            None => if entries[n - 1].vo.md5@ == md5 && flag_allowed(allowed, entries[n - 1].key@) {
                Some(n - 1)
            } else {
                None
            },
        }
    }
}

/// The bytes of the first page with digest `md5` that the role may see;
/// `NotFound` when there is none (a digest alone does not open a page the
/// role may not see).
pub fn page_bytes(entries: &Vec<ResultEntry>, md5: &String, allowed: &Vec<i32>) -> (res: Result<Vec<u8>, PageError>)
    ensures
        match first_page_for(entries@, md5@, allowed@, entries@.len() as int) {
            Some(k) => res matches Ok(b) && b@ == entries@[k].bytes@,
            None => res == Err::<Vec<u8>, PageError>(PageError::NotFound),
        },
{
    let mut i: usize = 0;
    while i < entries.len()
        invariant
            i <= entries@.len(),
            first_page_for(entries@, md5@, allowed@, i as int) is None,
        decreases entries@.len() - i,
    {
        let e = &entries[i];
        if e.vo.md5 == *md5 && contains_i32(allowed, entry_flag(e.key.as_str())) {
            proof {
                lemma_first_page_stays(entries@, md5@, allowed@, i as int, entries@.len() as int);
            }
            return Ok(copy_bytes(&e.bytes));
        }
        i += 1;
    }
    Err(PageError::NotFound)
}

proof fn lemma_first_page_stays(entries: Seq<ResultEntry>, md5: Seq<char>, allowed: Seq<i32>, i: int, n: int)
    requires
        0 <= i < n,
        first_page_for(entries, md5, allowed, i + 1) == Some(i),
    ensures
        first_page_for(entries, md5, allowed, n) == Some(i),
    decreases n - i,
{
    if n > i + 1 {
        lemma_first_page_stays(entries, md5, allowed, i, n - 1);
    }
}

proof fn lemma_visible_from(entries: Seq<ResultEntry>, allowed: Seq<i32>, n: int, k: int)
    requires
        0 <= n <= entries.len(),
        0 <= k < visible_entries(entries, allowed, n).len(),
    ensures
        exists|j: int|
            0 <= j < n && #[trigger] entries[j] == visible_entries(entries, allowed, n)[k] && flag_allowed(
                allowed,
                entries[j].key@,
            ),
    decreases n,
{
    let p = visible_entries(entries, allowed, n - 1);
    if k < p.len() {
        lemma_visible_from(entries, allowed, n - 1, k);
        let j = choose|j: int| 0 <= j < n - 1 && #[trigger] entries[j] == p[k] && flag_allowed(allowed, entries[j].key@);
        assert(entries[j] == visible_entries(entries, allowed, n)[k]);
    } else {
        assert(entries[n - 1] == visible_entries(entries, allowed, n)[k]);
    }
}

proof fn lemma_first_page_found(entries: Seq<ResultEntry>, md5: Seq<char>, allowed: Seq<i32>, n: int, j: int)
    requires
        0 <= j < n <= entries.len(),
        entries[j].vo.md5@ == md5,
        flag_allowed(allowed, entries[j].key@),
    ensures
        first_page_for(entries, md5, allowed, n) matches Some(i) && 0 <= i < n && entries[i].vo.md5@ == md5
            && flag_allowed(allowed, entries[i].key@),
    decreases n,
{
    if j < n - 1 {
        lemma_first_page_found(entries, md5, allowed, n - 1, j);
    } else {
        lemma_first_page_some(entries, md5, allowed, n - 1);
    }
}

proof fn lemma_first_page_some(entries: Seq<ResultEntry>, md5: Seq<char>, allowed: Seq<i32>, n: int)
    requires
        0 <= n,
    ensures
        first_page_for(entries, md5, allowed, n) matches Some(i) ==> 0 <= i < n && entries[i].vo.md5@ == md5
            && flag_allowed(allowed, entries[i].key@),
    decreases n,
{
    if n > 0 {
        lemma_first_page_some(entries, md5, allowed, n - 1);
    }
}

/// Every digest listed for a role opens a page for that role: the digest
/// of any entry that `visible_md5s` lists names, for `page_bytes` with the
/// same allowed flags, a page with that digest which the role may see.
pub proof fn listed_pages_are_served(entries: Seq<ResultEntry>, allowed: Seq<i32>, k: int)
    requires
        0 <= k < visible_entries(entries, allowed, entries.len() as int).len(),
    ensures
        ({
            let md5 = visible_entries(entries, allowed, entries.len() as int)[k].vo.md5@;
            first_page_for(entries, md5, allowed, entries.len() as int) matches Some(i) && entries[i].vo.md5@
                == md5 && flag_allowed(allowed, entries[i].key@)
        }),
{
    let n = entries.len() as int;
    lemma_visible_from(entries, allowed, n, k);
    let j = choose|j: int|
        0 <= j < n && #[trigger] entries[j] == visible_entries(entries, allowed, n)[k] && flag_allowed(
            allowed,
            entries[j].key@,
        );
    lemma_first_page_found(entries, visible_entries(entries, allowed, n)[k].vo.md5@, allowed, n, j);
}

proof fn lemma_first_page_none(entries: Seq<ResultEntry>, md5: Seq<char>, allowed: Seq<i32>, n: int)
    requires
        0 <= n <= entries.len(),
        first_page_for(entries, md5, allowed, n) is None,
    ensures
        forall|j: int| 0 <= j < n ==> !((#[trigger] entries[j]).vo.md5@ == md5 && flag_allowed(allowed, entries[j].key@)),
    decreases n,
{
    if n > 0 {
        lemma_first_page_none(entries, md5, allowed, n - 1);
    }
}

proof fn lemma_first_page_is_first(entries: Seq<ResultEntry>, md5: Seq<char>, allowed: Seq<i32>, n: int)
    requires
        0 <= n <= entries.len(),
        first_page_for(entries, md5, allowed, n) is Some,
    ensures
        forall|j: int|
            0 <= j < first_page_for(entries, md5, allowed, n)->0 ==> !((#[trigger] entries[j]).vo.md5@ == md5
                && flag_allowed(allowed, entries[j].key@)),
    decreases n,
{
    if first_page_for(entries, md5, allowed, n - 1) is Some {
        lemma_first_page_is_first(entries, md5, allowed, n - 1);
    } else {
        lemma_first_page_none(entries, md5, allowed, n - 1);
    }
}

/// A page fetch serves the first page, in set order, whose digest is the
/// one asked for and whose key flag the role may see; it is refused
/// exactly when no page has that digest and a flag the role may see.
pub proof fn page_fetch_serves_first_visible_match(entries: Seq<ResultEntry>, md5: Seq<char>, allowed: Seq<i32>)
    ensures
        first_page_for(entries, md5, allowed, entries.len() as int) is None <==> forall|j: int|
            0 <= j < entries.len() ==> !((#[trigger] entries[j]).vo.md5@ == md5 && allowed.contains(key_flag(entries[j].key@))),
        first_page_for(entries, md5, allowed, entries.len() as int) matches Some(i) ==> {
            &&& 0 <= i < entries.len()
            &&& entries[i].vo.md5@ == md5
            &&& allowed.contains(key_flag(entries[i].key@))
            &&& forall|j: int|
                0 <= j < i ==> !((#[trigger] entries[j]).vo.md5@ == md5 && allowed.contains(key_flag(entries[j].key@)))
        },
{
    let n = entries.len() as int;
    lemma_first_page_some(entries, md5, allowed, n);
    if first_page_for(entries, md5, allowed, n) is Some {
        lemma_first_page_is_first(entries, md5, allowed, n);
    } else {
        lemma_first_page_none(entries, md5, allowed, n);
    }
}

/// Every entry is keyed by the MD5 of its bytes, as `compress_md5` keys
/// the pages it makes.
pub open spec fn keyed_by_digest(entries: Seq<ResultEntry>) -> bool {
    forall|i: int| 0 <= i < entries.len() ==> (#[trigger] entries[i]).vo.md5@ == hex_of(md5_of(entries[i].bytes@))
}

/// Where the pages are keyed by the digest of their bytes, the page that
/// `page_bytes` serves for a digest listed for a role has exactly that
/// digest.
pub proof fn listed_pages_match_their_digest(entries: Seq<ResultEntry>, allowed: Seq<i32>, k: int)
    requires
        keyed_by_digest(entries),
        0 <= k < visible_entries(entries, allowed, entries.len() as int).len(),
    ensures
        ({
            let md5 = visible_entries(entries, allowed, entries.len() as int)[k].vo.md5@;
            first_page_for(entries, md5, allowed, entries.len() as int) matches Some(i) && hex_of(
                md5_of(entries[i].bytes@),
            ) == md5
        }),
{
    listed_pages_are_served(entries, allowed, k);
    let md5 = visible_entries(entries, allowed, entries.len() as int)[k].vo.md5@;
    lemma_first_page_some(entries, md5, allowed, entries.len() as int);
    let i = first_page_for(entries, md5, allowed, entries.len() as int)->0;
    assert(entries[i].vo.md5@ == hex_of(md5_of(entries[i].bytes@)));
}

/// Markers per page of the visible group.
pub const MARKER_PAGE_SIZE: i64 = 3000;

/// Integer division that truncates toward zero (Rust's `/` on `i64`).
pub open spec fn trunc_div(a: int, b: int) -> int {
    if a >= 0 {
        a / b
    } else {
        -((-a) / b)
    }
}

/// The page of a marker: markers of the visible group (flag 0) are paged
/// by `id / 3000`; every other group is one page, number 0.
pub open spec fn page_of(flag: i32, id: i64) -> i64 {
    if flag == 0 {
        trunc_div(id as int, MARKER_PAGE_SIZE as int) as i64
    } else {
        0
    }
}

/// Page keys ordered by flag, then by page number.
pub open spec fn page_before(a: (i32, i64), b: (i32, i64)) -> bool {
    a.0 < b.0 || (a.0 == b.0 && a.1 < b.1)
}

/// The rows, among the first `n` markers `(id, flag)`, on page `(flag, page)`.
pub open spec fn rows_on_page(markers: Seq<(i64, i32)>, key: (i32, i64), n: int) -> Seq<usize>
    decreases n,
{
    if n <= 0 {
        Seq::empty()
    } else {
        let p = rows_on_page(markers, key, n - 1);
        let m = markers[n - 1];
        if m.1 == key.0 && page_of(m.1, m.0) == key.1 {
            p.push((n - 1) as usize)
        } else {
            p
        }
    }
}

/// One marker page: its flag, its number and the rows of its markers.
pub struct MarkerPage {
    pub flag: i32,
    pub page: i64,
    pub rows: Vec<usize>,
}

/// The key of a page.
pub open spec fn page_key(p: MarkerPage) -> (i32, i64) {
    (p.flag, p.page)
}

fn page_of_exec(flag: i32, id: i64) -> (res: i64)
    ensures
        res == page_of(flag, id),
{
    if flag == 0 {
        if id >= 0 {
            id / 3000
        } else {
            let q: i128 = (-(id as i128)) / 3000;
            -(q as i64)
        }
    } else {
        0
    }
}

/// Some page has key `key`.
pub open spec fn has_page(pages: Seq<MarkerPage>, key: (i32, i64)) -> bool {
    exists|k: int| 0 <= k < pages.len() && #[trigger] page_key(pages[k]) == key
}

/// The key of marker `j`'s page.
pub open spec fn marker_key(markers: Seq<(i64, i32)>, j: int) -> (i32, i64) {
    (markers[j].1, page_of(markers[j].1, markers[j].0))
}

/// The pages are ordered by key.
pub open spec fn pages_sorted(pages: Seq<MarkerPage>) -> bool {
    forall|a: int, b: int| 0 <= a < b < pages.len() ==> page_before(#[trigger] page_key(pages[a]), #[trigger] page_key(pages[b]))
}

spec fn pages_inv(markers: Seq<(i64, i32)>, pages: Seq<MarkerPage>, n: int) -> bool {
    &&& pages_sorted(pages)
    &&& forall|k: int| 0 <= k < pages.len() ==> #[trigger] pages[k].rows@ == rows_on_page(markers, page_key(pages[k]), n)
        && pages[k].rows@.len() > 0
    &&& forall|j: int| 0 <= j < n ==> has_page(pages, #[trigger] marker_key(markers, j))
}

proof fn lemma_rows_on_page_absent(markers: Seq<(i64, i32)>, key: (i32, i64), n: int)
    requires
        forall|j: int| 0 <= j < n ==> #[trigger] marker_key(markers, j) != key,
    ensures
        rows_on_page(markers, key, n) == Seq::<usize>::empty(),
    decreases n,
{
    if n > 0 {
        assert(marker_key(markers, n - 1) != key);
        lemma_rows_on_page_absent(markers, key, n - 1);
    }
}

proof fn lemma_after_pos(pages: Seq<MarkerPage>, pos: int, key: (i32, i64))
    requires
        pages_sorted(pages),
        0 <= pos < pages.len(),
        !page_before(page_key(pages[pos]), key),
        page_key(pages[pos]) != key,
    ensures
        forall|k: int| pos <= k < pages.len() ==> page_before(key, #[trigger] page_key(pages[k])),
{
    assert forall|k: int| pos <= k < pages.len() implies page_before(key, #[trigger] page_key(pages[k])) by {
        if k > pos {
            assert(page_before(page_key(pages[pos]), page_key(pages[k])));
        }
    }
}

proof fn lemma_add_to_page(markers: Seq<(i64, i32)>, old_pages: Seq<MarkerPage>, pages: Seq<MarkerPage>, pos: int, i: int)
    requires
        0 <= i < markers.len() <= usize::MAX,
        pages_inv(markers, old_pages, i),
        0 <= pos < old_pages.len(),
        page_key(old_pages[pos]) == marker_key(markers, i),
        pages.len() == old_pages.len(),
        page_key(pages[pos]) == page_key(old_pages[pos]),
        pages[pos].rows@ == old_pages[pos].rows@.push(i as usize),
        forall|k: int| 0 <= k < pages.len() && k != pos ==> #[trigger] pages[k] == old_pages[k],
    ensures
        pages_inv(markers, pages, i + 1),
{
    let key = marker_key(markers, i);
    assert forall|k: int| 0 <= k < pages.len() implies #[trigger] pages[k].rows@ == rows_on_page(markers, page_key(pages[k]), i + 1)
        && pages[k].rows@.len() > 0 by {
        if k != pos {
            assert(pages[k] == old_pages[k]);
            assert(page_key(old_pages[k]) != key) by {
                if k < pos {
                    assert(page_before(page_key(old_pages[k]), page_key(old_pages[pos])));
                } else {
                    assert(page_before(page_key(old_pages[pos]), page_key(old_pages[k])));
                }
            }
        }
    }
    assert forall|a: int, b: int| 0 <= a < b < pages.len() implies page_before(#[trigger] page_key(pages[a]), #[trigger] page_key(pages[b])) by {
        assert(page_key(pages[a]) == page_key(old_pages[a]));
        assert(page_key(pages[b]) == page_key(old_pages[b]));
    }
    assert forall|j: int| 0 <= j < i + 1 implies has_page(pages, #[trigger] marker_key(markers, j)) by {
        if j < i {
            let k = choose|k: int| 0 <= k < old_pages.len() && #[trigger] page_key(old_pages[k]) == marker_key(markers, j);
            assert(page_key(pages[k]) == page_key(old_pages[k]));
        } else {
            assert(page_key(pages[pos]) == key);
        }
    }
}

proof fn lemma_new_page(markers: Seq<(i64, i32)>, old_pages: Seq<MarkerPage>, pages: Seq<MarkerPage>, pos: int, i: int)
    requires
        0 <= i < markers.len() <= usize::MAX,
        pages_inv(markers, old_pages, i),
        0 <= pos <= old_pages.len(),
        forall|t: int| 0 <= t < pos ==> page_before(#[trigger] page_key(old_pages[t]), marker_key(markers, i)),
        forall|t: int| pos <= t < old_pages.len() ==> page_before(marker_key(markers, i), #[trigger] page_key(old_pages[t])),
        pages == old_pages.insert(pos, pages[pos]),
        page_key(pages[pos]) == marker_key(markers, i),
        pages[pos].rows@ == seq![i as usize],
    ensures
        pages_inv(markers, pages, i + 1),
{
    let key = marker_key(markers, i);
    assert forall|j: int| 0 <= j < i implies #[trigger] marker_key(markers, j) != key by {
        let k = choose|k: int| 0 <= k < old_pages.len() && #[trigger] page_key(old_pages[k]) == marker_key(markers, j);
        if k < pos {
            assert(page_before(page_key(old_pages[k]), key));
        } else {
            assert(page_before(key, page_key(old_pages[k])));
        }
    }
    lemma_rows_on_page_absent(markers, key, i);
    assert(rows_on_page(markers, key, i + 1) == rows_on_page(markers, key, i).push(i as usize));
    assert(pages[pos].rows@ =~= rows_on_page(markers, key, i + 1));
    assert forall|k: int| 0 <= k < pages.len() implies #[trigger] pages[k].rows@ == rows_on_page(markers, page_key(pages[k]), i + 1)
        && pages[k].rows@.len() > 0 by {
        if k < pos {
            assert(pages[k] == old_pages[k]);
            assert(page_before(page_key(old_pages[k]), key));
        } else if k > pos {
            assert(pages[k] == old_pages[k - 1]);
            assert(page_before(key, page_key(old_pages[k - 1])));
        }
    }
    assert forall|a: int, b: int| 0 <= a < b < pages.len() implies page_before(#[trigger] page_key(pages[a]), #[trigger] page_key(pages[b])) by {
        if b < pos {
            assert(pages[a] == old_pages[a]);
            assert(pages[b] == old_pages[b]);
        } else if b == pos {
            assert(pages[a] == old_pages[a]);
        } else if a < pos {
            assert(pages[a] == old_pages[a]);
            assert(pages[b] == old_pages[b - 1]);
            assert(page_before(key, page_key(old_pages[b - 1])));
        } else if a == pos {
            assert(pages[b] == old_pages[b - 1]);
        } else {
            assert(pages[a] == old_pages[a - 1]);
            assert(pages[b] == old_pages[b - 1]);
        }
    }
    assert forall|j: int| 0 <= j < i + 1 implies has_page(pages, #[trigger] marker_key(markers, j)) by {
        if j < i {
            let k = choose|k: int| 0 <= k < old_pages.len() && #[trigger] page_key(old_pages[k]) == marker_key(markers, j);
            if k < pos {
                assert(pages[k] == old_pages[k]);
            } else {
                assert(pages[k + 1] == old_pages[k]);
            }
        } else {
            assert(page_key(pages[pos]) == key);
        }
    }
}

/// What `plan_marker_pages` gives for a marker set.
pub open spec fn marker_pages_of(markers: Seq<(i64, i32)>, pages: Seq<MarkerPage>) -> bool {
    &&& pages_sorted(pages)
    &&& forall|k: int| 0 <= k < pages.len() ==> #[trigger] pages[k].rows@ == rows_on_page(markers, page_key(pages[k]), markers.len() as int)
        && pages[k].rows@.len() > 0
    &&& forall|j: int| 0 <= j < markers.len() ==> has_page(pages, #[trigger] marker_key(markers, j))
}

proof fn lemma_page_rows_members(markers: Seq<(i64, i32)>, key: (i32, i64), n: int)
    requires
        0 <= n <= markers.len(),
        markers.len() <= usize::MAX,
    ensures
        forall|r: int| 0 <= r < rows_on_page(markers, key, n).len() ==> {
            let j = #[trigger] rows_on_page(markers, key, n)[r] as int;
            0 <= j < n && marker_key(markers, j) == key
        },
        forall|j: int| 0 <= j < n && marker_key(markers, j) == key ==> #[trigger] rows_on_page(markers, key, n).contains(
            j as usize,
        ),
    decreases n,
{
    if n > 0 {
        lemma_page_rows_members(markers, key, n - 1);
        let p = rows_on_page(markers, key, n - 1);
        let q = rows_on_page(markers, key, n);
        assert forall|j: int| 0 <= j < n && marker_key(markers, j) == key implies #[trigger] q.contains(j as usize) by {
            if j < n - 1 {
                assert(p.contains(j as usize));
                let r = choose|r: int| 0 <= r < p.len() && p[r] == j as usize;
                assert(q[r] == p[r]);
            } else {
                assert(q[q.len() - 1] == j as usize);
            }
        }
        assert forall|r: int| 0 <= r < q.len() implies {
            let j = #[trigger] q[r] as int;
            0 <= j < n && marker_key(markers, j) == key
        } by {
            if r < p.len() {
                assert(q[r] == p[r]);
            } else {
                assert(q[r] == (n - 1) as usize);
            }
        }
    }
}

proof fn lemma_page_number(flag: i32, id: i64)
    ensures
        flag != 0 ==> page_of(flag, id) == 0,
        flag == 0 && id >= 0 ==> page_of(flag, id) == id / 3000,
        flag == 0 && id < 0 ==> page_of(flag, id) == -((-id) / 3000),
{
    if id >= 0 {
        assert(0 <= id / 3000 <= id);
    } else {
        assert(0 <= (-id) / 3000 <= -id);
    }
}

/// Row `j` is listed on some page.
pub open spec fn on_some_page(pages: Seq<MarkerPage>, j: int) -> bool {
    exists|k: int| 0 <= k < pages.len() && #[trigger] pages[k].rows@.contains(j as usize)
}

/// Where each marker goes: every marker is listed on some page, and every
/// marker listed on a page has that page's flag; a marker whose flag is not
/// 0 is on page 0 of its flag's group, since only the visible group (flag 0)
/// is split, by `id / 3000` truncated toward zero.
pub proof fn marker_page_placement(markers: Seq<(i64, i32)>, pages: Seq<MarkerPage>)
    requires
        marker_pages_of(markers, pages),
        markers.len() <= usize::MAX,
    ensures
        forall|j: int| 0 <= j < markers.len() ==> #[trigger] on_some_page(pages, j),
        forall|k: int, r: int| 0 <= k < pages.len() && 0 <= r < pages[k].rows@.len() ==> {
            let j = (#[trigger] pages[k].rows@[r]) as int;
            &&& 0 <= j < markers.len()
            &&& pages[k].flag == markers[j].1
            &&& markers[j].1 != 0 ==> pages[k].page == 0
            &&& markers[j].1 == 0 && markers[j].0 >= 0 ==> pages[k].page == markers[j].0 / 3000
            &&& markers[j].1 == 0 && markers[j].0 < 0 ==> pages[k].page == -((-markers[j].0) / 3000)
        },
{
    let n = markers.len() as int;
    assert forall|j: int| 0 <= j < n implies #[trigger] on_some_page(pages, j) by {
        assert(has_page(pages, marker_key(markers, j)));
        let k = choose|k: int| 0 <= k < pages.len() && #[trigger] page_key(pages[k]) == marker_key(markers, j);
        lemma_page_rows_members(markers, page_key(pages[k]), n);
        assert(pages[k].rows@ == rows_on_page(markers, page_key(pages[k]), n));
        assert(pages[k].rows@.contains(j as usize));
    }
    assert forall|k: int, r: int| 0 <= k < pages.len() && 0 <= r < pages[k].rows@.len() implies {
        let j = (#[trigger] pages[k].rows@[r]) as int;
        &&& 0 <= j < markers.len()
        &&& pages[k].flag == markers[j].1
        &&& markers[j].1 != 0 ==> pages[k].page == 0
        &&& markers[j].1 == 0 && markers[j].0 >= 0 ==> pages[k].page == markers[j].0 / 3000
        &&& markers[j].1 == 0 && markers[j].0 < 0 ==> pages[k].page == -((-markers[j].0) / 3000)
    } by {
        lemma_page_rows_members(markers, page_key(pages[k]), n);
        assert(pages[k].rows@ == rows_on_page(markers, page_key(pages[k]), n));
        let j = pages[k].rows@[r] as int;
        assert(marker_key(markers, j) == page_key(pages[k]));
        lemma_page_number(markers[j].1, markers[j].0);
    }
}

/// The marker pages of a marker set `(id, flag)`: grouped by flag, the
/// visible group split by `id / 3000`; pages ordered by flag, then page
/// number; each with its rows in order, and every marker on its page.
pub fn plan_marker_pages(markers: &Vec<(i64, i32)>) -> (res: Vec<MarkerPage>)
    ensures
        pages_sorted(res@),
        forall|k: int| 0 <= k < res@.len() ==> #[trigger] res@[k].rows@ == rows_on_page(markers@, page_key(res@[k]), markers@.len() as int)
            && res@[k].rows@.len() > 0,
        forall|j: int| 0 <= j < markers@.len() ==> has_page(res@, #[trigger] marker_key(markers@, j)),
        marker_pages_of(markers@, res@),
{
    let mut pages: Vec<MarkerPage> = Vec::new();
    let mut i: usize = 0;
    let n = markers.len();
    while i < markers.len()
        invariant
            i <= markers@.len(),
            n == markers@.len(),
            pages_inv(markers@, pages@, i as int),
        decreases markers@.len() - i,
    {
        let (id, flag) = markers[i];
        let page = page_of_exec(flag, id);
        let ghost key = (flag, page);
        assert(key == marker_key(markers@, i as int));
        let ghost old_pages = pages@;
        let mut pos: usize = 0;
        while pos < pages.len() && (pages[pos].flag < flag || (pages[pos].flag == flag && pages[pos].page < page))
            invariant
                pos <= pages@.len(),
                pages@ == old_pages,
                key == (flag, page),
                forall|t: int| 0 <= t < pos ==> page_before(#[trigger] page_key(pages@[t]), key),
            decreases pages@.len() - pos,
        {
            pos += 1;
        }
        if pos < pages.len() && pages[pos].flag == flag && pages[pos].page == page {
            let mut p = pages.remove(pos);
            p.rows.push(i);
            pages.insert(pos, p);
            proof {
                lemma_add_to_page(markers@, old_pages, pages@, pos as int, i as int);
            }
        } else {
            proof {
                if pos < old_pages.len() {
                    lemma_after_pos(old_pages, pos as int, key);
                }
            }
            let mut rows: Vec<usize> = Vec::new();
            rows.push(i);
            pages.insert(pos, MarkerPage { flag, page, rows });
            proof {
                lemma_new_page(markers@, old_pages, pages@, pos as int, i as int);
            }
        }
        i += 1;
    }
    pages
}
/// A byte that URL encoding keeps: ASCII letters and digits, `-`, `.`, `_`, `~`.
pub open spec fn url_safe(b: u8) -> bool {
    (48 <= b && b <= 57) || (65 <= b && b <= 90) || (97 <= b && b <= 122) || b == 45 || b == 46 || b == 95 || b == 126
}

/// The uppercase hex digit of `d < 16`.
pub open spec fn upper_hex(d: u8) -> char {
    if d < 10 {
        (d + 48) as char
    } else {
        (d + 55) as char
    }
}

/// Percent-encoding of bytes: a safe byte stays as its character, any other
/// becomes `%` and two uppercase hex digits.
pub open spec fn url_encoded(bytes: Seq<u8>) -> Seq<char>
    decreases bytes.len(),
{
    if bytes.len() == 0 {
        Seq::empty()
    } else {
        let b = bytes.last();
        url_encoded(bytes.drop_last()) + if url_safe(b) {
            seq![b as char]
        } else {
            seq!['%', upper_hex(b / 16), upper_hex(b % 16)]
        }
    }
}

/// `urlencoding::encode`: percent-encodes every UTF-8 byte of the text but
/// ASCII letters, digits and `-`, `_`, `.`, `~`, with uppercase hex digits.
#[verifier::external_body]
fn url_encode(s: &str) -> (res: String)
    ensures
        res@ == url_encoded(encode_utf8(s@)),
{
    urlencoding::encode(s).into_owned()
}

/// The icon URL that clients get: a URL on the `ddns.minemc.top` host goes
/// through the image proxy at `base` when one is configured.
pub open spec fn icon_url_text(url: Seq<char>, base: Seq<char>) -> Seq<char> {
    if contains_seq(url, "ddns.minemc.top"@) && base.len() > 0 {
        base + "/cdn/img-proxy?u="@ + url_encoded(encode_utf8(url))
    } else {
        url
    }
}

/// The icon URL that clients get (`base` is the configured proxy, empty
/// when there is none).
pub fn proxied_icon_url(url: &String, base: &String) -> (res: String)
    ensures
        res@ == icon_url_text(url@, base@),
{
    let u = chars_of(url.as_str());
    let host = chars_of("ddns.minemc.top");
    if contains_exec(&u, &host) && !base.as_str().is_empty() {
        let mut s = String::new();
        push_text(&mut s, base.as_str());
        push_text(&mut s, "/cdn/img-proxy?u=");
        let e = url_encode(url.as_str());
        push_text(&mut s, e.as_str());
        s
    } else {
        url.clone()
    }
}

/// An icon in the icon blob.
pub struct IconDocVo {
    pub id: i64,
    pub name: String,
    pub url: String,
    pub type_id_list: Vec<i64>,
}

/// The rows, among the first `n`, whose flag is `f`.
pub open spec fn flag_rows(flags: Seq<i32>, f: i32, n: int) -> Seq<usize>
    decreases n,
{
    if n <= 0 {
        Seq::empty()
    } else {
        let p = flag_rows(flags, f, n - 1);
        if flags[n - 1] == f {
            p.push((n - 1) as usize)
        } else {
            p
        }
    }
}

proof fn lemma_flag_rows(flags: Seq<i32>, pairs: Seq<(i64, i32)>, f: i32, n: int)
    requires
        0 <= n <= flags.len(),
        pairs.len() == flags.len(),
        forall|i: int| 0 <= i < flags.len() ==> #[trigger] pairs[i] == (0i64, flags[i]),
    ensures
        rows_on_page(pairs, (f, 0i64), n) == flag_rows(flags, f, n),
    decreases n,
{
    if n > 0 {
        lemma_flag_rows(flags, pairs, f, n - 1);
        assert(pairs[n - 1] == (0i64, flags[n - 1]));
        assert(page_of(flags[n - 1], 0) == 0) by {
            if flags[n - 1] == 0 {
                assert(trunc_div(0, 3000) == 0);
            }
        }
    }
}

/// Some page is for flag `f`.
pub open spec fn has_flag_page(pages: Seq<(i32, Vec<usize>)>, f: i32) -> bool {
    exists|k: int| 0 <= k < pages.len() && #[trigger] pages[k].0 == f
}

/// What `plan_item_pages` gives for the items' flags.
pub open spec fn item_pages_of(flags: Seq<i32>, pages: Seq<(i32, Vec<usize>)>) -> bool {
    &&& forall|a: int, b: int| 0 <= a < b < pages.len() ==> #[trigger] pages[a].0 < #[trigger] pages[b].0
    &&& forall|k: int| 0 <= k < pages.len() ==> #[trigger] pages[k].1@ == flag_rows(flags, pages[k].0, flags.len() as int)
        && pages[k].1@.len() > 0
    &&& forall|j: int| 0 <= j < flags.len() ==> has_flag_page(pages, #[trigger] flags[j])
}

proof fn lemma_flag_rows_members(flags: Seq<i32>, f: i32, n: int)
    requires
        0 <= n <= flags.len() <= usize::MAX,
    ensures
        forall|r: int| 0 <= r < flag_rows(flags, f, n).len() ==> {
            let j = #[trigger] flag_rows(flags, f, n)[r] as int;
            0 <= j < n && flags[j] == f
        },
        forall|j: int| 0 <= j < n && #[trigger] flags[j] == f ==> flag_rows(flags, f, n).contains(j as usize),
    decreases n,
{
    if n > 0 {
        lemma_flag_rows_members(flags, f, n - 1);
        let p = flag_rows(flags, f, n - 1);
        let q = flag_rows(flags, f, n);
        assert forall|j: int| 0 <= j < n && #[trigger] flags[j] == f implies q.contains(j as usize) by {
            if j < n - 1 {
                let r = choose|r: int| 0 <= r < p.len() && p[r] == j as usize;
                assert(q[r] == p[r]);
            } else {
                assert(q[q.len() - 1] == j as usize);
            }
        }
        assert forall|r: int| 0 <= r < q.len() implies {
            let j = #[trigger] q[r] as int;
            0 <= j < n && flags[j] == f
        } by {
            if r < p.len() {
                assert(q[r] == p[r]);
            }
        }
    }
}

/// Item `j` is listed on some page.
pub open spec fn item_on_some_page(pages: Seq<(i32, Vec<usize>)>, j: int) -> bool {
    exists|k: int| 0 <= k < pages.len() && #[trigger] pages[k].1@.contains(j as usize)
}

/// Where each item goes: every item is listed on some page, every item
/// listed on a page has that page's flag, and no two pages share a flag.
pub proof fn item_page_placement(flags: Seq<i32>, pages: Seq<(i32, Vec<usize>)>)
    requires
        item_pages_of(flags, pages),
        flags.len() <= usize::MAX,
    ensures
        forall|j: int| 0 <= j < flags.len() ==> #[trigger] item_on_some_page(pages, j),
        forall|k: int, r: int|
            0 <= k < pages.len() && 0 <= r < pages[k].1@.len() ==> (#[trigger] pages[k].1@[r] as int) < flags.len()
                && flags[pages[k].1@[r] as int] == pages[k].0,
        forall|a: int, b: int| 0 <= a < pages.len() && 0 <= b < pages.len() && a != b ==> #[trigger] pages[a].0
            != #[trigger] pages[b].0,
{
    let n = flags.len() as int;
    assert forall|j: int| 0 <= j < n implies #[trigger] item_on_some_page(pages, j) by {
        assert(has_flag_page(pages, flags[j]));
        let k = choose|k: int| 0 <= k < pages.len() && #[trigger] pages[k].0 == flags[j];
        lemma_flag_rows_members(flags, pages[k].0, n);
        assert(pages[k].1@.contains(j as usize));
    }
    assert forall|k: int, r: int| 0 <= k < pages.len() && 0 <= r < pages[k].1@.len() implies (
    #[trigger] pages[k].1@[r] as int) < flags.len() && flags[pages[k].1@[r] as int] == pages[k].0 by {
        lemma_flag_rows_members(flags, pages[k].0, n);
    }
    assert forall|a: int, b: int| 0 <= a < pages.len() && 0 <= b < pages.len() && a != b implies #[trigger] pages[a].0
        != #[trigger] pages[b].0 by {
        if a < b {
            assert(pages[a].0 < pages[b].0);
        } else {
            assert(pages[b].0 < pages[a].0);
        }
    }
}

/// The item pages: one per hidden flag, ascending, each with the rows of
/// its items in order (every item on the page of its flag).
pub fn plan_item_pages(flags: &Vec<i32>) -> (res: Vec<(i32, Vec<usize>)>)
    ensures
        forall|a: int, b: int| 0 <= a < b < res@.len() ==> #[trigger] res@[a].0 < #[trigger] res@[b].0,
        forall|k: int| 0 <= k < res@.len() ==> #[trigger] res@[k].1@ == flag_rows(flags@, res@[k].0, flags@.len() as int)
            && res@[k].1@.len() > 0,
        forall|j: int| 0 <= j < flags@.len() ==> has_flag_page(res@, #[trigger] flags@[j]),
        item_pages_of(flags@, res@),
{
    let mut pairs: Vec<(i64, i32)> = Vec::new();
    let mut i: usize = 0;
    while i < flags.len()
        invariant
            i <= flags@.len(),
            pairs@.len() == i,
            forall|t: int| 0 <= t < i ==> #[trigger] pairs@[t] == (0i64, flags@[t]),
        decreases flags@.len() - i,
    {
        pairs.push((0, flags[i]));
        i += 1;
    }
    let pages = plan_marker_pages(&pairs);
    let np = pairs.len();
    let ghost pp = pages@;
    assert forall|k: int| 0 <= k < pp.len() implies #[trigger] pp[k].page == 0 by {
        let j = pp[k].rows@[0] as int;
        assert(pp[k].rows@ == rows_on_page(pairs@, page_key(pp[k]), pairs@.len() as int));
        lemma_rows_on_page_members(pairs@, page_key(pp[k]), pairs@.len() as int, 0);
        assert(pairs@[j] == (0i64, flags@[j]));
        if flags@[j] == 0 {
            assert(trunc_div(0, 3000) == 0);
        }
    }
    let mut res: Vec<(i32, Vec<usize>)> = Vec::new();
    let mut k: usize = 0;
    while k < pages.len()
        invariant
            k <= pages@.len(),
            pp == pages@,
            res@.len() == k,
            forall|t: int| 0 <= t < k ==> #[trigger] res@[t].0 == pages@[t].flag && res@[t].1@ == pages@[t].rows@,
        decreases pages@.len() - k,
    {
        let p = &pages[k];
        let mut rows: Vec<usize> = Vec::new();
        let mut t: usize = 0;
        while t < p.rows.len()
            invariant
                t <= p.rows@.len(),
                rows@ == p.rows@.take(t as int),
            decreases p.rows@.len() - t,
        {
            rows.push(p.rows[t]);
            assert(p.rows@.take(t + 1) == p.rows@.take(t as int).push(p.rows@[t as int]));
            t += 1;
        }
        assert(p.rows@.take(p.rows@.len() as int) == p.rows@);
        res.push((p.flag, rows));
        k += 1;
    }
    proof {
        assert forall|a: int, b: int| 0 <= a < b < res@.len() implies #[trigger] res@[a].0 < #[trigger] res@[b].0 by {
            assert(page_before(page_key(pp[a]), page_key(pp[b])));
        }
        assert forall|k: int| 0 <= k < res@.len() implies #[trigger] res@[k].1@ == flag_rows(flags@, res@[k].0, flags@.len() as int)
            && res@[k].1@.len() > 0 by {
            assert(pp[k].rows@ == rows_on_page(pairs@, page_key(pp[k]), pairs@.len() as int));
            assert(pp[k].page == 0);
            assert(page_key(pp[k]) == (pp[k].flag, 0i64));
            assert(res@[k].0 == pp[k].flag);
            assert(res@[k].1@ == pp[k].rows@);
            lemma_flag_rows(flags@, pairs@, pp[k].flag, flags@.len() as int);
        }
        assert forall|j: int| 0 <= j < flags@.len() implies has_flag_page(res@, #[trigger] flags@[j]) by {
            assert(has_page(pp, marker_key(pairs@, j)));
            let k = choose|k: int| 0 <= k < pp.len() && #[trigger] page_key(pp[k]) == marker_key(pairs@, j);
            assert(res@[k].0 == pp[k].flag);
        }
    }
    res
}

proof fn lemma_rows_on_page_members(markers: Seq<(i64, i32)>, key: (i32, i64), n: int, t: int)
    requires
        0 <= n <= markers.len() <= usize::MAX,
        0 <= t < rows_on_page(markers, key, n).len(),
    ensures
        0 <= rows_on_page(markers, key, n)[t] < n,
        marker_key(markers, rows_on_page(markers, key, n)[t] as int) == key,
    decreases n,
{
    if n > 0 {
        let p = rows_on_page(markers, key, n - 1);
        if t < p.len() {
            lemma_rows_on_page_members(markers, key, n - 1, t);
        }
    }
}

} // verus!
