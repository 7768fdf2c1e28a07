//! Planning a link request: the checks on what the client sent, the stored
//! direction of each pair, and which stored rows are revived, rewritten,
//! created or soft-deleted.

use vstd::prelude::*;
use vstd::string::*;
use crate::ids::{contains_i64, insert_sorted, strictly_increasing};
use crate::linkage::{LinkAction, MarkerLinkVo, logical, spec_pair_key, pair_key, push_new};

verus! {

/// One link as the client submits it (the path edges stay with the request
/// and are stored from the entry that `PendingLink::source` names).
#[derive(Clone, Copy, PartialEq, Eq, Structural, Debug)]
pub struct LinkRequest {
    pub from_id: i64,
    pub to_id: i64,
    pub link_action: Option<LinkAction>,
}

/// A stored linkage row (soft-deleted ones included) touching a submitted
/// marker.
pub struct ExistingLink {
    pub id: i64,
    pub group_id: String,
    pub from_id: i64,
    pub to_id: i64,
}

/// Why a link request is refused.
#[derive(Clone, Copy, PartialEq, Eq, Structural, Debug)]
pub enum LinkError {
    Empty,
    InvalidNode,
    SelfLink,
}

impl LinkError {
    /// The message sent back to the client.
    pub fn message(&self) -> (res: &'static str)
        ensures
            res@ == link_error_message(*self),
    {
        match self {
            LinkError::Empty => "关联数据不可为空",
            LinkError::InvalidNode => "无效的关联节点ID",
            LinkError::SelfLink => "不能将点位关联到自身",
        }
    }
}

/// The message of each refusal.
pub open spec fn link_error_message(e: LinkError) -> Seq<char> {
    match e {
        LinkError::Empty => "关联数据不可为空"@,
        LinkError::InvalidNode => "无效的关联节点ID"@,
        LinkError::SelfLink => "不能将点位关联到自身"@,
    }
}

/// What is wrong with one submitted link, if anything: an end that is not
/// a marker id comes before a link from a marker to itself.
pub open spec fn request_fault(p: LinkRequest) -> Option<LinkError> {
    if p.from_id <= 0 || p.to_id <= 0 {
        Some(LinkError::InvalidNode)
    } else if p.from_id == p.to_id {
        Some(LinkError::SelfLink)
    } else {
        None
    }
}

/// The fault of the first faulty link among the first `n`.
pub open spec fn first_fault(payload: Seq<LinkRequest>, n: int) -> Option<LinkError>
    decreases n,
{
    if n <= 0 {
        None
    } else {
        match first_fault(payload, n - 1) {
            Some(e) => Some(e),
            None => request_fault(payload[n - 1]),
        }
    }
}

proof fn lemma_first_fault_stays(payload: Seq<LinkRequest>, i: int, n: int)
    requires
        0 <= i < n,
        first_fault(payload, i + 1) is Some,
    ensures
        first_fault(payload, n) == first_fault(payload, i + 1),
    decreases n - i,
{
    if n > i + 1 {
        lemma_first_fault_stays(payload, i, n - 1);
    }
}

/// The verdict on a request: empty, or the fault of its first faulty link.
pub open spec fn payload_verdict(payload: Seq<LinkRequest>) -> Option<LinkError> {
    if payload.len() == 0 {
        Some(LinkError::Empty)
    } else {
        first_fault(payload, payload.len() as int)
    }
}

/// A link between two marker ids (both positive) that are not the same.
pub open spec fn sound_link(p: LinkRequest) -> bool {
    p.from_id > 0 && p.to_id > 0 && p.from_id != p.to_id
}

proof fn lemma_first_fault_found(payload: Seq<LinkRequest>, n: int)
    requires
        0 <= n <= payload.len(),
    ensures
        first_fault(payload, n) is None <==> forall|k: int| 0 <= k < n ==> #[trigger] sound_link(payload[k]),
        first_fault(payload, n) is Some ==> exists|k: int|
            0 <= k < n && (forall|t: int| 0 <= t < k ==> #[trigger] sound_link(payload[t])) && #[trigger] request_fault(
                payload[k],
            ) == first_fault(payload, n),
    decreases n,
{
    if n > 0 {
        lemma_first_fault_found(payload, n - 1);
        if first_fault(payload, n - 1) is Some {
            let k = choose|k: int|
                0 <= k < n - 1 && (forall|t: int| 0 <= t < k ==> #[trigger] sound_link(payload[t])) && #[trigger] request_fault(
                    payload[k],
                ) == first_fault(payload, n - 1);
            assert(!sound_link(payload[k]));
        } else if request_fault(payload[n - 1]) is Some {
            assert(request_fault(payload[n - 1]) == first_fault(payload, n));
            assert(!sound_link(payload[n - 1]));
        } else {
            assert(sound_link(payload[n - 1]));
        }
    }
}

proof fn lemma_first_unsound(payload: Seq<LinkRequest>, k: int)
    requires
        0 <= k < payload.len(),
        forall|t: int| 0 <= t < k ==> #[trigger] sound_link(payload[t]),
        !sound_link(payload[k]),
    ensures
        payload_verdict(payload) == request_fault(payload[k]),
        request_fault(payload[k]) is Some,
{
    lemma_first_fault_found(payload, k);
    lemma_first_fault_stays(payload, k, payload.len() as int);
}

/// A link request is refused as empty when it holds no link; otherwise it
/// is accepted exactly when every link joins two positive, different
/// marker ids, and else refused for its first unsound link: as an invalid
/// node when either end id is 0 or less, and as a self-link when both ends
/// are the same positive id.
pub proof fn link_payload_verdict(payload: Seq<LinkRequest>)
    ensures
        payload.len() == 0 ==> payload_verdict(payload) == Some(LinkError::Empty),
        payload_verdict(payload) is None <==> payload.len() > 0 && forall|k: int|
            0 <= k < payload.len() ==> #[trigger] sound_link(payload[k]),
        forall|k: int|
            0 <= k < payload.len() && (forall|t: int| 0 <= t < k ==> #[trigger] sound_link(payload[t])) && (
            #[trigger] payload[k].from_id <= 0 || payload[k].to_id <= 0) ==> payload_verdict(payload) == Some(
                LinkError::InvalidNode,
            ),
        forall|k: int|
            0 <= k < payload.len() && (forall|t: int| 0 <= t < k ==> #[trigger] sound_link(payload[t])) && #[trigger] payload[k].from_id
                > 0 && payload[k].to_id > 0 && payload[k].from_id == payload[k].to_id ==> payload_verdict(payload)
                == Some(LinkError::SelfLink),
        payload_verdict(payload) == Some(LinkError::InvalidNode) ==> exists|k: int|
            0 <= k < payload.len() && (#[trigger] payload[k].from_id <= 0 || payload[k].to_id <= 0),
        payload_verdict(payload) == Some(LinkError::SelfLink) ==> exists|k: int|
            0 <= k < payload.len() && #[trigger] payload[k].from_id == payload[k].to_id,
{
    let n = payload.len() as int;
    lemma_first_fault_found(payload, n);
    assert forall|k: int|
        0 <= k < payload.len() && (forall|t: int| 0 <= t < k ==> #[trigger] sound_link(payload[t])) && (
        #[trigger] payload[k].from_id <= 0 || payload[k].to_id <= 0) implies payload_verdict(payload) == Some(
            LinkError::InvalidNode,
        ) by {
        lemma_first_unsound(payload, k);
    }
    assert forall|k: int|
        0 <= k < payload.len() && (forall|t: int| 0 <= t < k ==> #[trigger] sound_link(payload[t])) && #[trigger] payload[k].from_id
            > 0 && payload[k].to_id > 0 && payload[k].from_id == payload[k].to_id implies payload_verdict(payload)
            == Some(LinkError::SelfLink) by {
        lemma_first_unsound(payload, k);
    }
    if first_fault(payload, n) is Some {
        let k = choose|k: int|
            0 <= k < n && (forall|t: int| 0 <= t < k ==> #[trigger] sound_link(payload[t])) && #[trigger] request_fault(
                payload[k],
            ) == first_fault(payload, n);
        assert(payload[k].from_id == payload[k].to_id || payload[k].from_id <= 0 || payload[k].to_id <= 0);
    }
}

/// Checks a link request: `Err` exactly when `payload_verdict` finds a fault.
pub fn check_link_payload(payload: &Vec<LinkRequest>) -> (res: Result<(), LinkError>)
    ensures
        match payload_verdict(payload@) {
            Some(e) => res == Err::<(), LinkError>(e),
            None => res is Ok,
        },
{
    if payload.len() == 0 {
        return Err(LinkError::Empty);
    }
    let mut i: usize = 0;
    while i < payload.len()
        invariant
            i <= payload@.len(),
            first_fault(payload@, i as int) is None,
        decreases payload@.len() - i,
    {
        let p = payload[i];
        proof {
            if request_fault(p) is Some {
                lemma_first_fault_stays(payload@, i as int, payload@.len() as int);
            }
        }
        if p.from_id <= 0 || p.to_id <= 0 {
            return Err(LinkError::InvalidNode);
        }
        if p.from_id == p.to_id {
            return Err(LinkError::SelfLink);
        }
        i += 1;
    }
    Ok(())
}

/// The stored form of a link: ends ordered `from < to`, with the flag set
/// when that reverses the submitted direction.
pub open spec fn stored_direction(from_id: i64, to_id: i64) -> (i64, i64, bool) {
    if from_id > to_id {
        (to_id, from_id, true)
    } else {
        (from_id, to_id, false)
    }
}

/// The stored form of a link: ends ordered `from < to`, with the flag set
/// when that reverses the submitted direction.
pub fn normalize_direction(from_id: i64, to_id: i64) -> (res: (i64, i64, bool))
    ensures
        res == stored_direction(from_id, to_id),
{
    if from_id > to_id {
        (to_id, from_id, true)
    } else {
        (from_id, to_id, false)
    }
}

/// Reading a link back undoes its storage: a row stored in the direction
/// `stored_direction` gives, once turned to its logical direction, the ends
/// as they were submitted; the stored ends are ordered and keyed like the
/// submitted pair.
pub proof fn stored_direction_reads_back(from_id: i64, to_id: i64, row: MarkerLinkVo)
    requires
        row.from_id == stored_direction(from_id, to_id).0,
        row.to_id == stored_direction(from_id, to_id).1,
        row.link_reverse == Some(stored_direction(from_id, to_id).2),
    ensures
        logical(row).from_id == from_id,
        logical(row).to_id == to_id,
        logical(row).link_reverse == Some(false),
        row.from_id <= row.to_id,
        spec_pair_key(row.from_id, row.to_id) == spec_pair_key(from_id, to_id),
{
}

/// What happens to one linkage row: an existing row (by its index among
/// the related rows) or a new one; `source` names the submitted entry that
/// it stores (its ends, action and path), or is `None` when the row is
/// soft-deleted.
#[derive(Clone, Copy, Debug)]
pub struct PendingLink {
    pub existing: Option<usize>,
    pub key: (i64, i64),
    pub source: Option<usize>,
    pub from_id: i64,
    pub to_id: i64,
    pub link_reverse: bool,
    pub link_action: LinkAction,
}

/// Every related row starts out marked for deletion.
pub open spec fn initial_pending(related: Seq<ExistingLink>) -> Seq<PendingLink> {
    Seq::new(
        related.len(),
        |j: int|
            PendingLink {
                existing: Some(j as usize),
                key: spec_pair_key(related[j].from_id, related[j].to_id),
                source: None,
                from_id: 0,
                to_id: 0,
                link_reverse: false,
                link_action: LinkAction::Trigger,
            },
    )
}

/// The last of the first `n` rows with pair key `key`.
pub open spec fn last_with_key(pend: Seq<PendingLink>, key: (i64, i64), n: int) -> Option<int>
    decreases n,
{
    if n <= 0 {
        None
    } else if pend[n - 1].key == key {
        Some(n - 1)
    } else {
        last_with_key(pend, key, n - 1)
    }
}

/// The action that a submitted link is stored with (`Trigger` by default).
pub open spec fn stored_action(p: LinkRequest) -> LinkAction {
    match p.link_action {
        Some(a) => a,
        None => LinkAction::Trigger,
    }
}

/// The rows after submitted entry `idx`: the last row with its pair key is
/// revived and rewritten with it, or a new row is added for it.
pub open spec fn apply_request(pend: Seq<PendingLink>, p: LinkRequest, idx: usize) -> Seq<PendingLink> {
    let d = stored_direction(p.from_id, p.to_id);
    let key = spec_pair_key(p.from_id, p.to_id);
    match last_with_key(pend, key, pend.len() as int) {
        Some(i) => pend.update(
            i,
            PendingLink {
                source: Some(idx),
                from_id: d.0,
                to_id: d.1,
                link_reverse: d.2,
                link_action: stored_action(p),
                ..pend[i]
            },
        ),
        None => pend.push(
            PendingLink {
                existing: None,
                key: key,
                source: Some(idx),
                from_id: d.0,
                to_id: d.1,
                link_reverse: d.2,
                link_action: stored_action(p),
            },
        ),
    }
}

/// The rows after the first `n` submitted entries.
pub open spec fn plan_pending(related: Seq<ExistingLink>, payload: Seq<LinkRequest>, n: int) -> Seq<PendingLink>
    decreases n,
{
    if n <= 0 {
        initial_pending(related)
    } else {
        apply_request(plan_pending(related, payload, n - 1), payload[n - 1], (n - 1) as usize)
    }
}

fn find_last_with_key(pend: &Vec<PendingLink>, key: (i64, i64)) -> (res: Option<usize>)
    ensures
        match res {
            Some(i) => last_with_key(pend@, key, pend@.len() as int) == Some(i as int) && i < pend@.len(),
            None => last_with_key(pend@, key, pend@.len() as int) is None,
        },
{
    let mut n: usize = pend.len();
    while n > 0
        invariant
            n <= pend@.len(),
            last_with_key(pend@, key, pend@.len() as int) == last_with_key(pend@, key, n as int),
        decreases n,
    {
        let k = pend[n - 1].key;
        if k.0 == key.0 && k.1 == key.1 {
            return Some(n - 1);
        }
        n -= 1;
    }
    None
}

/// The rows of a link request: one per related row (all marked for
/// deletion), then each submitted entry applied in order.
pub fn plan_pending_links(related: &Vec<ExistingLink>, payload: &Vec<LinkRequest>) -> (res: Vec<PendingLink>)
    ensures
        res@ == plan_pending(related@, payload@, payload@.len() as int),
{
    let mut pend: Vec<PendingLink> = Vec::new();
    let mut j: usize = 0;
    while j < related.len()
        invariant
            j <= related@.len(),
            pend@ == initial_pending(related@).take(j as int),
        decreases related@.len() - j,
    {
        let r = &related[j];
        pend.push(PendingLink {
            existing: Some(j),
            key: pair_key(r.from_id, r.to_id),
            source: None,
            from_id: 0,
            to_id: 0,
            link_reverse: false,
            link_action: LinkAction::Trigger,
        });
        assert(pend@ == initial_pending(related@).take(j + 1));
        j += 1;
    }
    assert(initial_pending(related@).take(related@.len() as int) == initial_pending(related@));
    let mut k: usize = 0;
    while k < payload.len()
        invariant
            k <= payload@.len(),
            pend@ == plan_pending(related@, payload@, k as int),
        decreases payload@.len() - k,
    {
        let p = payload[k];
        let d = normalize_direction(p.from_id, p.to_id);
        let key = pair_key(p.from_id, p.to_id);
        let action = match p.link_action {
            Some(a) => a,
            None => LinkAction::Trigger,
        };
        match find_last_with_key(&pend, key) {
            Some(i) => {
                let old = pend[i];
                pend.set(i, PendingLink {
                    source: Some(k),
                    from_id: d.0,
                    to_id: d.1,
                    link_reverse: d.2,
                    link_action: action,
                    ..old
                });
            },
            None => {
                pend.push(PendingLink {
                    existing: None,
                    key: key,
                    source: Some(k),
                    from_id: d.0,
                    to_id: d.1,
                    link_reverse: d.2,
                    link_action: action,
                });
            },
        }
        k += 1;
    }
    pend
}

/// The order-insensitive pair key of a submitted link.
pub open spec fn request_key(p: LinkRequest) -> (i64, i64) {
    spec_pair_key(p.from_id, p.to_id)
}

/// One of the first `n` submitted links has pair key `key`.
pub open spec fn submitted(payload: Seq<LinkRequest>, key: (i64, i64), n: int) -> bool {
    exists|k: int| 0 <= k < n && #[trigger] request_key(payload[k]) == key
}

/// No row after row `i` has its pair key.
pub open spec fn last_of_key(pend: Seq<PendingLink>, i: int) -> bool {
    forall|i2: int| i < i2 < pend.len() ==> #[trigger] pend[i2].key != pend[i].key
}

/// Row `i` stores submitted entry `s` of the first `n`: with its key, its
/// stored direction and action, and no later entry has the same pair.
pub open spec fn stores(pend: Seq<PendingLink>, payload: Seq<LinkRequest>, n: int, i: int, s: int) -> bool {
    let p = payload[s];
    let d = stored_direction(p.from_id, p.to_id);
    &&& 0 <= s < n
    &&& pend[i].key == request_key(p)
    &&& pend[i].from_id == d.0
    &&& pend[i].to_id == d.1
    &&& pend[i].link_reverse == d.2
    &&& pend[i].link_action == stored_action(p)
    &&& forall|s2: int| s < s2 < n ==> #[trigger] request_key(payload[s2]) != pend[i].key
}

spec fn plan_inv(related: Seq<ExistingLink>, payload: Seq<LinkRequest>, n: int, pend: Seq<PendingLink>) -> bool {
    &&& pend.len() >= related.len()
    &&& forall|j: int|
        0 <= j < related.len() ==> #[trigger] pend[j].existing == Some(j as usize) && pend[j].key
            == spec_pair_key(related[j].from_id, related[j].to_id)
    &&& forall|i: int| related.len() <= i < pend.len() ==> #[trigger] pend[i].existing is None
    &&& forall|k: int| #![trigger payload[k]] 0 <= k < n ==> exists|i: int| 0 <= i < pend.len() && #[trigger] pend[i].key == request_key(payload[k])
    &&& forall|i: int|
        0 <= i < pend.len() ==> (#[trigger] pend[i].source is Some <==> (submitted(payload, pend[i].key, n)
            && last_of_key(pend, i)))
    &&& forall|i: int| 0 <= i < pend.len() && #[trigger] pend[i].source is None ==> pend[i].existing is Some
    &&& forall|i: int| 0 <= i < pend.len() ==> match #[trigger] pend[i].source {
        Some(s) => stores(pend, payload, n, i, s as int),
        None => true,
    }
}

proof fn lemma_last_with_key(pend: Seq<PendingLink>, key: (i64, i64), n: int)
    requires
        0 <= n <= pend.len(),
    ensures
        match last_with_key(pend, key, n) {
            Some(i) => 0 <= i < n && pend[i].key == key && forall|i2: int| i < i2 < n ==> #[trigger] pend[i2].key != key,
            None => forall|i2: int| 0 <= i2 < n ==> #[trigger] pend[i2].key != key,
        },
    decreases n,
{
    if n > 0 && pend[n - 1].key != key {
        lemma_last_with_key(pend, key, n - 1);
    }
}

proof fn lemma_last_of_key_same(pend: Seq<PendingLink>, next: Seq<PendingLink>, i: int)
    requires
        0 <= i < pend.len() <= next.len(),
        forall|i3: int| 0 <= i3 < pend.len() ==> #[trigger] next[i3].key == pend[i3].key,
        forall|i3: int| pend.len() <= i3 < next.len() ==> #[trigger] next[i3].key != pend[i].key,
    ensures
        last_of_key(next, i) == last_of_key(pend, i),
{
    if last_of_key(pend, i) {
        assert forall|i3: int| i < i3 < next.len() implies #[trigger] next[i3].key != next[i].key by {
            if i3 < pend.len() {
                assert(pend[i3].key != pend[i].key);
            }
        }
    }
    if last_of_key(next, i) {
        assert forall|i3: int| i < i3 < pend.len() implies #[trigger] pend[i3].key != pend[i].key by {
            assert(next[i3].key != next[i].key);
        }
    }
}

proof fn lemma_plan_step(related: Seq<ExistingLink>, payload: Seq<LinkRequest>, n: int)
    requires
        0 <= n < payload.len() <= usize::MAX,
        related.len() <= usize::MAX,
        plan_inv(related, payload, n, plan_pending(related, payload, n)),
    ensures
        plan_inv(related, payload, n + 1, plan_pending(related, payload, n + 1)),
{
    let pend = plan_pending(related, payload, n);
    let next = plan_pending(related, payload, n + 1);
    let p = payload[n];
    let key = request_key(p);
    assert(next == apply_request(pend, p, n as usize));
    lemma_last_with_key(pend, key, pend.len() as int);
    assert(submitted(payload, key, n + 1)) by {
        assert(request_key(payload[n]) == key);
    }
    assert forall|kk: (i64, i64)| kk != key implies (submitted(payload, kk, n + 1) <==> submitted(payload, kk, n)) by {
        if submitted(payload, kk, n + 1) {
            let k = choose|k: int| 0 <= k < n + 1 && #[trigger] request_key(payload[k]) == kk;
            assert(k < n);
        }
    }
    match last_with_key(pend, key, pend.len() as int) {
        Some(i) => {
            assert(next.len() == pend.len());
            assert forall|i2: int| 0 <= i2 < next.len() implies #[trigger] next[i2].key == pend[i2].key by {}
            assert forall|i2: int| 0 <= i2 < next.len() implies (#[trigger] next[i2].source is Some <==> (submitted(
                payload, next[i2].key, n + 1) && last_of_key(next, i2))) by {
                if i2 != i {
                    assert(next[i2] == pend[i2]);
                    if next[i2].key == key {
                        assert(!last_of_key(next, i2)) by {
                            if i2 < i {
                                assert(next[i].key == next[i2].key);
                            }
                        }
                        assert(!last_of_key(pend, i2)) by {
                            if i2 < i {
                                assert(pend[i].key == pend[i2].key);
                            }
                        }
                    }
                    lemma_last_of_key_same(pend, next, i2);
                } else {
                    assert(last_of_key(next, i2)) by {
                        assert forall|i3: int| i2 < i3 < next.len() implies #[trigger] next[i3].key != next[i2].key by {
                            assert(next[i3].key == pend[i3].key);
                        }
                    }
                }
            }
            assert forall|i2: int| 0 <= i2 < next.len() implies match #[trigger] next[i2].source {
                Some(s) => stores(next, payload, n + 1, i2, s as int),
                None => true,
            } by {
                if i2 != i {
                    assert(next[i2] == pend[i2]);
                    if let Some(s) = next[i2].source {
                        assert(stores(pend, payload, n, i2, s as int));
                        if pend[i2].key == key {
                            assert(last_of_key(pend, i2));
                            if i2 < i {
                                assert(pend[i].key == pend[i2].key);
                            }
                            assert(false);
                        }
                        assert forall|s2: int| s < s2 < n + 1 implies #[trigger] request_key(payload[s2]) != next[i2].key by {
                            if s2 < n {
                                assert(request_key(payload[s2]) != pend[i2].key);
                            }
                        }
                    }
                } else {
                    assert(next[i].source == Some(n as usize));
                    assert(stores(next, payload, n + 1, i, n));
                }
            }
            assert forall|k: int| #![trigger payload[k]] 0 <= k < n + 1 implies exists|i2: int| 0 <= i2 < next.len() && #[trigger] next[i2].key == request_key(payload[k]) by {
                if k < n {
                    let i2 = choose|i2: int| 0 <= i2 < pend.len() && #[trigger] pend[i2].key == request_key(payload[k]);
                    assert(next[i2].key == pend[i2].key);
                } else {
                    assert(next[i].key == key);
                }
            }
            assert forall|j: int| 0 <= j < related.len() implies #[trigger] next[j].existing == Some(j as usize) && next[j].key
                == spec_pair_key(related[j].from_id, related[j].to_id) by {
                assert(pend[j].existing == Some(j as usize));
            }
            assert forall|i2: int| related.len() <= i2 < next.len() implies #[trigger] next[i2].existing is None by {
                assert(pend[i2].existing is None);
            }
            assert forall|i2: int| 0 <= i2 < next.len() && #[trigger] next[i2].source is None implies next[i2].existing is Some by {
                assert(pend[i2].source is None);
            }
        },
        None => {
            assert(next.len() == pend.len() + 1);
            assert forall|i2: int| 0 <= i2 < pend.len() implies #[trigger] next[i2] == pend[i2] by {}
            assert forall|i2: int| 0 <= i2 < next.len() implies (#[trigger] next[i2].source is Some <==> (submitted(
                payload, next[i2].key, n + 1) && last_of_key(next, i2))) by {
                if i2 < pend.len() {
                    assert(next[i2] == pend[i2]);
                    assert(pend[i2].key != key);
                    lemma_last_of_key_same(pend, next, i2);
                }
            }
            assert forall|i2: int| 0 <= i2 < next.len() implies match #[trigger] next[i2].source {
                Some(s) => stores(next, payload, n + 1, i2, s as int),
                None => true,
            } by {
                if i2 < pend.len() {
                    assert(next[i2] == pend[i2]);
                    if let Some(s) = next[i2].source {
                        assert(stores(pend, payload, n, i2, s as int));
                        assert(pend[i2].key != key);
                        assert forall|s2: int| s < s2 < n + 1 implies #[trigger] request_key(payload[s2]) != next[i2].key by {
                            if s2 < n {
                                assert(request_key(payload[s2]) != pend[i2].key);
                            }
                        }
                    }
                } else {
                    assert(next[i2].source == Some(n as usize));
                    assert(stores(next, payload, n + 1, i2, n));
                }
            }
            assert forall|k: int| #![trigger payload[k]] 0 <= k < n + 1 implies exists|i2: int| 0 <= i2 < next.len() && #[trigger] next[i2].key == request_key(payload[k]) by {
                if k < n {
                    let i2 = choose|i2: int| 0 <= i2 < pend.len() && #[trigger] pend[i2].key == request_key(payload[k]);
                    assert(next[i2] == pend[i2]);
                } else {
                    assert(next[pend.len() as int].key == key);
                }
            }
            assert forall|j: int| 0 <= j < related.len() implies #[trigger] next[j].existing == Some(j as usize) && next[j].key
                == spec_pair_key(related[j].from_id, related[j].to_id) by {
                assert(next[j] == pend[j]);
            }
            assert forall|i2: int| related.len() <= i2 < next.len() implies #[trigger] next[i2].existing is None by {
                if i2 < pend.len() {
                    assert(next[i2] == pend[i2]);
                }
            }
            assert forall|i2: int| 0 <= i2 < next.len() && #[trigger] next[i2].source is None implies next[i2].existing is Some by {
                assert(next[i2] == pend[i2]);
            }
        },
    }
}

proof fn lemma_plan_inv(related: Seq<ExistingLink>, payload: Seq<LinkRequest>, n: int)
    requires
        0 <= n <= payload.len() <= usize::MAX,
        related.len() <= usize::MAX,
    ensures
        plan_inv(related, payload, n, plan_pending(related, payload, n)),
    decreases n,
{
    if n == 0 {
        let pend = initial_pending(related);
        assert forall|i: int| 0 <= i < pend.len() implies (#[trigger] pend[i].source is Some <==> (submitted(
            payload, pend[i].key, 0) && last_of_key(pend, i))) by {}
    } else {
        lemma_plan_inv(related, payload, n - 1);
        lemma_plan_step(related, payload, n - 1);
    }
}

/// What a link request does to the rows: every related row keeps its
/// place and key and only new rows follow them; every submitted pair is
/// stored by a row, and by one row only; a row stores the last submission
/// of its pair in its stored direction; a row that stores nothing is an
/// existing one, and is deleted because its pair was not submitted or a
/// later row has its pair.
pub proof fn plan_pending_laws(related: Seq<ExistingLink>, payload: Seq<LinkRequest>)
    requires
        related.len() <= usize::MAX,
        payload.len() <= usize::MAX,
    ensures
        ({
            let pend = plan_pending(related, payload, payload.len() as int);
            &&& pend.len() >= related.len()
            &&& forall|j: int|
                0 <= j < related.len() ==> #[trigger] pend[j].existing == Some(j as usize) && pend[j].key
                    == spec_pair_key(related[j].from_id, related[j].to_id)
            &&& forall|i: int| related.len() <= i < pend.len() ==> #[trigger] pend[i].existing is None
            &&& forall|k: int|
                #![trigger payload[k]]
                0 <= k < payload.len() ==> exists|i: int|
                    0 <= i < pend.len() && #[trigger] pend[i].key == request_key(payload[k]) && pend[i].source is Some
            &&& forall|i1: int, i2: int|
                0 <= i1 < i2 < pend.len() && #[trigger] pend[i1].source is Some && #[trigger] pend[i2].source is Some
                    ==> pend[i1].key != pend[i2].key
            &&& forall|i: int| 0 <= i < pend.len() ==> match #[trigger] pend[i].source {
                Some(s) => stores(pend, payload, payload.len() as int, i, s as int),
                None => pend[i].existing is Some && (!submitted(payload, pend[i].key, payload.len() as int)
                    || !last_of_key(pend, i)),
            }
        }),
{
    let n = payload.len() as int;
    lemma_plan_inv(related, payload, n);
    let pend = plan_pending(related, payload, n);
    assert forall|k: int| #![trigger payload[k]] 0 <= k < n implies exists|i: int|
        0 <= i < pend.len() && #[trigger] pend[i].key == request_key(payload[k]) && pend[i].source is Some by {
        let key = request_key(payload[k]);
        let i0 = choose|i0: int| 0 <= i0 < pend.len() && #[trigger] pend[i0].key == key;
        lemma_last_with_key(pend, key, pend.len() as int);
        let i = last_with_key(pend, key, pend.len() as int)->0;
        assert(last_of_key(pend, i));
        assert(submitted(payload, key, n));
        assert(pend[i].source is Some);
    }
    assert forall|i1: int, i2: int|
        0 <= i1 < i2 < pend.len() && #[trigger] pend[i1].source is Some && #[trigger] pend[i2].source is Some
            implies pend[i1].key != pend[i2].key by {
        assert(last_of_key(pend, i1));
    }
}

/// A lowercase hexadecimal digit.
pub open spec fn is_lower_hex(c: char) -> bool {
    ('0' <= c && c <= '9') || ('a' <= c && c <= 'f')
}

/// A fresh group id: `uuid::Uuid::new_v4().simple().to_string()`. The uuid
/// crate writes the simple form as 32 lowercase hex digits; which digits
/// come out is random, so nothing more is said of them.
#[verifier::external_body]
pub(crate) fn new_group_id() -> (res: String)
    ensures
        res@.len() == 32,
        forall|i: int| 0 <= i < 32 ==> is_lower_hex(#[trigger] res@[i]),
{
    uuid::Uuid::new_v4().simple().to_string()
}

/// Marker `m` is an end of the submitted link.
pub open spec fn request_touches(p: LinkRequest, m: i64) -> bool {
    p.from_id == m || p.to_id == m
}

/// Marker `m` is an end of the stored row.
pub open spec fn row_touches(r: ExistingLink, m: i64) -> bool {
    r.from_id == m || r.to_id == m
}

/// Marker `m` is an end of a submitted link.
pub open spec fn payload_touches(payload: Seq<LinkRequest>, m: i64) -> bool {
    exists|k: int| 0 <= k < payload.len() && #[trigger] request_touches(payload[k], m)
}

/// Marker `m` is an end of a related row.
pub open spec fn related_touches(related: Seq<ExistingLink>, m: i64) -> bool {
    exists|j: int| 0 <= j < related.len() && #[trigger] row_touches(related[j], m)
}

/// The start of a link request that passed its checks: the new group id
/// and the submitted markers, ascending, whose stored links are looked up.
pub struct LinkStart {
    pub group_id: String,
    pub endpoints: Vec<i64>,
}

/// Checks a link request and, when it passes, draws the group id of the
/// links it stores and lists the markers it touches (ascending, once each).
pub fn begin_link(payload: &Vec<LinkRequest>) -> (res: Result<LinkStart, LinkError>)
    ensures
        match payload_verdict(payload@) {
            Some(e) => res == Err::<LinkStart, LinkError>(e),
            None => match res {
                Ok(s) => {
                    &&& s.group_id@.len() == 32
                    &&& forall|i: int| 0 <= i < 32 ==> is_lower_hex(#[trigger] s.group_id@[i])
                    &&& strictly_increasing(s.endpoints@)
                    &&& forall|m: i64| #[trigger] s.endpoints@.contains(m) <==> payload_touches(payload@, m)
                },
                Err(_) => false,
            },
        },
{
    match check_link_payload(payload) {
        Err(e) => Err(e),
        Ok(()) => {
            let group_id = new_group_id();
            let mut endpoints: Vec<i64> = Vec::new();
            let mut k: usize = 0;
            while k < payload.len()
                invariant
                    k <= payload@.len(),
                    strictly_increasing(endpoints@),
                    forall|m: i64| #[trigger] endpoints@.contains(m) <==> payload_touches(payload@.take(k as int), m),
                decreases payload@.len() - k,
            {
                let p = payload[k];
                insert_sorted(&mut endpoints, p.from_id);
                insert_sorted(&mut endpoints, p.to_id);
                proof {
                    assert forall|m: i64| #[trigger] endpoints@.contains(m) <==> payload_touches(payload@.take(k + 1), m) by {
                        let pre = payload@.take(k as int);
                        let nxt = payload@.take(k + 1);
                        assert(pre.len() == k);
                        assert(nxt.len() == k + 1);
                        if payload_touches(nxt, m) {
                            let t = choose|t: int| 0 <= t < nxt.len() && #[trigger] request_touches(nxt[t], m);
                            if t < k {
                                assert(pre[t] == nxt[t]);
                                assert(payload_touches(pre, m));
                            }
                        }
                        if payload_touches(pre, m) {
                            let t = choose|t: int| 0 <= t < pre.len() && #[trigger] request_touches(pre[t], m);
                            assert(nxt[t] == pre[t]);
                        }
                        if m == p.from_id || m == p.to_id {
                            assert(nxt[k as int] == p);
                            assert(request_touches(nxt[k as int], m));
                        }
                    }
                }
                k += 1;
            }
            assert(payload@.take(payload@.len() as int) == payload@);
            Ok(LinkStart { group_id, endpoints })
        },
    }
}

/// The non-empty group ids of the first `n` related rows, each once, in the
/// order in which they first appear.
pub open spec fn related_groups(related: Seq<ExistingLink>, n: int) -> Seq<Seq<char>>
    decreases n,
{
    if n <= 0 {
        Seq::empty()
    } else {
        let p = related_groups(related, n - 1);
        let g = related[n - 1].group_id@;
        if g.len() > 0 {
            push_new(p, g)
        } else {
            p
        }
    }
}

/// The writes of a link request and what it changed: the groups of the
/// rows it rewrote or deleted and the new group, and every marker involved.
pub struct LinkPlan {
    pub group_id: String,
    pub pending: Vec<PendingLink>,
    pub affected_groups: Vec<String>,
    pub affected_markers: Vec<i64>,
}

fn contains_string(v: &Vec<String>, s: &String) -> (res: bool)
    ensures
        res == v@.map_values(|x: String| x@).contains(s@),
{
    let ghost vv = v@.map_values(|x: String| x@);
    let mut j: usize = 0;
    while j < v.len()
        invariant
            j <= v@.len(),
            vv == v@.map_values(|x: String| x@),
            forall|t: int| 0 <= t < j ==> vv[t] != s@,
        decreases v@.len() - j,
    {
        if v[j] == *s {
            assert(vv[j as int] == s@);
            return true;
        }
        j += 1;
    }
    false
}

fn push_new_string(v: &mut Vec<String>, s: &String)
    ensures
        final(v)@.map_values(|x: String| x@) == push_new(old(v)@.map_values(|x: String| x@), s@),
{
    if !contains_string(v, s) {
        v.push(s.clone());
        assert(v@.map_values(|x: String| x@) == old(v)@.map_values(|x: String| x@).push(s@));
    }
}

/// Plans a link request whose checks passed, given the stored rows that
/// touch its markers: the row writes (`plan_pending`), the groups that
/// changed (those of the related rows, then the new one) and every marker
/// involved, ascending.
pub fn plan_link(payload: &Vec<LinkRequest>, related: &Vec<ExistingLink>, group_id: String) -> (res: LinkPlan)
    ensures
        res.group_id@ == group_id@,
        res.pending@ == plan_pending(related@, payload@, payload@.len() as int),
        res.affected_groups@.map_values(|x: String| x@) == push_new(
            related_groups(related@, related@.len() as int),
            group_id@,
        ),
        strictly_increasing(res.affected_markers@),
        forall|m: i64| #[trigger] res.affected_markers@.contains(m) <==> (payload_touches(payload@, m)
            || related_touches(related@, m)),
{
    let mut markers: Vec<i64> = Vec::new();
    let mut k: usize = 0;
    while k < payload.len()
        invariant
            k <= payload@.len(),
            strictly_increasing(markers@),
            forall|m: i64| #[trigger] markers@.contains(m) <==> payload_touches(payload@.take(k as int), m),
        decreases payload@.len() - k,
    {
        let p = payload[k];
        insert_sorted(&mut markers, p.from_id);
        insert_sorted(&mut markers, p.to_id);
        proof {
            assert forall|m: i64| #[trigger] markers@.contains(m) <==> payload_touches(payload@.take(k + 1), m) by {
                let pre = payload@.take(k as int);
                let nxt = payload@.take(k + 1);
                if payload_touches(nxt, m) {
                    let t = choose|t: int| 0 <= t < nxt.len() && #[trigger] request_touches(nxt[t], m);
                    if t < k {
                        assert(pre[t] == nxt[t]);
                        assert(payload_touches(pre, m));
                    }
                }
                if payload_touches(pre, m) {
                    let t = choose|t: int| 0 <= t < pre.len() && #[trigger] request_touches(pre[t], m);
                    assert(nxt[t] == pre[t]);
                }
                if m == p.from_id || m == p.to_id {
                    assert(nxt[k as int] == p);
                    assert(request_touches(nxt[k as int], m));
                }
            }
        }
        k += 1;
    }
    assert(payload@.take(payload@.len() as int) == payload@);
    let mut groups: Vec<String> = Vec::new();
    let mut j: usize = 0;
    while j < related.len()
        invariant
            j <= related@.len(),
            strictly_increasing(markers@),
            groups@.map_values(|x: String| x@) == related_groups(related@, j as int),
            forall|m: i64| #[trigger] markers@.contains(m) <==> (payload_touches(payload@, m)
                || related_touches(related@.take(j as int), m)),
        decreases related@.len() - j,
    {
        let r = &related[j];
        if !r.group_id.as_str().is_empty() {
            push_new_string(&mut groups, &r.group_id);
        }
        insert_sorted(&mut markers, r.from_id);
        insert_sorted(&mut markers, r.to_id);
        proof {
            assert forall|m: i64| #[trigger] markers@.contains(m) <==> (payload_touches(payload@, m)
                || related_touches(related@.take(j + 1), m)) by {
                let pre = related@.take(j as int);
                let nxt = related@.take(j + 1);
                if related_touches(nxt, m) {
                    let t = choose|t: int| 0 <= t < nxt.len() && #[trigger] row_touches(nxt[t], m);
                    if t < j {
                        assert(pre[t] == nxt[t]);
                        assert(related_touches(pre, m));
                    }
                }
                if related_touches(pre, m) {
                    let t = choose|t: int| 0 <= t < pre.len() && #[trigger] row_touches(pre[t], m);
                    assert(nxt[t] == pre[t]);
                }
                if m == r.from_id || m == r.to_id {
                    assert(nxt[j as int] == *r);
                    assert(row_touches(nxt[j as int], m));
                }
            }
        }
        j += 1;
    }
    assert(related@.take(related@.len() as int) == related@);
    push_new_string(&mut groups, &group_id);
    let pending = plan_pending_links(related, payload);
    LinkPlan { group_id, pending, affected_groups: groups, affected_markers: markers }
}

/// The groups and markers that deleted linkages touched, for the client to
/// refresh: non-empty group ids and marker ids above zero, each once, in
/// the order in which they first appear.
pub fn collect_affected(items: &Vec<ExistingLink>) -> (res: (Vec<String>, Vec<i64>))
    ensures
        res.0@.map_values(|x: String| x@) == related_groups(items@, items@.len() as int),
        res.1@ == touched_ids(items@, items@.len() as int),
{
    let mut groups: Vec<String> = Vec::new();
    let mut markers: Vec<i64> = Vec::new();
    let mut j: usize = 0;
    while j < items.len()
        invariant
            j <= items@.len(),
            groups@.map_values(|x: String| x@) == related_groups(items@, j as int),
            markers@ == touched_ids(items@, j as int),
        decreases items@.len() - j,
    {
        let it = &items[j];
        if !it.group_id.as_str().is_empty() {
            push_new_string(&mut groups, &it.group_id);
        }
        if it.from_id > 0 && !contains_i64(&markers, it.from_id) {
            markers.push(it.from_id);
        }
        if it.to_id > 0 && !contains_i64(&markers, it.to_id) {
            markers.push(it.to_id);
        }
        j += 1;
    }
    (groups, markers)
}

/// Marker ids above zero at the ends of the first `n` rows, each once, in
/// the order in which they first appear.
pub open spec fn touched_ids(items: Seq<ExistingLink>, n: int) -> Seq<i64>
    decreases n,
{
    if n <= 0 {
        Seq::empty()
    } else {
        let p = touched_ids(items, n - 1);
        let it = items[n - 1];
        let q = if it.from_id > 0 { push_new(p, it.from_id) } else { p };
        if it.to_id > 0 { push_new(q, it.to_id) } else { q }
    }
}

} // verus!
