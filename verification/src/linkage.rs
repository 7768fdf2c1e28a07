//! Marker linkages: the stored direction of a link, the endpoints that its
//! path edges reference, and the relation graph that groups links by action.

use vstd::prelude::*;
use vstd::string::*;
use std::collections::BTreeMap;
use crate::grouping::{group_by_key, has_group, indices_with_key};
use crate::text::{text_lt, text_lt_exec, lemma_lt_irreflexive, lemma_lt_transitive, lemma_text_lt_total, lemma_lt_asymmetric};

verus! {

/// How a linkage acts between its two markers.
#[derive(Clone, Copy, PartialEq, Eq, Structural, Debug)]
pub enum LinkAction {
    Trigger,
    TriggerAll,
    TriggerAny,
    Related,
    Directed,
    PathUniDir,
    PathBiDir,
    Equivalent,
}

/// The wire name of an action.
pub open spec fn action_name(a: LinkAction) -> Seq<char> {
    match a {
        LinkAction::Trigger => "TRIGGER"@,
        LinkAction::TriggerAll => "TRIGGER_ALL"@,
        LinkAction::TriggerAny => "TRIGGER_ANY"@,
        LinkAction::Related => "RELATED"@,
        LinkAction::Directed => "DIRECTED"@,
        LinkAction::PathUniDir => "PATH_UNI_DIR"@,
        LinkAction::PathBiDir => "PATH_BI_DIR"@,
        LinkAction::Equivalent => "EQUIVALENT"@,
    }
}

/// Position of an action when actions are ordered by wire name.
pub open spec fn action_rank(a: LinkAction) -> nat {
    match a {
        LinkAction::Directed => 0,
        LinkAction::Equivalent => 1,
        LinkAction::PathBiDir => 2,
        LinkAction::PathUniDir => 3,
        LinkAction::Related => 4,
        LinkAction::Trigger => 5,
        LinkAction::TriggerAll => 6,
        LinkAction::TriggerAny => 7,
    }
}

/// The action of a rank (inverse of `action_rank` on `0..8`).
pub open spec fn action_of_rank(r: nat) -> LinkAction {
    if r == 0 {
        LinkAction::Directed
    } else if r == 1 {
        LinkAction::Equivalent
    } else if r == 2 {
        LinkAction::PathBiDir
    } else if r == 3 {
        LinkAction::PathUniDir
    } else if r == 4 {
        LinkAction::Related
    } else if r == 5 {
        LinkAction::Trigger
    } else if r == 6 {
        LinkAction::TriggerAll
    } else {
        LinkAction::TriggerAny
    }
}

/// The trigger family relates sources to targets; the other actions form
/// groups of links.
pub open spec fn is_trigger_family(a: LinkAction) -> bool {
    a == LinkAction::Trigger || a == LinkAction::TriggerAll || a == LinkAction::TriggerAny
}

impl LinkAction {
    /// The wire name of the action.
    pub fn name(&self) -> (res: &'static str)
        ensures
            res@ == action_name(*self),
    {
        match self {
            LinkAction::Trigger => "TRIGGER",
            LinkAction::TriggerAll => "TRIGGER_ALL",
            LinkAction::TriggerAny => "TRIGGER_ANY",
            LinkAction::Related => "RELATED",
            LinkAction::Directed => "DIRECTED",
            LinkAction::PathUniDir => "PATH_UNI_DIR",
            LinkAction::PathBiDir => "PATH_BI_DIR",
            LinkAction::Equivalent => "EQUIVALENT",
        }
    }

    fn of_rank(r: u8) -> (res: LinkAction)
        requires
            r < 8,
        ensures
            res == action_of_rank(r as nat),
            action_rank(res) == r,
    {
        if r == 0 {
            LinkAction::Directed
        } else if r == 1 {
            LinkAction::Equivalent
        } else if r == 2 {
            LinkAction::PathBiDir
        } else if r == 3 {
            LinkAction::PathUniDir
        } else if r == 4 {
            LinkAction::Related
        } else if r == 5 {
            LinkAction::Trigger
        } else if r == 6 {
            LinkAction::TriggerAll
        } else {
            LinkAction::TriggerAny
        }
    }
}

/// The endpoint ids of one path edge (its coordinates are filled in from
/// the markers' positions when the edge is sent).
#[derive(Clone, Copy, PartialEq, Eq, Structural, Debug)]
pub struct PathEdge {
    pub id1: Option<i64>,
    pub id2: Option<i64>,
}

/// One stored linkage as the client sees it.
pub struct MarkerLinkVo {
    pub id: i64,
    pub version: i64,
    pub group_id: Option<String>,
    pub from_id: i64,
    pub to_id: i64,
    pub link_action: Option<LinkAction>,
    pub link_reverse: Option<bool>,
    pub path: Option<Vec<Option<PathEdge>>>,
    pub creator_id: Option<i64>,
    pub updater_id: Option<i64>,
}

/// The order-insensitive key of a marker pair: `(min, max)`.
pub open spec fn spec_pair_key(a: i64, b: i64) -> (i64, i64) {
    if a <= b {
        (a, b)
    } else {
        (b, a)
    }
}

/// The order-insensitive key of a marker pair: `(min, max)`.
pub fn pair_key(a: i64, b: i64) -> (res: (i64, i64))
    ensures
        res == spec_pair_key(a, b),
        res.0 <= res.1,
{
    if a <= b {
        (a, b)
    } else {
        (b, a)
    }
}

/// A pair and its reverse share one key.
pub proof fn pair_key_symmetric(a: i64, b: i64)
    ensures
        spec_pair_key(a, b) == spec_pair_key(b, a),
        spec_pair_key(a, b) == spec_pair_key(spec_pair_key(a, b).0, spec_pair_key(a, b).1),
{
}

/// A linkage turned back to its logical direction: a link stored reversed
/// has its ends swapped and its flag cleared; any other is unchanged.
pub open spec fn logical(vo: MarkerLinkVo) -> MarkerLinkVo {
    if vo.link_reverse == Some(true) {
        MarkerLinkVo { from_id: vo.to_id, to_id: vo.from_id, link_reverse: Some(false), ..vo }
    } else {
        vo
    }
}

/// Turns every linkage back to its logical direction.
pub fn reverse_linkage_vos(vos: &mut Vec<MarkerLinkVo>)
    ensures
        final(vos)@.len() == old(vos)@.len(),
        forall|i: int| 0 <= i < old(vos)@.len() ==> #[trigger] final(vos)@[i] == logical(old(vos)@[i]),
{
    let ghost orig = vos@;
    let mut i: usize = 0;
    while i < vos.len()
        invariant
            i <= vos@.len(),
            vos@.len() == orig.len(),
            forall|j: int| 0 <= j < i ==> #[trigger] vos@[j] == logical(orig[j]),
            forall|j: int| i <= j < orig.len() ==> #[trigger] vos@[j] == orig[j],
        decreases orig.len() - i,
    {
        let mut vo = vos.remove(i);
        if vo.link_reverse == Some(true) {
            let f = vo.from_id;
            vo.from_id = vo.to_id;
            vo.to_id = f;
            vo.link_reverse = Some(false);
        }
        vos.insert(i, vo);
        i += 1;
    }
}

/// The edges of a linkage's path (none when it has no path).
pub open spec fn path_of(vo: MarkerLinkVo) -> Seq<Option<PathEdge>> {
    match vo.path {
        Some(p) => p@,
        None => Seq::empty(),
    }
}

/// The edge names marker `m` at one of its ends.
pub open spec fn edge_names(e: Option<PathEdge>, m: i64) -> bool {
    match e {
        Some(e) => e.id1 == Some(m) || e.id2 == Some(m),
        None => false,
    }
}

/// One of the first `n` edges of the linkage's path names marker `m`.
pub open spec fn path_names(vo: MarkerLinkVo, m: i64, n: int) -> bool {
    exists|b: int| 0 <= b < n && b < path_of(vo).len() && #[trigger] edge_names(path_of(vo)[b], m)
}

/// A path edge of one of the first `n` linkages names marker `m`.
pub open spec fn paths_name(vos: Seq<MarkerLinkVo>, m: i64, n: int) -> bool {
    exists|a: int| 0 <= a < n && #[trigger] path_names(vos[a], m, path_of(vos[a]).len() as int)
}

pub(crate) fn contains_id(v: &Vec<i64>, x: i64) -> (res: bool)
    ensures
        res == v@.contains(x),
{
    let mut j: usize = 0;
    while j < v.len()
        invariant
            j <= v.len(),
            forall|t: int| 0 <= t < j ==> v@[t] != x,
        decreases v.len() - j,
    {
        if v[j] == x {
            return true;
        }
        j += 1;
    }
    false
}

fn note_id(res: &mut Vec<i64>, x: Option<i64>)
    requires
        old(res)@.no_duplicates(),
    ensures
        final(res)@.no_duplicates(),
        forall|m: i64| #[trigger] final(res)@.contains(m) <==> (old(res)@.contains(m) || (m > 0 && x == Some(m))),
{
    if let Some(a) = x {
        if a > 0 && !contains_id(res, a) {
            res.push(a);
        }
    }
    proof {
        assert forall|m: i64| #[trigger] res@.contains(m) <==> (old(res)@.contains(m) || (m > 0 && x == Some(m))) by {
            if res@.contains(m) && !old(res)@.contains(m) {
                let t = choose|t: int| 0 <= t < res@.len() && res@[t] == m;
                assert(t == old(res)@.len());
            }
            if old(res)@.contains(m) {
                let t = choose|t: int| 0 <= t < old(res)@.len() && old(res)@[t] == m;
                assert(res@[t] == m);
            }
            if m > 0 && x == Some(m) && !old(res)@.contains(m) {
                assert(res@[old(res)@.len() as int] == m);
            }
        }
    }
}

/// The markers that the linkages' path edges name at either end (ids > 0),
/// each once.
pub fn path_marker_ids(vos: &Vec<MarkerLinkVo>) -> (res: Vec<i64>)
    ensures
        res@.no_duplicates(),
        forall|m: i64| #[trigger] res@.contains(m) <==> (m > 0 && paths_name(vos@, m, vos@.len() as int)),
{
    let mut res: Vec<i64> = Vec::new();
    let mut i: usize = 0;
    while i < vos.len()
        invariant
            i <= vos@.len(),
            res@.no_duplicates(),
            forall|m: i64| #[trigger] res@.contains(m) <==> (m > 0 && paths_name(vos@, m, i as int)),
        decreases vos@.len() - i,
    {
        let ghost before = res@;
        let mut j: usize = 0;
        if let Some(p) = &vos[i].path {
            assert(path_of(vos@[i as int]) == p@);
            while j < p.len()
                invariant
                    j <= p@.len(),
                    path_of(vos@[i as int]) == p@,
                    res@.no_duplicates(),
                    forall|m: i64| #[trigger] res@.contains(m) <==> (before.contains(m) || (m > 0
                        && path_names(vos@[i as int], m, j as int))),
                decreases p@.len() - j,
            {
                if let Some(e) = &p[j] {
                    note_id(&mut res, e.id1);
                    note_id(&mut res, e.id2);
                }
                proof {
                    assert forall|m: i64| #[trigger] res@.contains(m) <==> (before.contains(m) || (m > 0
                        && path_names(vos@[i as int], m, j + 1))) by {
                        if path_names(vos@[i as int], m, j + 1) && !path_names(vos@[i as int], m, j as int) {
                            let b = choose|b: int| 0 <= b < j + 1 && b < path_of(vos@[i as int]).len()
                                && #[trigger] edge_names(path_of(vos@[i as int])[b], m);
                            assert(b == j);
                        }
                        if path_names(vos@[i as int], m, j as int) {
                            let b = choose|b: int| 0 <= b < j && b < path_of(vos@[i as int]).len()
                                && #[trigger] edge_names(path_of(vos@[i as int])[b], m);
                            assert(edge_names(path_of(vos@[i as int])[b], m));
                        }
                        if m > 0 && edge_names(p@[j as int], m) {
                            assert(edge_names(path_of(vos@[i as int])[j as int], m));
                        }
                    }
                }
                j += 1;
            }
        }
        proof {
            assert forall|m: i64| #[trigger] res@.contains(m) <==> (m > 0 && paths_name(vos@, m, i + 1)) by {
                let pl = path_of(vos@[i as int]).len() as int;
                if paths_name(vos@, m, i + 1) && !paths_name(vos@, m, i as int) {
                    let a = choose|a: int| 0 <= a < i + 1 && #[trigger] path_names(vos@[a], m, path_of(vos@[a]).len() as int);
                    assert(a == i);
                }
                if paths_name(vos@, m, i as int) {
                    let a = choose|a: int| 0 <= a < i && #[trigger] path_names(vos@[a], m, path_of(vos@[a]).len() as int);
                    assert(path_names(vos@[a], m, path_of(vos@[a]).len() as int));
                }
                if path_names(vos@[i as int], m, pl) {
                    assert(path_names(vos@[i as int], m, path_of(vos@[i as int]).len() as int));
                }
            }
        }
        i += 1;
    }
    res
}

// ---------------------------------------------------------------------------
// Relation caches
// ---------------------------------------------------------------------------

/// A link held by a relation cache: `(from_id, to_id, linkage id)`.
pub type LinkRef = (i64, i64, i64);

/// `s` with `x` appended unless it already holds it.
pub open spec fn push_new<T>(s: Seq<T>, x: T) -> Seq<T> {
    if s.contains(x) {
        s
    } else {
        s.push(x)
    }
}

/// `s` without repeats, each element where it first occurs.
pub open spec fn dedup<T>(s: Seq<T>) -> Seq<T>
    decreases s.len(),
{
    if s.len() == 0 {
        s
    } else {
        push_new(dedup(s.drop_last()), s.last())
    }
}

/// A relation cache: its sequence number, its links, and for each linkage
/// id the row whose path it carries.
pub struct CacheModel {
    pub id: u64,
    pub links: Seq<LinkRef>,
    pub paths: Seq<(i64, usize)>,
}

/// Some entry of `paths` is for linkage `id`.
pub open spec fn has_path_for(paths: Seq<(i64, usize)>, id: i64) -> bool {
    exists|k: int| 0 <= k < paths.len() && #[trigger] paths[k].0 == id
}

/// `paths` with `p` appended unless its linkage already has an entry.
pub open spec fn add_path(paths: Seq<(i64, usize)>, p: (i64, usize)) -> Seq<(i64, usize)> {
    if has_path_for(paths, p.0) {
        paths
    } else {
        paths.push(p)
    }
}

/// One held link meets the queried ends: by its source (when `use_from`
/// and the queried source is a marker) or by its target (when `use_to`
/// and the queried target is a marker), against either queried end.
pub open spec fn link_meets(l: LinkRef, src_from: i64, src_to: i64, use_from: bool, use_to: bool) -> bool {
    (use_from && src_from > 0 && (l.0 == src_from || l.0 == src_to))
        || (use_to && src_to > 0 && (l.1 == src_from || l.1 == src_to))
}

/// The cache takes the queried link: trivially when neither queried end is
/// a marker, else when one of its links meets it.
pub open spec fn in_linkage(links: Seq<LinkRef>, src_from: i64, src_to: i64, use_from: bool, use_to: bool) -> bool {
    (src_from <= 0 && src_to <= 0) || exists|k: int|
        0 <= k < links.len() && #[trigger] link_meets(links[k], src_from, src_to, use_from, use_to)
}

/// Whether a cache of an action's list takes the link `l`: a trigger link
/// never joins another; the other trigger actions join on a shared target;
/// the grouping actions join on any shared end.
pub open spec fn joins(a: LinkAction, links: Seq<LinkRef>, l: LinkRef) -> bool {
    match a {
        LinkAction::Trigger => false,
        LinkAction::TriggerAll | LinkAction::TriggerAny => in_linkage(links, 0, l.1, false, true),
        _ => in_linkage(links, l.0, l.1, true, true),
    }
}

/// The first cache at or after `k` that takes `l`.
pub open spec fn first_joining(cs: Seq<CacheModel>, a: LinkAction, l: LinkRef, k: int) -> Option<int>
    decreases cs.len() - k,
{
    if k < 0 || k >= cs.len() {
        None
    } else if joins(a, cs[k].links, l) {
        Some(k)
    } else {
        first_joining(cs, a, l, k + 1)
    }
}

/// A cache after taking the link `l` of row `row`.
pub open spec fn add_link(c: CacheModel, l: LinkRef, row: usize) -> CacheModel {
    CacheModel { id: c.id, links: push_new(c.links, l), paths: add_path(c.paths, (l.2, row)) }
}

/// The caches of one action's list of links (each with its row), filled
/// in order: a link goes to the first cache that takes it, or opens a new
/// cache numbered one past the caches so far.
pub open spec fn accumulate(a: LinkAction, rows: Seq<(LinkRef, usize)>) -> Seq<CacheModel>
    decreases rows.len(),
{
    if rows.len() == 0 {
        Seq::empty()
    } else {
        let cs = accumulate(a, rows.drop_last());
        let (l, r) = rows.last();
        match first_joining(cs, a, l, 0) {
            Some(k) => cs.update(k, add_link(cs[k], l, r)),
            None => cs.push(
                add_link(CacheModel { id: (cs.len() + 1) as u64, links: Seq::empty(), paths: Seq::empty() }, l, r),
            ),
        }
    }
}


/// The sources (ids > 0) of a cache's links.
pub open spec fn from_set(links: Seq<LinkRef>) -> Set<i64> {
    Set::new(|f: i64| f > 0 && exists|k: int| 0 <= k < links.len() && links[k].0 == f)
}

/// Some link of the cache has a source marker.
pub open spec fn has_source(links: Seq<LinkRef>) -> bool {
    exists|k: int| 0 <= k < links.len() && #[trigger] links[k].0 > 0
}

/// `a` followed by the links of `b` that it does not hold yet.
pub open spec fn merge_links(a: Seq<LinkRef>, b: Seq<LinkRef>) -> Seq<LinkRef>
    decreases b.len(),
{
    if b.len() == 0 {
        a
    } else {
        push_new(merge_links(a, b.drop_last()), b.last())
    }
}

/// `a` followed by the entries of `b` whose linkage has none in it yet.
pub open spec fn merge_paths(a: Seq<(i64, usize)>, b: Seq<(i64, usize)>) -> Seq<(i64, usize)>
    decreases b.len(),
{
    if b.len() == 0 {
        a
    } else {
        add_path(merge_paths(a, b.drop_last()), b.last())
    }
}

/// Cache `e` after taking in everything that `c` holds.
pub open spec fn merge_cache(e: CacheModel, c: CacheModel) -> CacheModel {
    CacheModel { id: e.id, links: merge_links(e.links, c.links), paths: merge_paths(e.paths, c.paths) }
}

/// The first merged cache at or after `k` whose key is `key`.
pub open spec fn first_with_key(g: Seq<(Set<i64>, CacheModel)>, key: Set<i64>, k: int) -> Option<int>
    decreases g.len() - k,
{
    if k < 0 || k >= g.len() {
        None
    } else if g[k].0 == key {
        Some(k)
    } else {
        first_with_key(g, key, k + 1)
    }
}

proof fn lemma_first_with_key(g: Seq<(Set<i64>, CacheModel)>, key: Set<i64>, k: int)
    ensures
        first_with_key(g, key, k) matches Some(t) ==> k <= t < g.len() && g[t].0 == key,
    decreases g.len() - k,
{
    if 0 <= k < g.len() && g[k].0 != key {
        lemma_first_with_key(g, key, k + 1);
    }
}

/// Caches of a shared-target action merged by their set of sources: a
/// cache without a source is dropped; the others, in order, go into the
/// merged cache of the same source set, or open one that keeps their
/// number.
pub open spec fn group_by_triggers(cs: Seq<CacheModel>) -> Seq<(Set<i64>, CacheModel)>
    decreases cs.len(),
{
    if cs.len() == 0 {
        Seq::empty()
    } else {
        let g = group_by_triggers(cs.drop_last());
        let c = cs.last();
        let key = from_set(c.links);
        if !has_source(c.links) {
            g
        } else {
            match first_with_key(g, key, 0) {
                Some(k) => g.update(k, (key, merge_cache(g[k].1, c))),
                None => g.push(
                    (key, merge_cache(CacheModel { id: c.id, links: Seq::empty(), paths: Seq::empty() }, c)),
                ),
            }
        }
    }
}

/// The caches of one action's links as they go into the graph.
pub open spec fn final_caches(a: LinkAction, rows: Seq<(LinkRef, usize)>) -> Seq<CacheModel> {
    if a == LinkAction::TriggerAll || a == LinkAction::TriggerAny {
        group_by_triggers(accumulate(a, rows)).map_values(|p: (Set<i64>, CacheModel)| p.1)
    } else {
        accumulate(a, rows)
    }
}

struct AccCache {
    id: u64,
    links: Vec<LinkRef>,
    paths: Vec<(i64, usize)>,
}

impl AccCache {
    spec fn model(&self) -> CacheModel {
        CacheModel { id: self.id, links: self.links@, paths: self.paths@ }
    }

    fn in_linkage(&self, src_from: i64, src_to: i64, use_from: bool, use_to: bool) -> (res: bool)
        ensures
            res == in_linkage(self.links@, src_from, src_to, use_from, use_to),
    {
        let valid_from = src_from > 0;
        let valid_to = src_to > 0;
        if !valid_from && !valid_to {
            return true;
        }
        let mut k: usize = 0;
        while k < self.links.len()
            invariant
                k <= self.links@.len(),
                valid_from == (src_from > 0),
                valid_to == (src_to > 0),
                valid_from || valid_to,
                forall|t: int| 0 <= t < k ==> !#[trigger] link_meets(self.links@[t], src_from, src_to, use_from, use_to),
            decreases self.links@.len() - k,
        {
            let (tar_from, tar_to, _) = self.links[k];
            if use_from && valid_from && (tar_from == src_from || tar_from == src_to) {
                assert(link_meets(self.links@[k as int], src_from, src_to, use_from, use_to));
                return true;
            }
            if use_to && valid_to && (tar_to == src_from || tar_to == src_to) {
                assert(link_meets(self.links@[k as int], src_from, src_to, use_from, use_to));
                return true;
            }
            k += 1;
        }
        false
    }

    fn push_link(&mut self, l: LinkRef)
        ensures
            final(self).model() == (CacheModel { links: push_new(old(self).links@, l), ..old(self).model() }),
    {
        let mut k: usize = 0;
        let mut found = false;
        while k < self.links.len()
            invariant
                k <= self.links@.len(),
                found == exists|t: int| 0 <= t < k && self.links@[t] == l,
            decreases self.links@.len() - k,
        {
            let t = self.links[k];
            if t.0 == l.0 && t.1 == l.1 && t.2 == l.2 {
                found = true;
            }
            k += 1;
        }
        if !found {
            self.links.push(l);
        }
        proof {
            assert(found == old(self).links@.contains(l));
        }
    }

    fn push_path(&mut self, p: (i64, usize))
        ensures
            final(self).model() == (CacheModel { paths: add_path(old(self).paths@, p), ..old(self).model() }),
    {
        let mut k: usize = 0;
        let mut seen = false;
        while k < self.paths.len()
            invariant
                k <= self.paths@.len(),
                seen == exists|t: int| 0 <= t < k && #[trigger] self.paths@[t].0 == p.0,
            decreases self.paths@.len() - k,
        {
            if self.paths[k].0 == p.0 {
                seen = true;
            }
            k += 1;
        }
        if !seen {
            self.paths.push(p);
        }
    }

    fn add(&mut self, l: LinkRef, row: usize)
        ensures
            final(self).model() == add_link(old(self).model(), l, row),
    {
        self.push_link(l);
        self.push_path((l.2, row));
    }

    fn merge_from(&mut self, other: &AccCache)
        ensures
            final(self).model() == merge_cache(old(self).model(), other.model()),
    {
        let ghost start = self.model();
        let mut t: usize = 0;
        while t < other.links.len()
            invariant
                t <= other.links@.len(),
                self.id == start.id,
                self.paths@ == start.paths,
                self.links@ == merge_links(start.links, other.links@.take(t as int)),
            decreases other.links@.len() - t,
        {
            assert(other.links@.take(t + 1).drop_last() == other.links@.take(t as int));
            self.push_link(other.links[t]);
            t += 1;
        }
        assert(other.links@.take(other.links@.len() as int) == other.links@);
        let mut t: usize = 0;
        while t < other.paths.len()
            invariant
                t <= other.paths@.len(),
                self.id == start.id,
                self.links@ == merge_links(start.links, other.links@),
                self.paths@ == merge_paths(start.paths, other.paths@.take(t as int)),
            decreases other.paths@.len() - t,
        {
            assert(other.paths@.take(t + 1).drop_last() == other.paths@.take(t as int));
            self.push_path(other.paths[t]);
            t += 1;
        }
        assert(other.paths@.take(other.paths@.len() as int) == other.paths@);
    }
}

fn joining_cache(caches: &Vec<AccCache>, a: LinkAction, l: LinkRef) -> (res: Option<usize>)
    ensures
        match res {
            Some(k) => k < caches@.len() && first_joining(models(caches@), a, l, 0) == Some(k as int),
            None => first_joining(models(caches@), a, l, 0) is None,
        },
{
    let ghost cs = caches@.map_values(|c: AccCache| c.model());
    if a == LinkAction::Trigger {
        proof {
            lemma_first_joining_none(cs, a, l, 0);
        }
        return None;
    }
    let mut k: usize = caches.len();
    let mut res: Option<usize> = None;
    proof {
        lemma_first_joining_none(cs, a, l, k as int);
    }
    while k > 0
        invariant
            k <= caches@.len(),
            cs == caches@.map_values(|c: AccCache| c.model()),
            a != LinkAction::Trigger,
            match res {
                Some(j) => j < caches@.len() && first_joining(cs, a, l, k as int) == Some(j as int),
                None => first_joining(cs, a, l, k as int) is None,
            },
        decreases k,
    {
        k -= 1;
        let hit = match a {
            LinkAction::TriggerAll | LinkAction::TriggerAny => caches[k].in_linkage(0, l.1, false, true),
            _ => caches[k].in_linkage(l.0, l.1, true, true),
        };
        assert(cs[k as int] == caches@[k as int].model());
        if hit {
            res = Some(k);
        }
    }
    res
}

proof fn lemma_first_joining_none(cs: Seq<CacheModel>, a: LinkAction, l: LinkRef, k: int)
    requires
        a == LinkAction::Trigger || k >= cs.len(),
        0 <= k,
    ensures
        first_joining(cs, a, l, k) is None,
    decreases cs.len() - k,
{
    if k < cs.len() {
        lemma_first_joining_none(cs, a, l, k + 1);
    }
}

spec fn models(caches: Seq<AccCache>) -> Seq<CacheModel> {
    caches.map_values(|c: AccCache| c.model())
}

fn accumulate_caches(a: LinkAction, rows: &Vec<(LinkRef, usize)>) -> (res: Vec<AccCache>)
    ensures
        models(res@) == accumulate(a, rows@),
{
    let mut caches: Vec<AccCache> = Vec::new();
    let mut i: usize = 0;
    while i < rows.len()
        invariant
            i <= rows@.len(),
            caches@.len() <= i,
            models(caches@) == accumulate(a, rows@.take(i as int)),
        decreases rows@.len() - i,
    {
        let (l, r) = rows[i];
        let ghost cs = models(caches@);
        proof {
            assert(rows@.take(i + 1).drop_last() == rows@.take(i as int));
            assert(rows@.take(i + 1).last() == rows@[i as int]);
        }
        match joining_cache(&caches, a, l) {
            Some(k) => {
                let mut c = caches.remove(k);
                c.add(l, r);
                caches.insert(k, c);
                proof {
                    assert(models(caches@) == cs.update(k as int, add_link(cs[k as int], l, r)));
                }
            },
            None => {
                let n = caches.len() as u64;
                let mut c = AccCache { id: n + 1, links: Vec::new(), paths: Vec::new() };
                c.add(l, r);
                caches.push(c);
                proof {
                    assert(models(caches@) == cs.push(
                        add_link(CacheModel { id: (cs.len() + 1) as u64, links: Seq::empty(), paths: Seq::empty() }, l, r),
                    ));
                }
            },
        }
        i += 1;
    }
    proof {
        assert(rows@.take(rows@.len() as int) == rows@);
    }
    caches
}

fn has_source_exec(links: &Vec<LinkRef>) -> (res: bool)
    ensures
        res == has_source(links@),
{
    let mut k: usize = 0;
    while k < links.len()
        invariant
            k <= links@.len(),
            forall|t: int| 0 <= t < k ==> !(#[trigger] links@[t].0 > 0),
        decreases links@.len() - k,
    {
        if links[k].0 > 0 {
            return true;
        }
        k += 1;
    }
    false
}

fn source_in(links: &Vec<LinkRef>, f: i64) -> (res: bool)
    ensures
        res == exists|k: int| 0 <= k < links@.len() && links@[k].0 == f,
{
    let mut k: usize = 0;
    while k < links.len()
        invariant
            k <= links@.len(),
            forall|t: int| 0 <= t < k ==> links@[t].0 != f,
        decreases links@.len() - k,
    {
        if links[k].0 == f {
            return true;
        }
        k += 1;
    }
    false
}

fn sources_within(a: &Vec<LinkRef>, b: &Vec<LinkRef>) -> (res: bool)
    ensures
        res == from_set(a@).subset_of(from_set(b@)),
{
    let mut k: usize = 0;
    while k < a.len()
        invariant
            k <= a@.len(),
            forall|t: int| 0 <= t < k ==> a@[t].0 > 0 ==> from_set(b@).contains(#[trigger] a@[t].0),
        decreases a@.len() - k,
    {
        let f = a[k].0;
        if f > 0 && !source_in(b, f) {
            assert(from_set(a@).contains(f));
            return false;
        }
        k += 1;
    }
    proof {
        assert forall|f: i64| from_set(a@).contains(f) implies from_set(b@).contains(f) by {
            let t = choose|t: int| 0 <= t < a@.len() && a@[t].0 == f;
            assert(a@[t].0 > 0 ==> from_set(b@).contains(a@[t].0));
        }
    }
    true
}

fn same_sources(a: &Vec<LinkRef>, b: &Vec<LinkRef>) -> (res: bool)
    ensures
        res == (from_set(a@) == from_set(b@)),
{
    let r = sources_within(a, b) && sources_within(b, a);
    proof {
        if r {
            assert(from_set(a@) =~= from_set(b@));
        }
    }
    r
}

fn group_caches_by_sources(caches: &Vec<AccCache>) -> (res: Vec<AccCache>)
    ensures
        models(res@) == group_by_triggers(models(caches@)).map_values(|p: (Set<i64>, CacheModel)| p.1),
{
    let ghost cs = models(caches@);
    let mut keys: Vec<usize> = Vec::new();
    let mut out: Vec<AccCache> = Vec::new();
    let mut j: usize = 0;
    while j < caches.len()
        invariant
            j <= caches@.len(),
            cs == models(caches@),
            keys@.len() == out@.len(),
            forall|k: int| 0 <= k < keys@.len() ==> #[trigger] keys@[k] < j,
            group_by_triggers(cs.take(j as int)) == Seq::new(
                out@.len(),
                |k: int| (from_set(caches@[keys@[k] as int].links@), out@[k].model()),
            ),
        decreases caches@.len() - j,
    {
        let ghost g = group_by_triggers(cs.take(j as int));
        proof {
            assert(cs.take(j + 1).drop_last() == cs.take(j as int));
            assert(cs.take(j + 1).last() == caches@[j as int].model());
        }
        let c = &caches[j];
        if has_source_exec(&c.links) {
            let mut k: usize = 0;
            let mut found: Option<usize> = None;
            while k < keys.len()
                invariant
                    k <= keys@.len(),
                    keys@.len() == out@.len(),
                    g == Seq::new(out@.len(), |t: int| (from_set(caches@[keys@[t] as int].links@), out@[t].model())),
                    forall|t: int| 0 <= t < keys@.len() ==> #[trigger] keys@[t] < j,
                    j < caches@.len(),
                    c == caches@[j as int],
                    match found {
                        Some(t) => t < keys@.len() && first_with_key(g, from_set(c.links@), 0) == Some(t as int),
                        None => first_with_key(g, from_set(c.links@), 0) == first_with_key(g, from_set(c.links@), k as int),
                    },
                decreases keys@.len() - k,
            {
                if found.is_none() {
                    if same_sources(&caches[keys[k]].links, &c.links) {
                        found = Some(k);
                    }
                }
                k += 1;
            }
            proof {
                if found is None {
                    assert(first_with_key(g, from_set(c.links@), k as int) is None);
                }
            }
            match found {
                Some(t) => {
                    let mut e = out.remove(t);
                    e.merge_from(c);
                    out.insert(t, e);
                    proof {
                        let key = from_set(c.links@);
                        assert(group_by_triggers(cs.take(j + 1)) == g.update(t as int, (key, merge_cache(g[t as int].1, c.model()))));
                        lemma_first_with_key(g, key, 0);
                        assert(g[t as int].0 == key);
                        assert(group_by_triggers(cs.take(j + 1)) =~= Seq::new(
                            out@.len(),
                            |k: int| (from_set(caches@[keys@[k] as int].links@), out@[k].model()),
                        ));
                    }
                },
                None => {
                    let mut e = AccCache { id: c.id, links: Vec::new(), paths: Vec::new() };
                    e.merge_from(c);
                    out.push(e);
                    keys.push(j);
                    proof {
                        assert(group_by_triggers(cs.take(j + 1)) =~= Seq::new(
                            out@.len(),
                            |k: int| (from_set(caches@[keys@[k] as int].links@), out@[k].model()),
                        ));
                    }
                },
            }
        } else {
            proof {
                assert(group_by_triggers(cs.take(j + 1)) == g);
            }
        }
        j += 1;
    }
    proof {
        assert(cs.take(caches@.len() as int) == cs);
        assert(models(out@) =~= group_by_triggers(cs).map_values(|p: (Set<i64>, CacheModel)| p.1));
    }
    out
}

// ---------------------------------------------------------------------------
// The relation graph
// ---------------------------------------------------------------------------

/// What a relation holds: its action; for the trigger family the distinct
/// `(source, linkage id)` and `(target, linkage id)` pairs, else the
/// distinct links of its group.
pub struct RelationModel {
    pub kind: LinkAction,
    pub triggers: Seq<(i64, i64)>,
    pub targets: Seq<(i64, i64)>,
    pub group: Seq<LinkRef>,
}

/// The sources of links, each with its linkage id.
pub open spec fn sources_of(links: Seq<LinkRef>) -> Seq<(i64, i64)> {
    links.map_values(|l: LinkRef| (l.0, l.2))
}

/// The targets of links, each with its linkage id.
pub open spec fn targets_of(links: Seq<LinkRef>) -> Seq<(i64, i64)> {
    links.map_values(|l: LinkRef| (l.1, l.2))
}

/// The relation that a cache of action `a` becomes.
pub open spec fn relation_of(a: LinkAction, links: Seq<LinkRef>) -> RelationModel {
    if is_trigger_family(a) {
        RelationModel {
            kind: a,
            triggers: dedup(sources_of(links)),
            targets: dedup(targets_of(links)),
            group: Seq::empty(),
        }
    } else {
        RelationModel { kind: a, triggers: Seq::empty(), targets: Seq::empty(), group: dedup(links) }
    }
}

/// Both ends of each link, in order.
pub open spec fn ends(links: Seq<LinkRef>) -> Seq<i64>
    decreases links.len(),
{
    if links.len() == 0 {
        Seq::empty()
    } else {
        ends(links.drop_last()) + seq![links.last().0, links.last().1]
    }
}

/// The relation lists after relation `id` is listed under each marker of `mids`.
pub open spec fn note_relation(rels: Map<i64, Seq<u64>>, mids: Seq<i64>, id: u64) -> Map<i64, Seq<u64>>
    decreases mids.len(),
{
    if mids.len() == 0 {
        rels
    } else {
        let r = note_relation(rels, mids.drop_last(), id);
        let m = mids.last();
        r.insert(m, (if r.contains_key(m) { r[m] } else { Seq::empty() }).push(id))
    }
}

/// The path table after each entry of `paths` is written (a later entry
/// for the same linkage replaces an earlier one).
pub open spec fn note_paths(refs: Map<i64, usize>, paths: Seq<(i64, usize)>) -> Map<i64, usize>
    decreases paths.len(),
{
    if paths.len() == 0 {
        refs
    } else {
        note_paths(refs, paths.drop_last()).insert(paths.last().0, paths.last().1)
    }
}

/// The graph of one linkage group: for each marker the relations it takes
/// part in, each relation by its number, and for each linkage the row
/// whose path edges it shows.
pub struct GraphModel {
    pub relations: Map<i64, Seq<u64>>,
    pub rel_refs: Map<u64, RelationModel>,
    pub path_refs: Map<i64, usize>,
}

/// The graph with one more cache of action `a`: its number is listed under
/// each distinct end of its links, its relation is stored under its number
/// (replacing one of another action with the same number), and its paths
/// are written.
pub open spec fn add_cache(g: GraphModel, a: LinkAction, c: CacheModel) -> GraphModel {
    GraphModel {
        relations: note_relation(g.relations, dedup(ends(c.links)), c.id),
        rel_refs: g.rel_refs.insert(c.id, relation_of(a, c.links)),
        path_refs: note_paths(g.path_refs, c.paths),
    }
}

/// The graph with the caches of action `a` added in order.
pub open spec fn add_caches(g: GraphModel, a: LinkAction, cs: Seq<CacheModel>) -> GraphModel
    decreases cs.len(),
{
    if cs.len() == 0 {
        g
    } else {
        add_cache(add_caches(g, a, cs.drop_last()), a, cs.last())
    }
}

/// One relation of the graph.
pub struct Relation {
    pub kind: LinkAction,
    pub triggers: Vec<(i64, i64)>,
    pub targets: Vec<(i64, i64)>,
    pub group: Vec<LinkRef>,
}

impl View for Relation {
    type V = RelationModel;

    open spec fn view(&self) -> RelationModel {
        RelationModel { kind: self.kind, triggers: self.triggers@, targets: self.targets@, group: self.group@ }
    }
}

/// The graph of one linkage group; relations are numbered per action list
/// (`c1`, `c2`, ... on the wire).
pub struct LinkageGraph {
    pub group_id: String,
    pub relations: BTreeMap<i64, Vec<u64>>,
    pub rel_refs: BTreeMap<u64, Relation>,
    pub path_refs: BTreeMap<i64, usize>,
}

impl LinkageGraph {
    /// The graph as maps of plain values.
    pub open spec fn model(&self) -> GraphModel {
        GraphModel {
            relations: self.relations@.map_values(|v: Vec<u64>| v@),
            rel_refs: self.rel_refs@.map_values(|r: Relation| r@),
            path_refs: self.path_refs@,
        }
    }
}

pub proof fn lemma_dedup_push<T>(s: Seq<T>, x: T)
    ensures
        dedup(s.push(x)) == push_new(dedup(s), x),
{
    assert(s.push(x).drop_last() == s);
}

/// Dropping repeats keeps every element once and adds none: the result
/// holds no repeat, and holds `x` exactly when `s` does.
pub proof fn dedup_keeps_each_element_once<T>(s: Seq<T>)
    ensures
        dedup(s).no_duplicates(),
        forall|x: T| #[trigger] dedup(s).contains(x) <==> s.contains(x),
    decreases s.len(),
{
    if s.len() > 0 {
        let t = s.drop_last();
        let y = s.last();
        dedup_keeps_each_element_once(t);
        let d = dedup(t);
        assert(s == t.push(y));
        if !d.contains(y) {
            let e = d.push(y);
            assert forall|a: int, b: int| 0 <= a < e.len() && 0 <= b < e.len() && a != b implies e[a] != e[b] by {
                if a < d.len() && b < d.len() {
                    assert(e[a] == d[a] && e[b] == d[b]);
                } else if a < d.len() {
                    assert(e[a] == d[a]);
                } else {
                    assert(e[b] == d[b]);
                }
            }
        }
        assert forall|x: T| #[trigger] dedup(s).contains(x) <==> s.contains(x) by {
            if s.contains(x) {
                let k = choose|k: int| 0 <= k < s.len() && s[k] == x;
                if k < t.len() {
                    assert(t[k] == x);
                    assert(d.contains(x));
                    let j = choose|j: int| 0 <= j < d.len() && d[j] == x;
                    if !d.contains(y) {
                        assert(d.push(y)[j] == x);
                    }
                } else if !d.contains(y) {
                    assert(d.push(y)[d.len() as int] == x);
                }
            }
            if dedup(s).contains(x) {
                let j = choose|j: int| 0 <= j < dedup(s).len() && dedup(s)[j] == x;
                if j < d.len() {
                    assert(dedup(s)[j] == d[j]);
                    assert(d.contains(x));
                    assert(t.contains(x));
                    let k = choose|k: int| 0 <= k < t.len() && t[k] == x;
                    assert(s[k] == x);
                } else {
                    assert(s[s.len() - 1] == x);
                }
            }
        }
    }
}

fn dedup_pairs(s: &Vec<(i64, i64)>) -> (res: Vec<(i64, i64)>)
    ensures
        res@ == dedup(s@),
{
    let mut res: Vec<(i64, i64)> = Vec::new();
    let mut t: usize = 0;
    while t < s.len()
        invariant
            t <= s@.len(),
            res@ == dedup(s@.take(t as int)),
        decreases s@.len() - t,
    {
        let x = s[t];
        let mut k: usize = 0;
        let mut found = false;
        while k < res.len()
            invariant
                k <= res@.len(),
                found == exists|j: int| 0 <= j < k && res@[j] == x,
            decreases res@.len() - k,
        {
            let y = res[k];
            if y.0 == x.0 && y.1 == x.1 {
                found = true;
            }
            k += 1;
        }
        proof {
            assert(found == res@.contains(x));
            lemma_dedup_push(s@.take(t as int), x);
            assert(s@.take(t + 1) == s@.take(t as int).push(x));
        }
        if !found {
            res.push(x);
        }
        t += 1;
    }
    assert(s@.take(s@.len() as int) == s@);
    res
}

fn dedup_links(s: &Vec<LinkRef>) -> (res: Vec<LinkRef>)
    ensures
        res@ == dedup(s@),
{
    let mut res = AccCache { id: 0, links: Vec::new(), paths: Vec::new() };
    let mut t: usize = 0;
    while t < s.len()
        invariant
            t <= s@.len(),
            res.links@ == dedup(s@.take(t as int)),
        decreases s@.len() - t,
    {
        proof {
            lemma_dedup_push(s@.take(t as int), s@[t as int]);
            assert(s@.take(t + 1) == s@.take(t as int).push(s@[t as int]));
        }
        res.push_link(s[t]);
        t += 1;
    }
    assert(s@.take(s@.len() as int) == s@);
    res.links
}

fn relation_exec(a: LinkAction, links: &Vec<LinkRef>) -> (res: Relation)
    ensures
        res@ == relation_of(a, links@),
{
    if a == LinkAction::Trigger || a == LinkAction::TriggerAll || a == LinkAction::TriggerAny {
        let mut srcs: Vec<(i64, i64)> = Vec::new();
        let mut tars: Vec<(i64, i64)> = Vec::new();
        let mut t: usize = 0;
        while t < links.len()
            invariant
                t <= links@.len(),
                srcs@ == sources_of(links@.take(t as int)),
                tars@ == targets_of(links@.take(t as int)),
            decreases links@.len() - t,
        {
            let l = links[t];
            srcs.push((l.0, l.2));
            tars.push((l.1, l.2));
            proof {
                assert(links@.take(t + 1) == links@.take(t as int).push(l));
                assert(sources_of(links@.take(t + 1)) == sources_of(links@.take(t as int)).push((l.0, l.2)));
                assert(targets_of(links@.take(t + 1)) == targets_of(links@.take(t as int)).push((l.1, l.2)));
            }
            t += 1;
        }
        assert(links@.take(links@.len() as int) == links@);
        Relation { kind: a, triggers: dedup_pairs(&srcs), targets: dedup_pairs(&tars), group: Vec::new() }
    } else {
        Relation { kind: a, triggers: Vec::new(), targets: Vec::new(), group: dedup_links(links) }
    }
}

fn endpoints(links: &Vec<LinkRef>) -> (res: Vec<i64>)
    ensures
        res@ == dedup(ends(links@)),
{
    let mut res: Vec<i64> = Vec::new();
    let mut t: usize = 0;
    while t < links.len()
        invariant
            t <= links@.len(),
            res@ == dedup(ends(links@.take(t as int))),
        decreases links@.len() - t,
    {
        let l = links[t];
        let ghost e = ends(links@.take(t as int));
        proof {
            assert(links@.take(t + 1).drop_last() == links@.take(t as int));
            assert(ends(links@.take(t + 1)) == e + seq![l.0, l.1]);
            assert(e + seq![l.0, l.1] == e.push(l.0).push(l.1));
            lemma_dedup_push(e, l.0);
            lemma_dedup_push(e.push(l.0), l.1);
        }
        if !contains_id(&res, l.0) {
            res.push(l.0);
        }
        if !contains_id(&res, l.1) {
            res.push(l.1);
        }
        t += 1;
    }
    assert(links@.take(links@.len() as int) == links@);
    res
}

fn add_cache_exec(g: &mut LinkageGraph, a: LinkAction, c: &AccCache)
    ensures
        final(g).group_id == old(g).group_id,
        final(g).model() == add_cache(old(g).model(), a, c.model()),
{
    let ghost start = g.model();
    let mids = endpoints(&c.links);
    let mut t: usize = 0;
    while t < mids.len()
        invariant
            t <= mids@.len(),
            g.group_id == old(g).group_id,
            g.rel_refs == old(g).rel_refs,
            g.path_refs == old(g).path_refs,
            g.model().relations == note_relation(start.relations, mids@.take(t as int), c.id),
        decreases mids@.len() - t,
    {
        let m = mids[t];
        let ghost before = g.relations@;
        let mut list: Vec<u64> = match g.relations.remove(&m) {
            Some(v) => v,
            None => Vec::new(),
        };
        list.push(c.id);
        g.relations.insert(m, list);
        proof {
            assert(mids@.take(t + 1).drop_last() == mids@.take(t as int));
            let r = note_relation(start.relations, mids@.take(t as int), c.id);
            assert(r == before.map_values(|v: Vec<u64>| v@));
            assert(g.relations@.map_values(|v: Vec<u64>| v@) =~= r.insert(
                m,
                (if r.contains_key(m) { r[m] } else { Seq::empty() }).push(c.id),
            ));
        }
        t += 1;
    }
    assert(mids@.take(mids@.len() as int) == mids@);
    let rel = relation_exec(a, &c.links);
    let ghost refs_before = g.rel_refs@;
    g.rel_refs.insert(c.id, rel);
    proof {
        assert(g.rel_refs@.map_values(|r: Relation| r@) =~= refs_before.map_values(|r: Relation| r@).insert(
            c.id,
            relation_of(a, c.links@),
        ));
    }
    let mut t: usize = 0;
    while t < c.paths.len()
        invariant
            t <= c.paths@.len(),
            g.group_id == old(g).group_id,
            g.model().relations == add_cache(start, a, c.model()).relations,
            g.model().rel_refs == add_cache(start, a, c.model()).rel_refs,
            g.path_refs@ == note_paths(start.path_refs, c.paths@.take(t as int)),
        decreases c.paths@.len() - t,
    {
        let p = c.paths[t];
        g.path_refs.insert(p.0, p.1);
        assert(c.paths@.take(t + 1).drop_last() == c.paths@.take(t as int));
        t += 1;
    }
    assert(c.paths@.take(c.paths@.len() as int) == c.paths@);
}

fn add_caches_exec(g: &mut LinkageGraph, a: LinkAction, caches: &Vec<AccCache>)
    ensures
        final(g).group_id == old(g).group_id,
        final(g).model() == add_caches(old(g).model(), a, models(caches@)),
{
    let ghost start = g.model();
    let mut t: usize = 0;
    while t < caches.len()
        invariant
            t <= caches@.len(),
            g.group_id == old(g).group_id,
            g.model() == add_caches(start, a, models(caches@).take(t as int)),
        decreases caches@.len() - t,
    {
        proof {
            assert(models(caches@).take(t + 1).drop_last() == models(caches@).take(t as int));
            assert(models(caches@).take(t + 1).last() == caches@[t as int].model());
        }
        add_cache_exec(g, a, &caches[t]);
        t += 1;
    }
    assert(models(caches@).take(caches@.len() as int) == models(caches@));
}

/// The group id of a row (empty when it has none).
pub open spec fn row_group(vo: MarkerLinkVo) -> Seq<char> {
    match vo.group_id {
        Some(g) => g@,
        None => Seq::empty(),
    }
}

/// A row that the graph uses: it has a group id, two marker ends and an action.
pub open spec fn valid_row(vo: MarkerLinkVo) -> bool {
    row_group(vo).len() > 0 && vo.from_id > 0 && vo.to_id > 0 && vo.link_action is Some
}

/// The links of group `g` with action `a` among the first `n` rows, in
/// order, each with its row.
pub open spec fn rows_for(vos: Seq<MarkerLinkVo>, g: Seq<char>, a: LinkAction, n: int) -> Seq<(LinkRef, usize)>
    decreases n,
{
    if n <= 0 {
        Seq::empty()
    } else {
        let p = rows_for(vos, g, a, n - 1);
        let vo = vos[n - 1];
        if valid_row(vo) && row_group(vo) == g && vo.link_action == Some(a) {
            p.push(((vo.from_id, vo.to_id, vo.id), (n - 1) as usize))
        } else {
            p
        }
    }
}

/// A graph with nothing in it.
pub open spec fn empty_graph() -> GraphModel {
    GraphModel { relations: Map::empty(), rel_refs: Map::empty(), path_refs: Map::empty() }
}

/// The graph of group `g` after the actions of the first `r` ranks.
pub open spec fn graph_upto(vos: Seq<MarkerLinkVo>, g: Seq<char>, r: nat) -> GraphModel
    decreases r,
{
    if r == 0 {
        empty_graph()
    } else {
        let a = action_of_rank((r - 1) as nat);
        add_caches(graph_upto(vos, g, (r - 1) as nat), a, final_caches(a, rows_for(vos, g, a, vos.len() as int)))
    }
}

/// The graph of group `g`: the actions are taken in the order of their
/// wire names, each action's links in row order.
pub open spec fn linkage_graph(vos: Seq<MarkerLinkVo>, g: Seq<char>) -> GraphModel {
    graph_upto(vos, g, 8)
}

/// Some valid row among the first `n` belongs to group `g`.
pub open spec fn group_present(vos: Seq<MarkerLinkVo>, g: Seq<char>, n: int) -> bool {
    exists|i: int| 0 <= i < n && #[trigger] valid_row(vos[i]) && row_group(vos[i]) == g
}

fn rank_exec(a: LinkAction) -> (res: u8)
    ensures
        res == action_rank(a),
        res < 8,
        action_of_rank(res as nat) == a,
{
    match a {
        LinkAction::Directed => 0,
        LinkAction::Equivalent => 1,
        LinkAction::PathBiDir => 2,
        LinkAction::PathUniDir => 3,
        LinkAction::Related => 4,
        LinkAction::Trigger => 5,
        LinkAction::TriggerAll => 6,
        LinkAction::TriggerAny => 7,
    }
}

struct GroupRows {
    group_id: String,
    lists: Vec<Vec<(LinkRef, usize)>>,
}

spec fn lists_ok(gr: GroupRows, vos: Seq<MarkerLinkVo>, n: int) -> bool {
    &&& gr.lists@.len() == 8
    &&& forall|r: int| 0 <= r < 8 ==> #[trigger] gr.lists@[r]@ == rows_for(vos, gr.group_id@, action_of_rank(r as nat), n)
}

fn find_group_rows(groups: &Vec<GroupRows>, key: &String) -> (res: Option<usize>)
    ensures
        match res {
            Some(k) => k < groups@.len() && groups@[k as int].group_id@ == key@,
            None => forall|k: int| 0 <= k < groups@.len() ==> groups@[k].group_id@ != key@,
        },
{
    let mut j: usize = 0;
    while j < groups.len()
        invariant
            j <= groups.len(),
            forall|k: int| 0 <= k < j ==> groups@[k].group_id@ != key@,
        decreases groups.len() - j,
    {
        if groups[j].group_id == *key {
            return Some(j);
        }
        j += 1;
    }
    None
}

fn bucket_rows(vos: &Vec<MarkerLinkVo>) -> (res: Vec<GroupRows>)
    ensures
        forall|k: int| 0 <= k < res@.len() ==> #[trigger] lists_ok(res@[k], vos@, vos@.len() as int),
        forall|k: int| 0 <= k < res@.len() ==> group_present(vos@, #[trigger] res@[k].group_id@, vos@.len() as int),
        forall|k: int, h: int| 0 <= k < h < res@.len() ==> #[trigger] res@[k].group_id@ != #[trigger] res@[h].group_id@,
        forall|i: int| 0 <= i < vos@.len() && #[trigger] valid_row(vos@[i]) ==> exists|k: int|
            0 <= k < res@.len() && res@[k].group_id@ == row_group(vos@[i]),
{
    let mut groups: Vec<GroupRows> = Vec::new();
    let mut i: usize = 0;
    while i < vos.len()
        invariant
            i <= vos@.len(),
            forall|k: int| 0 <= k < groups@.len() ==> #[trigger] lists_ok(groups@[k], vos@, i as int),
            forall|k: int| 0 <= k < groups@.len() ==> group_present(vos@, #[trigger] groups@[k].group_id@, i as int),
            forall|k: int, h: int| 0 <= k < h < groups@.len() ==> #[trigger] groups@[k].group_id@ != #[trigger] groups@[h].group_id@,
            forall|j: int| 0 <= j < i && #[trigger] valid_row(vos@[j]) ==> exists|k: int|
                0 <= k < groups@.len() && groups@[k].group_id@ == row_group(vos@[j]),
        decreases vos@.len() - i,
    {
        let vo = &vos[i];
        let ghost old_groups = groups@;
        let mut ok = vo.from_id > 0 && vo.to_id > 0;
        let mut rank: u8 = 0;
        match vo.link_action {
            Some(a) => { rank = rank_exec(a); },
            None => { ok = false; },
        }
        match &vo.group_id {
            Some(gid) => {
                if gid.as_str().is_empty() {
                    ok = false;
                }
                if ok {
                    assert(valid_row(*vo));
                    let l: LinkRef = (vo.from_id, vo.to_id, vo.id);
                    match find_group_rows(&groups, gid) {
                        Some(k) => {
                            assert(lists_ok(groups@[k as int], vos@, i as int));
                            let mut gr = groups.remove(k);
                            let ghost old_lists = gr.lists@;
                            let mut list = gr.lists.remove(rank as usize);
                            list.push((l, i));
                            gr.lists.insert(rank as usize, list);
                            groups.insert(k, gr);
                            proof {
                                assert forall|q: int| 0 <= q < groups@.len() implies #[trigger] lists_ok(groups@[q], vos@, i + 1) by {
                                    if q == k {
                                        assert forall|r: int| 0 <= r < 8 implies #[trigger] groups@[q].lists@[r]@ == rows_for(
                                            vos@, groups@[q].group_id@, action_of_rank(r as nat), i + 1) by {
                                            if r != rank {
                                                assert(groups@[q].lists@[r] == old_lists[r]);
                                                assert(action_of_rank(r as nat) != action_of_rank(rank as nat));
                                            }
                                            assert(old_groups[q].lists@[r]@ == rows_for(vos@, old_groups[q].group_id@, action_of_rank(r as nat), i as int));
                                        }
                                    } else {
                                        assert(groups@[q] == old_groups[q]);
                                        assert(lists_ok(old_groups[q], vos@, i as int));
                                        assert forall|r: int| 0 <= r < 8 implies #[trigger] groups@[q].lists@[r]@ == rows_for(
                                            vos@, groups@[q].group_id@, action_of_rank(r as nat), i + 1) by {
                                            assert(old_groups[q].lists@[r]@ == rows_for(vos@, old_groups[q].group_id@, action_of_rank(r as nat), i as int));
                                        }
                                    }
                                }
                                assert forall|q: int| 0 <= q < groups@.len() implies group_present(vos@, #[trigger] groups@[q].group_id@, i + 1) by {
                                    assert(groups@[q].group_id == old_groups[q].group_id);
                                    assert(group_present(vos@, old_groups[q].group_id@, i as int));
                                    let j = choose|j: int| 0 <= j < i && #[trigger] valid_row(vos@[j]) && row_group(vos@[j]) == old_groups[q].group_id@;
                                    assert(valid_row(vos@[j]));
                                }
                                assert forall|q: int, h: int| 0 <= q < h < groups@.len() implies #[trigger] groups@[q].group_id@ != #[trigger] groups@[h].group_id@ by {
                                    assert(groups@[q].group_id == old_groups[q].group_id);
                                    assert(groups@[h].group_id == old_groups[h].group_id);
                                }
                                assert forall|j: int| 0 <= j < i + 1 && #[trigger] valid_row(vos@[j]) implies exists|q: int|
                                    0 <= q < groups@.len() && groups@[q].group_id@ == row_group(vos@[j]) by {
                                    if j < i {
                                        let q = choose|q: int| 0 <= q < old_groups.len() && old_groups[q].group_id@ == row_group(vos@[j]);
                                        assert(groups@[q].group_id == old_groups[q].group_id);
                                    } else {
                                        assert(groups@[k as int].group_id@ == row_group(vos@[j]));
                                    }
                                }
                            }
                        },
                        None => {
                            let mut lists: Vec<Vec<(LinkRef, usize)>> = Vec::new();
                            let mut r: u8 = 0;
                            while r < 8
                                invariant
                                    r <= 8,
                                    lists@.len() == r,
                                    rank < 8,
                                    forall|q: int| 0 <= q < r ==> #[trigger] lists@[q]@ == (if q == rank {
                                        seq![(l, i)]
                                    } else {
                                        Seq::<(LinkRef, usize)>::empty()
                                    }),
                                decreases 8 - r,
                            {
                                let mut list: Vec<(LinkRef, usize)> = Vec::new();
                                if r == rank {
                                    list.push((l, i));
                                }
                                lists.push(list);
                                r += 1;
                            }
                            let gr = GroupRows { group_id: gid.clone(), lists };
                            groups.push(gr);
                            proof {
                                let g = gid@;
                                assert forall|r: int| 0 <= r < 8 implies #[trigger] rows_for(vos@, g, action_of_rank(r as nat), i as int)
                                    == Seq::<(LinkRef, usize)>::empty() by {
                                    lemma_rows_for_absent(vos@, g, action_of_rank(r as nat), i as int);
                                }
                                assert forall|q: int| 0 <= q < groups@.len() implies #[trigger] lists_ok(groups@[q], vos@, i + 1) by {
                                    if q < old_groups.len() {
                                        assert(groups@[q] == old_groups[q]);
                                        assert(lists_ok(old_groups[q], vos@, i as int));
                                        assert forall|r: int| 0 <= r < 8 implies #[trigger] groups@[q].lists@[r]@ == rows_for(
                                            vos@, groups@[q].group_id@, action_of_rank(r as nat), i + 1) by {
                                            assert(old_groups[q].lists@[r]@ == rows_for(vos@, old_groups[q].group_id@, action_of_rank(r as nat), i as int));
                                        }
                                    } else {
                                        assert forall|r: int| 0 <= r < 8 implies #[trigger] groups@[q].lists@[r]@ == rows_for(
                                            vos@, groups@[q].group_id@, action_of_rank(r as nat), i + 1) by {
                                            assert(groups@[q].lists@[r]@ == lists@[r]@);
                                            assert(groups@[q].group_id@ == g);
                                            assert(rows_for(vos@, g, action_of_rank(r as nat), i as int) == Seq::<(LinkRef, usize)>::empty());
                                            if r == rank {
                                                assert(vos@[i as int].link_action == Some(action_of_rank(r as nat)));
                                                assert(row_group(vos@[i as int]) == g);
                                            }
                                            if r != rank {
                                                assert(action_of_rank(r as nat) != action_of_rank(rank as nat));
                                            }
                                        }
                                    }
                                }
                                assert forall|q: int| 0 <= q < groups@.len() implies group_present(vos@, #[trigger] groups@[q].group_id@, i + 1) by {
                                    if q < old_groups.len() {
                                        assert(groups@[q] == old_groups[q]);
                                        assert(group_present(vos@, old_groups[q].group_id@, i as int));
                                        let j = choose|j: int| 0 <= j < i && #[trigger] valid_row(vos@[j]) && row_group(vos@[j]) == old_groups[q].group_id@;
                                        assert(valid_row(vos@[j]));
                                    } else {
                                        assert(valid_row(vos@[i as int]));
                                    }
                                }
                                assert forall|q: int, h: int| 0 <= q < h < groups@.len() implies #[trigger] groups@[q].group_id@ != #[trigger] groups@[h].group_id@ by {
                                    if h == old_groups.len() {
                                        assert(groups@[q] == old_groups[q]);
                                    } else {
                                        assert(groups@[q] == old_groups[q]);
                                        assert(groups@[h] == old_groups[h]);
                                    }
                                }
                                assert forall|j: int| 0 <= j < i + 1 && #[trigger] valid_row(vos@[j]) implies exists|q: int|
                                    0 <= q < groups@.len() && groups@[q].group_id@ == row_group(vos@[j]) by {
                                    if j < i {
                                        let q = choose|q: int| 0 <= q < old_groups.len() && old_groups[q].group_id@ == row_group(vos@[j]);
                                        assert(groups@[q] == old_groups[q]);
                                    } else {
                                        assert(groups@[old_groups.len() as int].group_id@ == row_group(vos@[j]));
                                    }
                                }
                            }
                        },
                    }
                }
            },
            None => {
                ok = false;
            },
        }
        if !ok {
            proof {
                assert(!valid_row(vos@[i as int]));
                assert forall|q: int| 0 <= q < groups@.len() implies #[trigger] lists_ok(groups@[q], vos@, i + 1) by {
                    assert(lists_ok(groups@[q], vos@, i as int));
                    assert forall|r: int| 0 <= r < 8 implies #[trigger] groups@[q].lists@[r]@ == rows_for(
                        vos@, groups@[q].group_id@, action_of_rank(r as nat), i + 1) by {
                        assert(groups@[q].lists@[r]@ == rows_for(vos@, groups@[q].group_id@, action_of_rank(r as nat), i as int));
                    }
                }
                assert forall|q: int| 0 <= q < groups@.len() implies group_present(vos@, #[trigger] groups@[q].group_id@, i + 1) by {
                    assert(group_present(vos@, groups@[q].group_id@, i as int));
                    let j = choose|j: int| 0 <= j < i && #[trigger] valid_row(vos@[j]) && row_group(vos@[j]) == groups@[q].group_id@;
                    assert(valid_row(vos@[j]));
                }
            }
        }
        i += 1;
    }
    groups
}

proof fn lemma_rows_for_absent(vos: Seq<MarkerLinkVo>, g: Seq<char>, a: LinkAction, n: int)
    requires
        !group_present(vos, g, n),
    ensures
        rows_for(vos, g, a, n) == Seq::<(LinkRef, usize)>::empty(),
    decreases n,
{
    if n > 0 {
        assert(!(valid_row(vos[n - 1]) && row_group(vos[n - 1]) == g));
        assert(!group_present(vos, g, n - 1)) by {
            if group_present(vos, g, n - 1) {
                let j = choose|j: int| 0 <= j < n - 1 && #[trigger] valid_row(vos[j]) && row_group(vos[j]) == g;
                assert(valid_row(vos[j]));
            }
        }
        lemma_rows_for_absent(vos, g, a, n - 1);
    }
}

spec fn ids_sorted(out: Seq<GroupRows>) -> bool {
    forall|a: int, b: int| 0 <= a < b < out.len() ==> text_lt(#[trigger] out[a].group_id@, #[trigger] out[b].group_id@)
}

spec fn ids_distinct(s: Seq<GroupRows>) -> bool {
    forall|k: int, h: int| 0 <= k < h < s.len() ==> #[trigger] s[k].group_id@ != #[trigger] s[h].group_id@
}

fn sort_buckets(bs: Vec<GroupRows>) -> (res: Vec<GroupRows>)
    requires
        ids_distinct(bs@),
    ensures
        ids_sorted(res@),
        forall|k: int| 0 <= k < res@.len() ==> bs@.contains(#[trigger] res@[k]),
        forall|i: int| 0 <= i < bs@.len() ==> res@.contains(#[trigger] bs@[i]),
{
    let ghost orig = bs@;
    let mut src = bs;
    let mut out: Vec<GroupRows> = Vec::new();
    while src.len() > 0
        invariant
            ids_distinct(orig),
            src@.len() <= orig.len(),
            src@ == orig.subrange(0, src@.len() as int),
            ids_sorted(out@),
            forall|k: int| 0 <= k < out@.len() ==> orig.subrange(src@.len() as int, orig.len() as int).contains(#[trigger] out@[k]),
            forall|i: int| src@.len() <= i < orig.len() ==> out@.contains(#[trigger] orig[i]),
        decreases src@.len(),
    {
        let ghost n = src@.len() - 1;
        let g = src.pop().unwrap();
        assert(g == orig[n]);
        assert(src@ =~= orig.subrange(0, n));
        let mut p: usize = 0;
        while p < out.len() && !text_lt_exec(g.group_id.as_str(), out[p].group_id.as_str())
            invariant
                p <= out@.len(),
                forall|a: int| 0 <= a < p ==> !text_lt(g.group_id@, #[trigger] out@[a].group_id@),
            decreases out@.len() - p,
        {
            p += 1;
        }
        proof {
            assert forall|k: int| 0 <= k < out@.len() implies (#[trigger] out@[k]).group_id@ != g.group_id@ by {
                let sub = orig.subrange(n + 1, orig.len() as int);
                assert(sub.contains(out@[k]));
                let t = choose|t: int| 0 <= t < sub.len() && #[trigger] sub[t] == out@[k];
                assert(orig[n + 1 + t] == out@[k]);
            }
            assert forall|a: int| 0 <= a < p implies text_lt(#[trigger] out@[a].group_id@, g.group_id@) by {
                lemma_text_lt_total(out@[a].group_id@, g.group_id@);
            }
            if p < out@.len() {
                assert(text_lt(g.group_id@, out@[p as int].group_id@));
                assert forall|b: int| p <= b < out@.len() implies text_lt(g.group_id@, #[trigger] out@[b].group_id@) by {
                    if b > p {
                        lemma_lt_transitive(g.group_id@, out@[p as int].group_id@, out@[b].group_id@, 0);
                    }
                }
            }
        }
        let ghost old_out = out@;
        out.insert(p, g);
        proof {
            assert forall|a: int, b: int| 0 <= a < b < out@.len() implies text_lt(
                #[trigger] out@[a].group_id@,
                #[trigger] out@[b].group_id@,
            ) by {
                if b < p {
                    assert(out@[a] == old_out[a] && out@[b] == old_out[b]);
                } else if b == p {
                    assert(out@[a] == old_out[a]);
                } else if a < p {
                    assert(out@[a] == old_out[a] && out@[b] == old_out[b - 1]);
                    assert(text_lt(old_out[a].group_id@, g.group_id@));
                    assert(text_lt(g.group_id@, old_out[b - 1].group_id@));
                    lemma_lt_transitive(old_out[a].group_id@, g.group_id@, old_out[b - 1].group_id@, 0);
                } else if a == p {
                    assert(out@[b] == old_out[b - 1]);
                } else {
                    assert(out@[a] == old_out[a - 1] && out@[b] == old_out[b - 1]);
                }
            }
            assert forall|k: int| 0 <= k < out@.len() implies orig.subrange(n, orig.len() as int).contains(
                #[trigger] out@[k],
            ) by {
                if k == p {
                    assert(orig.subrange(n, orig.len() as int)[0] == g);
                } else {
                    let j = if k < p { k } else { k - 1 };
                    assert(out@[k] == old_out[j]);
                    let sub = orig.subrange(n + 1, orig.len() as int);
                    assert(sub.contains(old_out[j]));
                    let t = choose|t: int| 0 <= t < sub.len() && #[trigger] sub[t] == old_out[j];
                    assert(orig.subrange(n, orig.len() as int)[t + 1] == old_out[j]);
                }
            }
            assert forall|i: int| n <= i < orig.len() implies out@.contains(#[trigger] orig[i]) by {
                if i == n {
                    assert(out@[p as int] == orig[i]);
                } else {
                    assert(old_out.contains(orig[i]));
                    let j = choose|j: int| 0 <= j < old_out.len() && old_out[j] == orig[i];
                    if j < p {
                        assert(out@[j] == orig[i]);
                    } else {
                        assert(out@[j + 1] == orig[i]);
                    }
                }
            }
        }
    }
    proof {
        assert(orig.subrange(0, orig.len() as int) =~= orig);
    }
    out
}

/// The relation graphs of the linkages, one per group id of a valid row,
/// in ascending order of group id: rows without a group id, without two
/// marker ends or without an action are left out; each graph is
/// `linkage_graph` of its group.
pub fn build_linkage_graph(vos: &Vec<MarkerLinkVo>) -> (res: Vec<LinkageGraph>)
    ensures
        forall|k: int| 0 <= k < res@.len() ==> #[trigger] res@[k].model() == linkage_graph(vos@, res@[k].group_id@),
        forall|k: int| 0 <= k < res@.len() ==> group_present(vos@, #[trigger] res@[k].group_id@, vos@.len() as int),
        forall|k: int, h: int| 0 <= k < h < res@.len() ==> #[trigger] res@[k].group_id@ != #[trigger] res@[h].group_id@,
        forall|i: int| 0 <= i < vos@.len() && #[trigger] valid_row(vos@[i]) ==> exists|k: int|
            0 <= k < res@.len() && res@[k].group_id@ == row_group(vos@[i]),
        forall|k: int, h: int| 0 <= k < h < res@.len() ==> text_lt(#[trigger] res@[k].group_id@, #[trigger] res@[h].group_id@),
        graphs_of(vos@, res@),
{
    let unsorted = bucket_rows(vos);
    let buckets = sort_buckets(unsorted);
    proof {
        assert forall|k: int| 0 <= k < buckets@.len() implies #[trigger] lists_ok(buckets@[k], vos@, vos@.len() as int)
            && group_present(vos@, buckets@[k].group_id@, vos@.len() as int) by {
            assert(unsorted@.contains(buckets@[k]));
            let j = choose|j: int| 0 <= j < unsorted@.len() && unsorted@[j] == buckets@[k];
            assert(lists_ok(unsorted@[j], vos@, vos@.len() as int));
            assert(group_present(vos@, unsorted@[j].group_id@, vos@.len() as int));
        }
        assert forall|k: int| 0 <= k < buckets@.len() implies group_present(vos@, #[trigger] buckets@[k].group_id@, vos@.len() as int) by {
            assert(lists_ok(buckets@[k], vos@, vos@.len() as int));
        }
        assert forall|k: int, h: int| 0 <= k < h < buckets@.len() implies #[trigger] buckets@[k].group_id@ != #[trigger] buckets@[h].group_id@ by {
            assert(text_lt(buckets@[k].group_id@, buckets@[h].group_id@));
            lemma_lt_irreflexive(buckets@[k].group_id@, 0);
        }
        assert forall|i: int| 0 <= i < vos@.len() && #[trigger] valid_row(vos@[i]) implies exists|k: int|
            0 <= k < buckets@.len() && buckets@[k].group_id@ == row_group(vos@[i]) by {
            let j = choose|j: int| 0 <= j < unsorted@.len() && unsorted@[j].group_id@ == row_group(vos@[i]);
            assert(buckets@.contains(unsorted@[j]));
            let k = choose|k: int| 0 <= k < buckets@.len() && buckets@[k] == unsorted@[j];
        }
    }
    let mut graphs: Vec<LinkageGraph> = Vec::new();
    let mut k: usize = 0;
    while k < buckets.len()
        invariant
            k <= buckets@.len(),
            graphs@.len() == k,
            forall|k: int| 0 <= k < buckets@.len() ==> #[trigger] lists_ok(buckets@[k], vos@, vos@.len() as int),
            forall|q: int| 0 <= q < k ==> #[trigger] graphs@[q].group_id@ == buckets@[q].group_id@,
            forall|q: int| 0 <= q < k ==> #[trigger] graphs@[q].model() == linkage_graph(vos@, graphs@[q].group_id@),
        decreases buckets@.len() - k,
    {
        let gr = &buckets[k];
        assert(lists_ok(*gr, vos@, vos@.len() as int));
        let mut g = LinkageGraph {
            group_id: gr.group_id.clone(),
            relations: BTreeMap::new(),
            rel_refs: BTreeMap::new(),
            path_refs: BTreeMap::new(),
        };
        proof {
            assert(g.model().relations == Map::<i64, Seq<u64>>::empty());
            assert(g.model().rel_refs == Map::<u64, RelationModel>::empty());
            assert(g.model() == graph_upto(vos@, gr.group_id@, 0));
        }
        let mut r: u8 = 0;
        while r < 8
            invariant
                r <= 8,
                lists_ok(*gr, vos@, vos@.len() as int),
                g.group_id@ == gr.group_id@,
                g.model() == graph_upto(vos@, gr.group_id@, r as nat),
            decreases 8 - r,
        {
            let a = LinkAction::of_rank(r);
            let rows = &gr.lists[r as usize];
            assert(rows@ == rows_for(vos@, gr.group_id@, a, vos@.len() as int));
            let caches = accumulate_caches(a, rows);
            if a == LinkAction::TriggerAll || a == LinkAction::TriggerAny {
                let merged = group_caches_by_sources(&caches);
                add_caches_exec(&mut g, a, &merged);
            } else {
                add_caches_exec(&mut g, a, &caches);
            }
            r += 1;
        }
        graphs.push(g);
        k += 1;
    }
    proof {
        assert forall|i: int| 0 <= i < vos@.len() && #[trigger] valid_row(vos@[i]) implies exists|k: int|
            0 <= k < graphs@.len() && graphs@[k].group_id@ == row_group(vos@[i]) by {
            let k = choose|k: int| 0 <= k < buckets@.len() && buckets@[k].group_id@ == row_group(vos@[i]);
            assert(graphs@[k].group_id@ == buckets@[k].group_id@);
        }
        assert forall|k: int| 0 <= k < graphs@.len() implies group_present(vos@, #[trigger] graphs@[k].group_id@, vos@.len() as int) by {
            assert(graphs@[k].group_id@ == buckets@[k].group_id@);
        }
        assert forall|k: int, h: int| 0 <= k < h < graphs@.len() implies #[trigger] graphs@[k].group_id@ != #[trigger] graphs@[h].group_id@ by {
            assert(graphs@[k].group_id@ == buckets@[k].group_id@);
            assert(graphs@[h].group_id@ == buckets@[h].group_id@);
        }
        assert forall|k: int, h: int| 0 <= k < h < graphs@.len() implies text_lt(#[trigger] graphs@[k].group_id@, #[trigger] graphs@[h].group_id@) by {
            assert(graphs@[k].group_id@ == buckets@[k].group_id@);
            assert(graphs@[h].group_id@ == buckets@[h].group_id@);
        }
    }
    graphs
}

/// What `build_linkage_graph` gives for the rows: one graph per group id
/// of a valid row and no other, in strictly ascending group id, each the
/// `linkage_graph` of its group.
pub open spec fn graphs_of(vos: Seq<MarkerLinkVo>, res: Seq<LinkageGraph>) -> bool {
    &&& forall|k: int| 0 <= k < res.len() ==> #[trigger] res[k].model() == linkage_graph(vos, res[k].group_id@)
    &&& forall|k: int| 0 <= k < res.len() ==> group_present(vos, #[trigger] res[k].group_id@, vos.len() as int)
    &&& forall|i: int| 0 <= i < vos.len() && #[trigger] valid_row(vos[i]) ==> exists|k: int|
        0 <= k < res.len() && res[k].group_id@ == row_group(vos[i])
    &&& forall|k: int, h: int| 0 <= k < h < res.len() ==> text_lt(#[trigger] res[k].group_id@, #[trigger] res[h].group_id@)
}

spec fn texts_sorted(s: Seq<Seq<char>>) -> bool {
    forall|a: int, b: int| 0 <= a < b < s.len() ==> text_lt(#[trigger] s[a], #[trigger] s[b])
}

proof fn lemma_sorted_texts_unique(s1: Seq<Seq<char>>, s2: Seq<Seq<char>>)
    requires
        texts_sorted(s1),
        texts_sorted(s2),
        forall|x: Seq<char>| s1.contains(x) <==> s2.contains(x),
    ensures
        s1 == s2,
    decreases s1.len() + s2.len(),
{
    if s1.len() == 0 {
        if s2.len() > 0 {
            assert(s2.contains(s2[0]));
        }
        assert(s1 =~= s2);
    } else if s2.len() == 0 {
        assert(s1.contains(s1[0]));
    } else {
        let x1 = s1[0];
        let x2 = s2[0];
        assert(s1.contains(x1));
        assert(s2.contains(x2));
        let i = choose|i: int| 0 <= i < s1.len() && s1[i] == x2;
        let j = choose|j: int| 0 <= j < s2.len() && s2[j] == x1;
        if x1 != x2 {
            assert(i != 0);
            assert(j != 0);
            assert(text_lt(s1[0], s1[i]));
            assert(text_lt(s2[0], s2[j]));
            lemma_lt_asymmetric(x1, x2, 0);
        }
        let t1 = s1.drop_first();
        let t2 = s2.drop_first();
        assert forall|x: Seq<char>| t1.contains(x) <==> t2.contains(x) by {
            if t1.contains(x) {
                let k = choose|k: int| 0 <= k < t1.len() && t1[k] == x;
                assert(s1[k + 1] == x);
                assert(text_lt(s1[0], s1[k + 1]));
                lemma_lt_irreflexive(x, 0);
                assert(s2.contains(x));
                let m = choose|m: int| 0 <= m < s2.len() && s2[m] == x;
                assert(m != 0);
                assert(t2[m - 1] == x);
            }
            if t2.contains(x) {
                let k = choose|k: int| 0 <= k < t2.len() && t2[k] == x;
                assert(s2[k + 1] == x);
                assert(text_lt(s2[0], s2[k + 1]));
                lemma_lt_irreflexive(x, 0);
                assert(s1.contains(x));
                let m = choose|m: int| 0 <= m < s1.len() && s1[m] == x;
                assert(m != 0);
                assert(t1[m - 1] == x);
            }
        }
        assert(texts_sorted(t1)) by {
            assert forall|a: int, b: int| 0 <= a < b < t1.len() implies text_lt(#[trigger] t1[a], #[trigger] t1[b]) by {
                assert(text_lt(s1[a + 1], s1[b + 1]));
            }
        }
        assert(texts_sorted(t2)) by {
            assert forall|a: int, b: int| 0 <= a < b < t2.len() implies text_lt(#[trigger] t2[a], #[trigger] t2[b]) by {
                assert(text_lt(s2[a + 1], s2[b + 1]));
            }
        }
        lemma_sorted_texts_unique(t1, t2);
        assert(s1 =~= seq![x1] + t1);
        assert(s2 =~= seq![x2] + t2);
    }
}

/// The graph is determined by the rows: any two results that meet
/// `build_linkage_graph`'s contract for the same rows (two runs, in the
/// same process or not) have the same group ids in the same order and the
/// same graph for each, so they serialize alike.
pub proof fn linkage_graphs_are_determined(vos: Seq<MarkerLinkVo>, a: Seq<LinkageGraph>, b: Seq<LinkageGraph>)
    requires
        graphs_of(vos, a),
        graphs_of(vos, b),
    ensures
        a.len() == b.len(),
        forall|k: int| 0 <= k < a.len() ==> (#[trigger] a[k]).group_id@ == b[k].group_id@ && a[k].model() == b[k].model(),
{
    let ia = a.map_values(|g: LinkageGraph| g.group_id@);
    let ib = b.map_values(|g: LinkageGraph| g.group_id@);
    let n = vos.len() as int;
    assert forall|x: Seq<char>| ia.contains(x) <==> ib.contains(x) by {
        if ia.contains(x) {
            let k = choose|k: int| 0 <= k < ia.len() && ia[k] == x;
            assert(group_present(vos, a[k].group_id@, n));
            let i = choose|i: int| 0 <= i < n && #[trigger] valid_row(vos[i]) && row_group(vos[i]) == a[k].group_id@;
            let h = choose|h: int| 0 <= h < b.len() && b[h].group_id@ == row_group(vos[i]);
            assert(ib[h] == x);
        }
        if ib.contains(x) {
            let k = choose|k: int| 0 <= k < ib.len() && ib[k] == x;
            assert(group_present(vos, b[k].group_id@, n));
            let i = choose|i: int| 0 <= i < n && #[trigger] valid_row(vos[i]) && row_group(vos[i]) == b[k].group_id@;
            let h = choose|h: int| 0 <= h < a.len() && a[h].group_id@ == row_group(vos[i]);
            assert(ia[h] == x);
        }
    }
    assert(texts_sorted(ia)) by {
        assert forall|p: int, q: int| 0 <= p < q < ia.len() implies text_lt(#[trigger] ia[p], #[trigger] ia[q]) by {
            assert(text_lt(a[p].group_id@, a[q].group_id@));
        }
    }
    assert(texts_sorted(ib)) by {
        assert forall|p: int, q: int| 0 <= p < q < ib.len() implies text_lt(#[trigger] ib[p], #[trigger] ib[q]) by {
            assert(text_lt(b[p].group_id@, b[q].group_id@));
        }
    }
    lemma_sorted_texts_unique(ia, ib);
    assert forall|k: int| 0 <= k < a.len() implies (#[trigger] a[k]).group_id@ == b[k].group_id@ && a[k].model() == b[k].model() by {
        assert(ia[k] == ib[k]);
        assert(a[k].model() == linkage_graph(vos, a[k].group_id@));
        assert(b[k].model() == linkage_graph(vos, b[k].group_id@));
    }
}

/// The rows of each group id, for listing by group: one entry per distinct
/// group id (a row without one is listed under the empty id), in the order
/// in which the ids first appear, with the ascending indices of its rows.
pub fn group_link_vos(vos: &Vec<MarkerLinkVo>) -> (res: Vec<(String, Vec<usize>)>)
    ensures
        forall|g: int|
            #![trigger res@[g]]
            0 <= g < res@.len() ==> res@[g].1@ == indices_with_key(
                vos@.map_values(|vo: MarkerLinkVo| row_group(vo)),
                res@[g].0@,
                vos@.len() as int,
            ) && res@[g].1@.len() > 0,
        forall|g: int, h: int|
            #![trigger res@[g], res@[h]]
            0 <= g < h < res@.len() ==> res@[g].0@ != res@[h].0@,
        forall|i: int| #![trigger vos@[i]] 0 <= i < vos@.len() ==> has_group(res@, row_group(vos@[i])),
{
    let mut keys: Vec<String> = Vec::new();
    let mut i: usize = 0;
    while i < vos.len()
        invariant
            i <= vos@.len(),
            keys@.len() == i,
            forall|j: int| 0 <= j < i ==> #[trigger] keys@[j]@ == row_group(vos@[j]),
        decreases vos@.len() - i,
    {
        let k = match &vos[i].group_id {
            Some(g) => g.clone(),
            None => String::new(),
        };
        keys.push(k);
        i += 1;
    }
    assert(keys@.map_values(|s: String| s@) == vos@.map_values(|vo: MarkerLinkVo| row_group(vo)));
    let res = group_by_key(&keys);
    proof {
        assert forall|i: int| #![trigger vos@[i]] 0 <= i < vos@.len() implies has_group(res@, row_group(vos@[i])) by {
            assert(has_group(res@, keys@[i]@));
        }
    }
    res
}

} // verus!
