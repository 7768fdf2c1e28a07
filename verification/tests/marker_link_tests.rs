use functions::link_plan::{
    begin_link, check_link_payload, collect_affected, normalize_direction, plan_link, ExistingLink, LinkError,
    LinkRequest,
};
use functions::linkage::{
    build_linkage_graph, group_link_vos, pair_key, path_marker_ids, reverse_linkage_vos, LinkAction, MarkerLinkVo,
    PathEdge,
};

fn vo(group: &str, id: i64, from: i64, to: i64, action: LinkAction) -> MarkerLinkVo {
    MarkerLinkVo {
        version: 0,
        id,
        group_id: Some(group.into()),
        from_id: from,
        to_id: to,
        link_action: Some(action),
        link_reverse: Some(false),
        path: None,
        creator_id: None,
        updater_id: None,
    }
}

#[test]
fn reverse_swaps_and_resets_flag() {
    let mut v = vo("g", 1, 5, 9, LinkAction::Trigger);
    v.link_reverse = Some(true);
    let mut vs = vec![v];
    reverse_linkage_vos(&mut vs);
    assert_eq!((vs[0].from_id, vs[0].to_id), (9, 5));
    assert_eq!(vs[0].link_reverse, Some(false));
}

#[test]
fn pair_key_is_order_insensitive() {
    assert_eq!(pair_key(9, 5), pair_key(5, 9));
    assert_eq!(pair_key(9, 5), (5, 9));
}

#[test]
fn graph_trigger_is_one_relation_per_link() {
    let vos = vec![vo("g", 1, 100, 200, LinkAction::Trigger), vo("g", 2, 100, 300, LinkAction::Trigger)];
    let graphs = build_linkage_graph(&vos);
    let g = graphs.iter().find(|g| g.group_id == "g").unwrap();
    assert_eq!(g.relations.get(&100).unwrap().len(), 2);
    assert_eq!(g.relations.get(&200).unwrap().len(), 1);
    assert_eq!(g.rel_refs.len(), 2);
    for rel in g.rel_refs.values() {
        assert!(!rel.triggers.is_empty());
        assert!(!rel.targets.is_empty());
        assert!(rel.group.is_empty());
    }
}

#[test]
fn graph_group_family_shares_one_relation_per_pair_group() {
    let vos = vec![vo("g", 1, 100, 200, LinkAction::Related), vo("g", 2, 200, 300, LinkAction::Related)];
    let graphs = build_linkage_graph(&vos);
    let g = graphs.iter().find(|g| g.group_id == "g").unwrap();
    assert_eq!(g.rel_refs.len(), 1);
    let rel = g.rel_refs.values().next().unwrap();
    assert_eq!(rel.kind.name(), "RELATED");
    assert_eq!(rel.group.len(), 2);
}

#[test]
fn graph_trigger_all_merges_by_shared_target_then_from_set() {
    let vos = vec![
        vo("g", 1, 100, 300, LinkAction::TriggerAll),
        vo("g", 2, 100, 301, LinkAction::TriggerAll),
        vo("g", 3, 200, 302, LinkAction::TriggerAll),
    ];
    let graphs = build_linkage_graph(&vos);
    let g = graphs.iter().find(|g| g.group_id == "g").unwrap();
    assert_eq!(g.rel_refs.len(), 2);
    let merged: Vec<usize> = g.rel_refs.values().map(|r| r.triggers.len()).collect();
    assert!(merged.contains(&2), "merged cache holds 2 triggers: {merged:?}");
}

#[test]
fn graph_skips_invalid_rows_and_keeps_groups_apart() {
    let mut bad = vo("g", 9, 0, 5, LinkAction::Trigger);
    bad.link_action = Some(LinkAction::Trigger);
    let mut no_action = vo("h", 10, 1, 2, LinkAction::Trigger);
    no_action.link_action = None;
    let vos = vec![bad, no_action, vo("", 11, 1, 2, LinkAction::Trigger), vo("k", 12, 1, 2, LinkAction::Directed)];
    let graphs = build_linkage_graph(&vos);
    assert_eq!(graphs.len(), 1);
    assert_eq!(graphs[0].group_id, "k");
    assert_eq!(graphs[0].path_refs.get(&12), Some(&3));
    let rel = graphs[0].rel_refs.get(&1).unwrap();
    assert_eq!(rel.group, vec![(1, 2, 12)]);
}

#[test]
fn path_marker_ids_collects_each_positive_end_once() {
    let mut a = vo("g", 1, 1, 2, LinkAction::PathUniDir);
    a.path = Some(vec![
        Some(PathEdge { id1: Some(5), id2: Some(6) }),
        None,
        Some(PathEdge { id1: Some(0), id2: Some(5) }),
    ]);
    let mut b = vo("g", 2, 1, 2, LinkAction::PathUniDir);
    b.path = Some(vec![Some(PathEdge { id1: Some(7), id2: None })]);
    let mut ids = path_marker_ids(&vec![a, b]);
    ids.sort();
    assert_eq!(ids, vec![5, 6, 7]);
}

#[test]
fn link_list_groups_rows_by_group_id() {
    let mut none = vo("", 3, 1, 2, LinkAction::Trigger);
    none.group_id = None;
    let groups = group_link_vos(&vec![vo("a", 1, 1, 2, LinkAction::Trigger), none, vo("a", 2, 3, 4, LinkAction::Trigger)]);
    assert_eq!(groups, vec![("a".to_string(), vec![0, 2]), (String::new(), vec![1])]);
}

fn req(from: i64, to: i64) -> LinkRequest {
    LinkRequest { from_id: from, to_id: to, link_action: None }
}

#[test]
fn link_request_checks() {
    assert_eq!(check_link_payload(&vec![]), Err(LinkError::Empty));
    assert_eq!(check_link_payload(&vec![req(1, 2), req(0, 3)]), Err(LinkError::InvalidNode));
    assert_eq!(check_link_payload(&vec![req(4, 4), req(0, 3)]), Err(LinkError::SelfLink));
    assert_eq!(check_link_payload(&vec![req(1, 2)]), Ok(()));
    assert_eq!(LinkError::SelfLink.message(), "不能将点位关联到自身");
    assert!(matches!(begin_link(&vec![]), Err(LinkError::Empty)));
}

#[test]
fn begin_link_draws_a_hex_group_id() {
    let s = begin_link(&vec![req(9, 3), req(3, 4)]).ok().expect("valid request");
    assert_eq!(s.group_id.len(), 32);
    assert!(s.group_id.chars().all(|c| c.is_ascii_hexdigit() && !c.is_ascii_uppercase()));
    assert_eq!(s.endpoints, vec![3, 4, 9]);
}

#[test]
fn storing_normalizes_direction() {
    assert_eq!(normalize_direction(9, 5), (5, 9, true));
    assert_eq!(normalize_direction(5, 9), (5, 9, false));
}

fn row(id: i64, group: &str, from: i64, to: i64) -> ExistingLink {
    ExistingLink { id, group_id: group.into(), from_id: from, to_id: to }
}

#[test]
fn link_plan_revives_resubmitted_pairs_and_deletes_the_rest() {
    let related = vec![row(1, "old1", 1, 2), row(2, "old2", 2, 3), row(3, "", 3, 4)];
    let mut p = req(2, 1);
    p.link_action = Some(LinkAction::Related);
    let payload = vec![p, req(5, 6), req(6, 5)];
    let plan = plan_link(&payload, &related, "new".to_string());
    assert_eq!(plan.pending.len(), 4);
    assert_eq!(plan.pending[0].source, Some(0));
    assert_eq!((plan.pending[0].from_id, plan.pending[0].to_id, plan.pending[0].link_reverse), (1, 2, true));
    assert_eq!(plan.pending[0].link_action, LinkAction::Related);
    assert_eq!(plan.pending[1].source, None);
    assert_eq!(plan.pending[2].source, None);
    assert_eq!(plan.pending[3].existing, None);
    assert_eq!(plan.pending[3].source, Some(2));
    assert_eq!((plan.pending[3].from_id, plan.pending[3].to_id, plan.pending[3].link_reverse), (5, 6, true));
    assert_eq!(plan.pending[3].link_action, LinkAction::Trigger);
    assert_eq!(plan.affected_groups, vec!["old1".to_string(), "old2".to_string(), "new".to_string()]);
    assert_eq!(plan.affected_markers, vec![1, 2, 3, 4, 5, 6]);
}

#[test]
fn deleted_links_report_groups_and_markers_once() {
    let items = vec![row(1, "a", 1, 2), row(2, "a", 2, 0), row(3, "", 5, 1)];
    let (groups, markers) = collect_affected(&items);
    assert_eq!(groups, vec!["a".to_string()]);
    assert_eq!(markers, vec![1, 2, 5]);
}

#[test]
fn graphs_come_in_group_id_order() {
    let vos = vec![
        vo("gb", 1, 100, 200, LinkAction::Trigger),
        vo("ga", 2, 100, 300, LinkAction::Related),
        vo("gc", 3, 5, 6, LinkAction::Trigger),
        vo("ga", 4, 7, 8, LinkAction::Trigger),
    ];
    let graphs = build_linkage_graph(&vos);
    let ids: Vec<&str> = graphs.iter().map(|g| g.group_id.as_str()).collect();
    assert_eq!(ids, vec!["ga", "gb", "gc"]);
}
