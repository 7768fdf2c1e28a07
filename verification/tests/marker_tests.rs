use functions::marker::{
    check_batch, check_marker_version, icon_of_item, linkage_group_of, links_of_marker, merge_extra, page_window,
    resolve_item_links, search_mode, sorted_distinct_ids, tag_of_icon, BatchTooLarge, ExtraUpdate, LinkageRow,
    SearchError, SearchMode, VersionConflict,
};

#[test]
fn search_conditions_are_exclusive() {
    assert_eq!(search_mode(&None, &None, &None), Ok(SearchMode::Nothing));
    assert_eq!(search_mode(&Some(vec![]), &None, &Some(vec![])), Ok(SearchMode::Nothing));
    assert_eq!(search_mode(&Some(vec![1]), &None, &None), Ok(SearchMode::ByArea));
    assert_eq!(search_mode(&None, &Some(vec![1]), &Some(vec![])), Ok(SearchMode::ByItem));
    assert_eq!(search_mode(&None, &None, &Some(vec![3])), Ok(SearchMode::ByType));
    assert_eq!(search_mode(&Some(vec![1]), &Some(vec![2]), &None), Err(SearchError::Conflict));
    assert_eq!(search_mode(&None, &Some(vec![2]), &Some(vec![2])), Err(SearchError::Conflict));
    assert_eq!(SearchError::Conflict.message(), "条件冲突");
}

#[test]
fn marker_ids_sorted_and_distinct() {
    assert_eq!(sorted_distinct_ids(&vec![5, 1, 5, 3, 1]), vec![1, 3, 5]);
    assert!(sorted_distinct_ids(&vec![]).is_empty());
}

#[test]
fn version_check() {
    assert_eq!(check_marker_version(None, None), Err(VersionConflict::Stale));
    assert_eq!(check_marker_version(Some(3), None), Ok(()));
    assert_eq!(check_marker_version(Some(3), Some(3)), Ok(()));
    assert_eq!(check_marker_version(Some(3), Some(2)), Err(VersionConflict::Stale));
    assert_eq!(VersionConflict::Stale.message(), "该点位已更新，请重新提交");
}

#[test]
fn batch_limit() {
    assert_eq!(check_batch(1000), Ok(()));
    assert_eq!(check_batch(1001), Err(BatchTooLarge { len: 1001 }));
}

#[test]
fn page_windows() {
    assert_eq!(page_window(None, None), (10, 0));
    assert_eq!(page_window(Some(20), Some(3)), (20, 40));
    assert_eq!(page_window(Some(500), Some(2)), (200, 200));
    assert_eq!(page_window(Some(10), Some(0)), (10, u64::MAX));
}

fn keys(v: &[(String, i64)]) -> Vec<(String, i64)> {
    let mut v = v.to_vec();
    v.sort();
    v
}

#[test]
fn extra_merge() {
    let old = Some(vec![("a".to_string(), 1i64), ("b".to_string(), 2)]);
    let changes = Some(vec![("b".to_string(), None), ("c".to_string(), Some(3)), ("a".to_string(), Some(9))]);
    match merge_extra(old, changes) {
        ExtraUpdate::Replace(out) => assert_eq!(keys(&out), vec![("a".to_string(), 9), ("c".to_string(), 3)]),
        ExtraUpdate::Keep => panic!("kept"),
    }
    assert!(matches!(merge_extra(Some(vec![("a".to_string(), 1i64)]), None), ExtraUpdate::Keep));
    match merge_extra::<i64>(None, Some(vec![("x".to_string(), None)])) {
        ExtraUpdate::Replace(out) => assert!(out.is_empty()),
        ExtraUpdate::Keep => panic!("kept"),
    }
}

#[test]
fn linkage_groups() {
    let rows = vec![
        LinkageRow { from_id: 1, to_id: 2, group_id: "g1".into() },
        LinkageRow { from_id: 2, to_id: 3, group_id: "g2".into() },
    ];
    assert_eq!(linkage_group_of(&rows, 2), Some("g1".to_string()));
    assert_eq!(linkage_group_of(&rows, 3), Some("g2".to_string()));
    assert_eq!(linkage_group_of(&rows, 4), None);
}

#[test]
fn item_links_resolve() {
    let item_icons = vec![(10, 100), (11, 101), (10, 102)];
    let icon_tags = vec![(102, "first".to_string()), (102, "second".to_string())];
    assert_eq!(icon_of_item(&item_icons, 10), 102);
    assert_eq!(icon_of_item(&item_icons, 12), 0);
    assert_eq!(tag_of_icon(&icon_tags, 102), "first");
    assert_eq!(tag_of_icon(&icon_tags, 101), "");
    let links = vec![(1, 10, 2), (2, 11, 1), (1, 12, 5)];
    let r = resolve_item_links(&links, &item_icons, &icon_tags);
    assert_eq!(r.len(), 3);
    assert_eq!((r[0].marker_id, r[0].item_id, r[0].count, r[0].icon_id), (1, 10, 2, 102));
    assert_eq!(r[0].icon_tag, "first");
    assert_eq!((r[2].icon_id, r[2].icon_tag.as_str()), (0, ""));
    assert_eq!(links_of_marker(&r, 1), vec![0, 2]);
    assert!(links_of_marker(&r, 9).is_empty());
}
