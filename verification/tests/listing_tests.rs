use functions::hierarchy::{
    area_parent_filter, area_visible, check_parent, icon_type_parents, orphaned_markers, parent_leaf_after_delete,
    recalc_parent_leaf, tag_type_parents, OwnParent, ParentFilter, TreeKind,
};
use functions::listing::{
    action_filter, check_icon_types, creator_filter, device_sort, history_page, history_sorts, history_window,
    icon_id_filter, icon_page, log_sort, log_sorts, parse_creator_ids, ActionFilter, BoundError, CreatorFilter,
    DeviceColumn, DeviceSort, HistorySort, LogColumn,
};
use functions::tag::{check_tag_types, create_by_name_needed, links_follow_rename, tag_doc_types, TagError};

#[test]
fn creator_ids_from_text() {
    assert_eq!(parse_creator_ids("1, 2,x, 3 ,"), vec![1, 2, 3]);
    assert!(parse_creator_ids("").is_empty());
    assert!(matches!(creator_filter(vec![]), CreatorFilter::Any));
    assert!(matches!(creator_filter(vec![4]), CreatorFilter::Is(4)));
    assert!(matches!(creator_filter(vec![4, 5]), CreatorFilter::AnyOf(v) if v == vec![4, 5]));
}

#[test]
fn history_bounds_and_pages() {
    assert_eq!(history_window(Some(1), None), Ok((Some(1_000_000), None)));
    assert_eq!(history_window(Some(i64::MAX), None), Err(BoundError::InvalidStart));
    assert_eq!(history_window(None, Some(i64::MIN)), Err(BoundError::InvalidEnd));
    assert_eq!(BoundError::InvalidEnd.message(), "Invalid end timestamp");
    assert_eq!(history_sorts(None), vec![HistorySort::UpdateTimeDesc]);
    assert_eq!(history_sorts(Some(vec![])), vec![]);
    assert_eq!(history_page(Some(500), Some(2)), Some((500, 500)));
    assert_eq!(history_page(None, Some(2)), None);
    assert_eq!(icon_page(Some(500), Some(2)), Some((200, 200)));
}

#[test]
fn icon_filters() {
    assert_eq!(icon_id_filter(Some(vec![1]), Some(vec![2])), Some(vec![1]));
    assert_eq!(icon_id_filter(None, Some(vec![2])), Some(vec![2]));
    assert_eq!(icon_id_filter(Some(vec![]), Some(vec![2])), None);
    assert!(check_icon_types(&vec![3, 4], &vec![4, 3]).is_ok());
    assert!(check_icon_types(&vec![5, 5], &vec![5]).is_ok());
    assert!(check_icon_types(&vec![3, 9], &vec![3]).is_err());
    assert!(check_icon_types(&vec![], &vec![]).is_ok());
}

#[test]
fn log_and_device_orders() {
    assert_eq!(action_filter(None), ActionFilter::Any);
    assert_eq!(action_filter(Some(0)), ActionFilter::Login);
    assert_eq!(action_filter(Some(3)), ActionFilter::Unknown(3));
    assert_eq!(log_sort("ipv4-"), Some((LogColumn::Ipv4, true)));
    assert_eq!(log_sort("bogus"), None);
    assert_eq!(
        log_sorts(&vec!["id+".to_string(), "x".to_string(), "updateTime-".to_string()]),
        vec![(LogColumn::Id, false), (LogColumn::UpdateTime, true)]
    );
    assert_eq!(device_sort(DeviceSort::LastLoginTimeReverse), (DeviceColumn::LastLoginTime, true));
}

#[test]
fn hierarchy_rules() {
    assert_eq!(check_parent(TreeKind::TagType, 2, 2), Err(OwnParent { kind: TreeKind::TagType }));
    assert_eq!(OwnParent { kind: TreeKind::IconType }.message(), "图标类型ID不允许与父ID相同，会造成自身父子");
    assert_eq!(recalc_parent_leaf(0, true, 1), None);
    assert_eq!(recalc_parent_leaf(3, true, 1), Some(true));
    assert_eq!(recalc_parent_leaf(3, false, 1), Some(false));
    assert!(matches!(tag_type_parents(None), ParentFilter::TopLevel));
    assert!(matches!(tag_type_parents(Some(vec![-1, 2])), ParentFilter::TopLevel));
    assert!(matches!(tag_type_parents(Some(vec![2])), ParentFilter::ChildrenOf(v) if v == vec![2]));
    assert!(matches!(icon_type_parents(Some(vec![-1, 0])), ParentFilter::TopLevel));
    assert!(matches!(icon_type_parents(Some(vec![-1, 5, 6])), ParentFilter::ChildrenOf(v) if v == vec![5, 6]));
}

#[test]
fn area_rules() {
    assert_eq!(area_parent_filter(Some(0)), None);
    assert_eq!(area_parent_filter(Some(3)), Some(3));
    assert!(area_visible(true, 1, &vec![0, 1]).is_ok());
    assert!(area_visible(true, 2, &vec![0, 1]).is_err());
    assert!(area_visible(false, 0, &vec![0, 1]).is_err());
    assert_eq!(orphaned_markers(&vec![1, 2, 3, 2], &vec![2]), vec![1, 3]);
    assert_eq!(parent_leaf_after_delete(0, 0), None);
    assert_eq!(parent_leaf_after_delete(4, 0), Some(true));
}

#[test]
fn tag_rules() {
    assert_eq!(check_tag_types(&vec![1, 2], &vec![2]), Err(TagError::BadType));
    assert_eq!(check_tag_types(&vec![2], &vec![2]), Ok(()));
    assert!(create_by_name_needed(0));
    assert!(!create_by_name_needed(1));
    assert!(links_follow_rename("a", "b"));
    assert!(!links_follow_rename("a", "a"));
    assert_eq!(TagError::NothingToDelete.message(), "无删除的标签");
    let tags = vec!["x".to_string(), "y".to_string(), "x".to_string()];
    let links = vec![("x".to_string(), 1), ("y".to_string(), 2), ("x".to_string(), 3)];
    assert_eq!(tag_doc_types(&tags, &links), vec![vec![1, 3], vec![2], vec![]]);
}
