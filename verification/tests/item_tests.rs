use functions::item::{
    delete_item_verdict, first_item_per_name, icon_tag_to_look_up, item_numbers, marker_count_of, plan_join_type,
    resolve_icon_id, special_flag_filter, type_ids_of, update_targets, ItemError, ItemNumbers, SpecialFlagFilter,
};
use functions::item_type::{
    check_move, check_own_parent, leaf_after_leaving, moved_from_parents, new_type_is_final, new_type_sort_index,
    refreshed_final, subtree_ids, type_list_query, TypeError, TypeListQuery, TypeNode,
};

#[test]
fn type_and_count_maps() {
    let links = vec![(1, 10), (2, 20), (1, 11)];
    assert_eq!(type_ids_of(&links, 1), vec![10, 11]);
    assert!(type_ids_of(&links, 3).is_empty());
    assert_eq!(marker_count_of(&vec![1, 2, 1, 1], 1), Some(3));
    assert_eq!(marker_count_of(&vec![1, 2], 5), None);
}

#[test]
fn special_flags() {
    assert_eq!(special_flag_filter(0), SpecialFlagFilter::NoneSet);
    assert_eq!(special_flag_filter(6), SpecialFlagFilter::AnyOf(6));
    assert_eq!(special_flag_filter(i64::MAX), SpecialFlagFilter::AnyOf(i32::MAX));
}

#[test]
fn update_target_rules() {
    assert_eq!(update_targets(false, vec![]), Err(ItemError::NotFound));
    assert_eq!(update_targets(true, vec![]), Ok(vec![]));
    assert_eq!(update_targets(false, vec![4]), Ok(vec![4]));
    assert_eq!(ItemError::NotFound.message(), "Item not found");
}

#[test]
fn item_number_fields() {
    assert_eq!(
        item_numbers(Some(i64::MAX), None, Some(-5), None),
        ItemNumbers { default_count: Some(i32::MAX), default_refresh_time: 0, sort_index: Some(-5), special_flag: None }
    );
}

#[test]
fn join_type_plan() {
    assert_eq!(plan_join_type(false, &vec![1], &vec![1], &vec![]), Err(ItemError::BadType));
    assert_eq!(plan_join_type(true, &vec![1, 2], &vec![1], &vec![]), Err(ItemError::BadItem));
    assert_eq!(plan_join_type(true, &vec![1, 2, 1, 3], &vec![1, 2, 3], &vec![2]), Ok(vec![1, 3]));
    assert_eq!(ItemError::BadItem.message(), "物品ID存在错误");
}

#[test]
fn delete_rules() {
    assert_eq!(delete_item_verdict(false, true), Ok(false));
    assert_eq!(delete_item_verdict(true, true), Err(ItemError::CommonItem));
    assert_eq!(delete_item_verdict(true, false), Ok(true));
}

#[test]
fn icon_resolution() {
    assert!(!icon_tag_to_look_up(5, &Some("x".into())));
    assert!(!icon_tag_to_look_up(0, &Some(String::new())));
    assert!(icon_tag_to_look_up(0, &Some("x".into())));
    assert_eq!(resolve_icon_id(5, Some(9)), 5);
    assert_eq!(resolve_icon_id(0, Some(9)), 9);
    assert_eq!(resolve_icon_id(0, None), 0);
}

#[test]
fn shared_items_by_name() {
    let cands = vec![(1, "b".to_string()), (2, "a".to_string()), (3, "b".to_string()), (4, "c".to_string())];
    let out = first_item_per_name(&cands, &vec!["c".to_string()]);
    assert_eq!(out, vec![("a".to_string(), 2), ("b".to_string(), 1)]);
}

fn node(id: i64, parent_id: i64) -> TypeNode {
    TypeNode { id, parent_id }
}

#[test]
fn subtree_collects_descendants() {
    let types = vec![node(1, -1), node(2, 1), node(3, 2), node(4, -1), node(5, 1), node(6, 6)];
    let mut s = subtree_ids(&types, 1);
    assert_eq!(s[0], 1);
    s.sort();
    assert_eq!(s, vec![1, 2, 3, 5]);
    assert_eq!(subtree_ids(&types, 4), vec![4]);
    assert_eq!(subtree_ids(&types, 6), vec![6]);
}

#[test]
fn item_type_decisions() {
    assert_eq!(check_own_parent(3, 3), Err(TypeError::OwnParent));
    assert_eq!(check_own_parent(3, 1), Ok(()));
    assert_eq!(TypeError::OwnParent.message(), "物品类型ID不允许与父ID相同，会造成自身父子");
    assert_eq!(refreshed_final(0, Some(true), 0), None);
    assert_eq!(refreshed_final(5, Some(true), 2), Some(false));
    assert_eq!(refreshed_final(5, Some(false), 0), Some(true));
    assert_eq!(refreshed_final(5, Some(true), 0), None);
    assert!(leaf_after_leaving(true, 1));
    assert!(!leaf_after_leaving(false, 1));
    assert!(new_type_is_final(false, 3));
    assert!(!new_type_is_final(false, -1));
    assert_eq!(check_move(2, &vec![1, 2], true), Err(TypeError::OwnParent));
    assert_eq!(check_move(9, &vec![1, 2], false), Err(TypeError::TargetNotFound(9)));
    assert_eq!(moved_from_parents(&vec![node(1, 9), node(2, 4), node(3, 5)], 9), vec![4, 5]);
    assert_eq!(new_type_sort_index(None), 0);
    assert_eq!(new_type_sort_index(Some(i64::MIN)), i32::MIN);
}

#[test]
fn item_type_list_queries() {
    assert!(matches!(type_list_query(None, false), TypeListQuery::EmptyPage));
    assert!(matches!(type_list_query(Some(vec![]), true), TypeListQuery::TopLevel));
    assert!(matches!(type_list_query(Some(vec![-1, 4]), true), TypeListQuery::TopLevel));
    assert!(matches!(type_list_query(Some(vec![4]), true), TypeListQuery::ChildrenOf(v) if v == vec![4]));
    assert!(matches!(type_list_query(Some(vec![-1]), false), TypeListQuery::Every));
    assert!(matches!(type_list_query(Some(vec![4, 5]), false), TypeListQuery::Only(v) if v == vec![4, 5]));
}
