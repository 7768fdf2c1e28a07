use functions::tweak::{
    apply_text_tweak, dedup_item_entries, hidden_flag_of, parse_item_entries, plan_item_list, tweak_marker,
    ExtraSource, HiddenFlag, ItemEntry, ItemLinkOp, MarkerEdit, TweakConfig, TweakKind, TweakMeta, TweakProp,
    TweakValue,
};

fn meta(replace: Option<&str>, test: Option<&str>) -> TweakMeta {
    TweakMeta {
        replace: replace.map(str::to_string),
        test: test.map(str::to_string),
        value: None,
        has_map: false,
        item_list: None,
    }
}

fn apply(kind: TweakKind, m: &TweakMeta, origin: Option<&str>) -> Option<String> {
    apply_text_tweak(kind, m, &origin.map(str::to_string))
}

#[test]
fn replace_with_needle_replaces_every_occurrence() {
    assert_eq!(apply(TweakKind::Replace, &meta(Some("X"), Some("ab")), Some("abcab")), Some("XcX".into()));
    assert_eq!(apply(TweakKind::Replace, &meta(Some("new"), None), Some("old")), Some("new".into()));
    assert_eq!(apply(TweakKind::Replace, &meta(Some("new"), Some("")), Some("old")), Some("new".into()));
    assert_eq!(apply(TweakKind::Replace, &meta(Some("b"), Some("aa")), Some("aaa")), Some("ba".into()));
}

#[test]
fn update_edits_only_a_text_holding_its_needle() {
    assert_eq!(apply(TweakKind::Update, &meta(Some("y"), Some("x")), Some("axbx")), Some("ayby".into()));
    assert_eq!(apply(TweakKind::Update, &meta(Some("y"), Some("z")), Some("axbx")), None);
    assert_eq!(apply(TweakKind::Update, &meta(None, Some("x")), Some("axbx")), None);
    assert_eq!(apply(TweakKind::Update, &meta(Some("whole"), None), None), Some("whole".into()));
}

#[test]
fn regex_replace_is_literal() {
    assert_eq!(apply(TweakKind::ReplaceRegex, &meta(Some("-"), Some(".")), Some("a.b.c")), Some("a-b-c".into()));
    assert_eq!(apply(TweakKind::ReplaceRegex, &meta(Some("-"), None), Some("a.b")), None);
}

#[test]
fn prepend_append_remove_and_trim() {
    assert_eq!(apply(TweakKind::Prepend, &meta(Some("<"), None), Some("x")), Some("<x".into()));
    assert_eq!(apply(TweakKind::Append, &meta(Some(">"), None), None), Some(">".into()));
    assert_eq!(apply(TweakKind::RemoveLeft, &meta(None, Some("ab")), Some("ababc")), Some("abc".into()));
    assert_eq!(apply(TweakKind::RemoveRight, &meta(None, Some("c")), Some("abcc")), Some("abc".into()));
    assert_eq!(apply(TweakKind::RemoveRight, &meta(None, Some("z")), Some("abc")), Some("abc".into()));
    assert_eq!(apply(TweakKind::RemoveLeft, &meta(None, None), Some("abc")), None);
    assert_eq!(apply(TweakKind::TrimLeft, &meta(None, Some("ab")), Some("ababc")), Some("c".into()));
    assert_eq!(apply(TweakKind::TrimRight, &meta(None, Some("c")), Some("abcc")), Some("ab".into()));
    assert_eq!(apply(TweakKind::TrimLeft, &meta(None, None), Some(" \t\u{3000}x ")), Some("x ".into()));
    assert_eq!(apply(TweakKind::TrimRight, &meta(None, Some("")), Some(" x \n")), Some(" x".into()));
    assert_eq!(apply(TweakKind::Merge, &meta(Some("x"), None), Some("a")), None);
}

#[test]
fn text_value_stands_in_for_replace_and_test() {
    let mut m = meta(None, None);
    m.value = Some(TweakValue::Text("q".into()));
    assert_eq!(apply(TweakKind::Append, &m, Some("a")), Some("aq".into()));
    assert_eq!(apply(TweakKind::RemoveLeft, &m, Some("qa")), Some("a".into()));
}

#[test]
fn item_entries_are_parsed_and_clamped() {
    let list = vec![
        Some(ItemEntry::Number(Some(4))),
        Some(ItemEntry::Number(None)),
        None,
        Some(ItemEntry::Object { id: Some(Some(5)), item_id: Some(Some(6)), count: Some(3) }),
        Some(ItemEntry::Object { id: None, item_id: Some(Some(7)), count: Some(1 << 40) }),
        Some(ItemEntry::Object { id: Some(None), item_id: Some(Some(8)), count: None }),
        Some(ItemEntry::Object { id: None, item_id: None, count: Some(2) }),
        Some(ItemEntry::Other),
    ];
    assert_eq!(parse_item_entries(&list), vec![(4, 1), (5, 3), (7, i32::MAX)]);
}

#[test]
fn dedup_keeps_first_place_and_last_count() {
    assert_eq!(dedup_item_entries(&vec![(1, 1), (2, 2), (1, 5), (3, 1), (2, 9)]), vec![(1, 5), (2, 9), (3, 1)]);
    assert!(dedup_item_entries(&vec![]).is_empty());
}

#[test]
fn item_list_edits_plan_link_writes() {
    let existing = vec![10, 20, 10];
    let entries = vec![(10, 2), (30, 1), (10, 4)];
    assert_eq!(
        plan_item_list(TweakKind::Replace, &entries, &existing),
        vec![
            ItemLinkOp::Delete(1),
            ItemLinkOp::Delete(2),
            ItemLinkOp::Insert(10, 2),
            ItemLinkOp::Insert(30, 1),
            ItemLinkOp::Insert(10, 4)
        ]
    );
    assert_eq!(plan_item_list(TweakKind::RemoveLeft, &entries, &existing), vec![ItemLinkOp::Delete(2)]);
    assert_eq!(plan_item_list(TweakKind::Append, &entries, &existing), vec![ItemLinkOp::Insert(30, 1)]);
    assert_eq!(plan_item_list(TweakKind::TrimRight, &entries, &existing), vec![ItemLinkOp::Delete(1)]);
    assert_eq!(plan_item_list(TweakKind::InsertIfAbsent, &entries, &existing), vec![ItemLinkOp::Insert(30, 1)]);
    assert_eq!(
        plan_item_list(TweakKind::Merge, &entries, &existing),
        vec![ItemLinkOp::SetCount(2, 2), ItemLinkOp::Insert(30, 1), ItemLinkOp::SetCount(2, 4)]
    );
    assert!(plan_item_list(TweakKind::Replace, &vec![], &existing).is_empty());
    assert!(plan_item_list(TweakKind::ReplaceRegex, &entries, &existing).is_empty());
}

fn edit(prop: TweakProp, kind: TweakKind, m: TweakMeta) -> TweakConfig {
    TweakConfig { kind, prop, meta: m }
}

#[test]
fn marker_edits_chain_per_field() {
    let fields = MarkerEdit {
        content: Some("hello".into()),
        marker_title: None,
        position: "1,1".into(),
        video_path: None,
        refresh_time: 0,
        hidden_flag: HiddenFlag::Visible,
    };
    let mut flag = meta(None, None);
    flag.value = Some(TweakValue::Integer(2));
    let mut refresh = meta(None, None);
    refresh.value = Some(TweakValue::Integer(3600));
    let mut extra = meta(None, None);
    extra.value = Some(TweakValue::AnyMap);
    let mut pos = meta(None, None);
    pos.value = Some(TweakValue::Text("5,6".into()));
    let tweaks = vec![
        edit(TweakProp::Content, TweakKind::Append, meta(Some(" world"), None)),
        edit(TweakProp::Title, TweakKind::Prepend, meta(Some("T"), None)),
        edit(TweakProp::Content, TweakKind::Replace, meta(Some("W"), Some("world"))),
        edit(TweakProp::HiddenFlag, TweakKind::Update, flag),
        edit(TweakProp::RefreshTime, TweakKind::Update, refresh),
        edit(TweakProp::ItemList, TweakKind::Append, meta(None, None)),
        edit(TweakProp::Extra, TweakKind::Update, extra),
        edit(TweakProp::Position, TweakKind::Update, pos),
        edit(TweakProp::VideoPath, TweakKind::Update, meta(Some("v.mp4"), None)),
    ];
    let out = tweak_marker(&tweaks, fields);
    assert_eq!(out.fields.content.as_deref(), Some("hello W"));
    assert_eq!(out.fields.marker_title.as_deref(), Some("T"));
    assert_eq!(out.fields.hidden_flag, HiddenFlag::Beta);
    assert_eq!(out.fields.refresh_time, 3600);
    assert_eq!(out.fields.position, "5,6");
    assert_eq!(out.fields.video_path.as_deref(), Some("v.mp4"));
    assert_eq!(out.extra, Some(ExtraSource::FromValue(6)));
    assert_eq!(out.item_list_edits, vec![5]);
}

#[test]
fn hidden_flag_from_integer() {
    assert_eq!(hidden_flag_of(0), HiddenFlag::Visible);
    assert_eq!(hidden_flag_of(1), HiddenFlag::Hidden);
    assert_eq!(hidden_flag_of(3), HiddenFlag::Suprise);
    assert_eq!(hidden_flag_of(4), HiddenFlag::Visible);
    assert_eq!(hidden_flag_of(1 << 40), HiddenFlag::Visible);
}
