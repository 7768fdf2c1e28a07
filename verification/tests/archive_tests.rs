use functions::archive::{
    first_row_per_slot, parse_entries, restore_entry, save_entry, slot_index_of, ArchiveEntry, ArchiveError,
    RawData, RawEntry, RawTime,
};

fn entry(time: i64, archive: &str) -> ArchiveEntry {
    ArchiveEntry { time, archive: archive.to_string() }
}

fn archives(h: &[ArchiveEntry]) -> Vec<String> {
    h.iter().map(|e| e.archive.clone()).collect()
}

#[test]
fn save_puts_newest_first() {
    let h = save_entry(vec![entry(1, "a")], entry(2, "b")).unwrap();
    assert_eq!(archives(&h), vec!["b", "a"]);
    assert_eq!(h[0].time, 2);
}

#[test]
fn save_of_same_archive_is_skipped() {
    assert!(save_entry(vec![entry(1, "a")], entry(2, "a")).is_none());
}

#[test]
fn save_keeps_five_entries() {
    let h: Vec<ArchiveEntry> = (0..5).map(|i| entry(i, &format!("x{}", i))).collect();
    let h2 = save_entry(h, entry(9, "new")).unwrap();
    assert_eq!(h2.len(), 5);
    assert_eq!(archives(&h2), vec!["new", "x0", "x1", "x2", "x3"]);
}

#[test]
fn restore_returns_newest_and_rest() {
    let (e, rest) = restore_entry(vec![entry(3, "c"), entry(2, "b")]).unwrap();
    assert_eq!(e.archive, "c");
    assert_eq!(archives(&rest), vec!["b"]);
}

#[test]
fn restore_of_empty_history_fails() {
    let r = restore_entry(vec![]);
    assert!(matches!(r, Err(ArchiveError::Empty)));
    assert_eq!(ArchiveError::Empty.message(), "存档为空，无历史存档");
}

#[test]
fn restore_undoes_save_on_values() {
    let before = vec![entry(1, "a"), entry(0, "z")];
    let saved = save_entry(before, entry(5, "b")).unwrap();
    let (e, rest) = restore_entry(saved).unwrap();
    assert_eq!(e.archive, "b");
    assert_eq!(archives(&rest), vec!["a", "z"]);
}

#[test]
fn slot_index_range() {
    assert_eq!(slot_index_of(3), Ok(3));
    assert_eq!(slot_index_of(-2147483648), Ok(i32::MIN));
    assert_eq!(slot_index_of(2147483648), Err(ArchiveError::SlotOutOfRange));
    assert_eq!(ArchiveError::SlotOutOfRange.message(), "slot_index out of range");
}

#[test]
fn parse_entries_reads_array_text_and_other() {
    let d = RawData::Array(vec![
        RawEntry { time: Some(RawTime::Number(Some(7))), archive: Some("a".into()) },
        RawEntry { time: Some(RawTime::Text(" 12 ".into())), archive: None },
        RawEntry { time: Some(RawTime::Text("x".into())), archive: Some("c".into()) },
        RawEntry { time: None, archive: Some("d".into()) },
    ]);
    let es = parse_entries(&d);
    assert_eq!(es.iter().map(|e| e.time).collect::<Vec<_>>(), vec![7, 12, 0, 0]);
    assert_eq!(archives(&es), vec!["a", "", "c", "d"]);
    let t = parse_entries(&RawData::Text("raw".into()));
    assert_eq!(t.len(), 1);
    assert_eq!(t[0].time, 0);
    assert_eq!(t[0].archive, "raw");
    assert!(parse_entries(&RawData::Other).is_empty());
}

#[test]
fn first_row_per_slot_picks_each_slot_once() {
    assert_eq!(first_row_per_slot(&vec![1, 1, 2, 2, 2, 5]), vec![0, 2, 5]);
    assert!(first_row_per_slot(&vec![]).is_empty());
}
