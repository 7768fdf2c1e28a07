use functions::snapshot::{assemble_snapshots, encode_diff_snapshot_list, encode_snapshot, DiffSnapshot};

fn snap(version: u64, id: u64, linkage: Option<&str>) -> DiffSnapshot {
    DiffSnapshot { version, id, linkage_id: linkage.map(str::to_string) }
}

#[test]
fn snapshot_wire_matches_hand_computed_bytes() {
    assert_eq!(
        encode_snapshot(&snap(5, 123, Some("abc"))),
        vec![0x08, 0x05, 0x10, 0x7b, 0x7a, 0x03, b'a', b'b', b'c']
    );
}

#[test]
fn snapshot_omits_blank_linkage_id() {
    assert_eq!(encode_snapshot(&snap(5, 123, None)), vec![0x08, 0x05, 0x10, 0x7b]);
    assert_eq!(encode_snapshot(&snap(5, 123, Some(""))), vec![0x08, 0x05, 0x10, 0x7b]);
}

#[test]
fn snapshot_skips_default_scalars_and_encodes_multibyte_varints() {
    assert_eq!(encode_snapshot(&snap(0, 300, None)), vec![0x10, 0xac, 0x02]);
}

#[test]
fn list_wraps_each_snapshot_in_field1() {
    assert_eq!(
        encode_diff_snapshot_list(&[snap(5, 123, Some("abc"))]),
        vec![0x0a, 0x09, 0x08, 0x05, 0x10, 0x7b, 0x7a, 0x03, b'a', b'b', b'c']
    );
    assert!(encode_diff_snapshot_list(&[]).is_empty());
}

#[test]
fn assemble_snapshots_joins_linkage_and_keeps_first_group() {
    let markers = vec![(3, 1), (7, 2), (1, 3)];
    let pairs = vec![
        (1, 3, "g1".to_string()),
        (1, 3, "g2".to_string()),
        (99, 1, "g3".to_string()),
        (98, 97, "g4".to_string()),
    ];
    let snaps = assemble_snapshots(markers, &pairs);
    let ids: Vec<u64> = snaps.iter().map(|s| s.id).collect();
    assert_eq!(ids, vec![1, 2, 3]);
    assert_eq!(snaps[0].linkage_id.as_deref(), Some("g1"));
    assert_eq!(snaps[1].linkage_id, None);
    assert_eq!(snaps[2].linkage_id.as_deref(), Some("g1"));
}

#[test]
fn assemble_snapshots_empty_inputs_yield_empty_list() {
    assert!(assemble_snapshots(Vec::new(), &[]).is_empty());
    let snaps = assemble_snapshots(vec![(1, 5)], &[(9, 8, "g".to_string())]);
    assert_eq!(snaps.len(), 1);
    assert_eq!(snaps[0].linkage_id, None);
}

#[test]
fn snapshot_versions_and_ids_carry_over() {
    let snaps = assemble_snapshots(vec![(4, 10), (0, 11)], &[(11, 10, "grp".to_string())]);
    assert_eq!(snaps[0].version, 4);
    assert_eq!(snaps[0].id, 10);
    assert_eq!(snaps[0].linkage_id.as_deref(), Some("grp"));
    assert_eq!(snaps[1].version, 0);
    assert_eq!(snaps[1].linkage_id.as_deref(), Some("grp"));
}

#[test]
fn snapshot_encodes_multibyte_linkage_id_by_utf8_length() {
    let bytes = encode_snapshot(&snap(1, 1, Some("组")));
    assert_eq!(bytes, vec![0x08, 0x01, 0x10, 0x01, 0x7a, 0x03, 0xe7, 0xbb, 0x84]);
}

#[test]
fn diff_snapshot_key_sorts_flags() {
    assert_eq!(functions::snapshot::diff_snapshot_key(&vec![3, 0, -1, 3]), "marker:diff_snapshot:-1,0,3,3");
    assert_eq!(functions::snapshot::diff_snapshot_key(&vec![]), "marker:diff_snapshot:");
    assert_eq!(functions::binary_doc::md5_hex(&b"".to_vec()), "d41d8cd98f00b204e9800998ecf8427e");
}
