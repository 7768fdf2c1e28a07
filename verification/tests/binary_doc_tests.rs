use functions::binary_doc::{
    entry_flag, marker_page_key, page_bytes, plan_item_pages, plan_marker_pages, proxied_icon_url,
    result_redis_key, visible_md5s, BinaryMd5Vo, PageError, RedisResultEntry, ResultEntry,
};

fn sample_entry() -> ResultEntry {
    ResultEntry {
        key: "marker:0:0".into(),
        vo: BinaryMd5Vo { md5: "abc123".into(), time: 42 },
        bytes: vec![0xde, 0xad, 0xbe, 0xef],
    }
}

#[test]
fn redis_entry_roundtrip_preserves_bytes() {
    let entry = sample_entry();
    let redis_entry = RedisResultEntry::from_entry(&entry);
    assert_eq!(redis_entry.bytes_b64, "3q2+7w==");
    let back = ResultEntry::from_redis(redis_entry);
    assert_eq!(back.key, entry.key);
    assert_eq!(back.vo, entry.vo);
    assert_eq!(back.bytes, entry.bytes);
}

#[test]
fn epoch_keying_is_versioned() {
    let key = result_redis_key(7, "marker:result");
    assert!(key.starts_with("binmd5:result:"));
    assert!(key.ends_with(":7:marker:result"));
}

#[test]
fn redis_entry_with_invalid_base64_reads_back_empty() {
    let e = RedisResultEntry {
        key: "k".into(),
        vo: BinaryMd5Vo { md5: "m".into(), time: 1 },
        bytes_b64: "***".into(),
    };
    assert!(ResultEntry::from_redis(e).bytes.is_empty());
}

#[test]
fn entry_flag_reads_second_field() {
    assert_eq!(entry_flag("marker:0:123"), 0);
    assert_eq!(entry_flag("marker:3:0"), 3);
    assert_eq!(entry_flag("item:-2"), -2);
    assert_eq!(entry_flag("item:+7"), 7);
    assert_eq!(entry_flag("marker"), -1);
    assert_eq!(entry_flag("marker::1"), -1);
    assert_eq!(entry_flag("marker:x:1"), -1);
    assert_eq!(entry_flag("marker:2147483648:1"), -1);
    assert_eq!(entry_flag("marker:-2147483648:1"), -2147483648);
}

#[test]
fn marker_page_keys() {
    assert_eq!(marker_page_key(0, 12), "marker:0:12");
    assert_eq!(marker_page_key(-1, 0), "marker:-1:0");
    assert_eq!(result_redis_key(-3, "x"), "binmd5:result:-3:x");
}

#[test]
fn md5_list_and_page_fetch_follow_role_flags() {
    let entries = vec![
        ResultEntry { key: "marker:0:0".into(), vo: BinaryMd5Vo { md5: "a".into(), time: 1 }, bytes: vec![1] },
        ResultEntry { key: "marker:2:0".into(), vo: BinaryMd5Vo { md5: "b".into(), time: 2 }, bytes: vec![2] },
    ];
    let list = visible_md5s(&entries, &vec![0]);
    assert_eq!(list, vec![BinaryMd5Vo { md5: "a".into(), time: 1 }]);
    assert_eq!(page_bytes(&entries, &"a".to_string(), &vec![0]).ok(), Some(vec![1]));
    assert!(matches!(page_bytes(&entries, &"b".to_string(), &vec![0]), Err(PageError::NotFound)));
    assert_eq!(page_bytes(&entries, &"b".to_string(), &vec![0, 2]).ok(), Some(vec![2]));
    assert_eq!(PageError::NotFound.message(), "分页数据未生成或超出获取范围");
}

#[test]
fn marker_pages_split_visible_group_by_id() {
    let markers = vec![(1, 0), (3001, 0), (5, 2), (2999, 0), (6001, 0), (7, 2)];
    let pages = plan_marker_pages(&markers);
    let keys: Vec<(i32, i64)> = pages.iter().map(|p| (p.flag, p.page)).collect();
    assert_eq!(keys, vec![(0, 0), (0, 1), (0, 2), (2, 0)]);
    assert_eq!(pages[0].rows, vec![0, 3]);
    assert_eq!(pages[1].rows, vec![1]);
    assert_eq!(pages[2].rows, vec![4]);
    assert_eq!(pages[3].rows, vec![2, 5]);
}

#[test]
fn marker_pages_of_negative_ids_truncate_toward_zero() {
    let pages = plan_marker_pages(&vec![(-1, 0), (-3000, 0)]);
    let keys: Vec<(i32, i64)> = pages.iter().map(|p| (p.flag, p.page)).collect();
    assert_eq!(keys, vec![(0, -1), (0, 0)]);
}

#[test]
fn item_pages_group_by_flag_ascending() {
    let pages = plan_item_pages(&vec![3, 0, 3, 1]);
    assert_eq!(pages, vec![(0, vec![1]), (1, vec![3]), (3, vec![0, 2])]);
}

#[test]
fn icon_urls_go_through_the_proxy() {
    let url = "https://ddns.minemc.top/a b.png".to_string();
    assert_eq!(
        proxied_icon_url(&url, &"https://proxy".to_string()),
        "https://proxy/cdn/img-proxy?u=https%3A%2F%2Fddns.minemc.top%2Fa%20b.png"
    );
    assert_eq!(proxied_icon_url(&url, &String::new()), url);
    let other = "https://cdn.example/x.png".to_string();
    assert_eq!(proxied_icon_url(&other, &"https://proxy".to_string()), other);
}

#[test]
fn compress_md5_keys_by_digest_of_gzip() {
    let (z, h) = functions::binary_doc::compress_md5(&b"[]".to_vec()).expect("gzip");
    assert_eq!(&z[..4], &[0x1f, 0x8b, 0x08, 0x00]);
    assert_eq!(h.len(), 32);
    assert_eq!(h, format!("{:x}", md5::compute(&z)));
}

#[test]
fn page_keys_read_back_their_flag() {
    for flag in [0, 3, -1, i32::MAX, i32::MIN] {
        let key = functions::binary_doc::group_page_key("item", flag);
        assert_eq!(entry_flag(&key), flag);
        assert_eq!(entry_flag(&marker_page_key(flag, 7)), flag);
    }
}

#[test]
fn listed_digests_are_served() {
    let entries = vec![
        ResultEntry { key: "item:0".into(), vo: BinaryMd5Vo { md5: "d0".into(), time: 1 }, bytes: vec![1] },
        ResultEntry { key: "item:3".into(), vo: BinaryMd5Vo { md5: "d3".into(), time: 2 }, bytes: vec![3] },
        ResultEntry { key: "item:1".into(), vo: BinaryMd5Vo { md5: "d1".into(), time: 3 }, bytes: vec![5] },
    ];
    let allowed = vec![0, 1];
    let listed = visible_md5s(&entries, &allowed);
    assert_eq!(listed.len(), 2);
    for v in &listed {
        assert!(page_bytes(&entries, &v.md5, &allowed).is_ok());
    }
    assert!(page_bytes(&entries, &"d3".to_string(), &allowed).is_err());
}
