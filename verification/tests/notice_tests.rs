use functions::notice::{
    clamp_sort_index, escape_like, known_channels, notice_page, parse_valid_time, NoticeChannel, NoticeRow,
    ValidTimeInput,
};

fn row(chans: &[&str], start: Option<i64>, end: Option<i64>) -> NoticeRow {
    NoticeRow {
        channels: chans.iter().map(|c| c.to_string()).collect(),
        valid_time_start: start,
        valid_time_end: end,
    }
}

#[test]
fn escape_like_escapes_wildcards() {
    assert_eq!(escape_like("a%b_c\\d"), "a\\%b\\_c\\\\d");
    assert_eq!(escape_like("plain"), "plain");
}

#[test]
fn channel_names_read_back() {
    let all = [
        NoticeChannel::Application,
        NoticeChannel::ClientApp,
        NoticeChannel::ClientPc,
        NoticeChannel::Common,
        NoticeChannel::Dadian,
        NoticeChannel::Dashboard,
        NoticeChannel::Tianli,
        NoticeChannel::Web,
    ];
    for c in all {
        assert_eq!(NoticeChannel::from_name(c.name()), Some(c));
    }
    assert_eq!(NoticeChannel::ClientPc.name(), "CLIENT_PC");
    assert_eq!(NoticeChannel::from_name("web"), None);
}

#[test]
fn known_channels_drops_unknown_names() {
    let names = vec!["WEB".to_string(), "NOPE".to_string(), "TIANLI".to_string()];
    assert_eq!(known_channels(&names), vec![NoticeChannel::Web, NoticeChannel::Tianli]);
}

#[test]
fn notice_page_filters_by_channel_and_validity() {
    let rows = vec![
        row(&["WEB"], None, None),
        row(&["CLIENT_PC"], None, None),
        row(&["WEB", "COMMON"], Some(100), Some(200)),
        row(&["COMMON"], Some(300), None),
    ];
    let p = notice_page(&rows, &Some(vec![NoticeChannel::Common]), false, 150, None, None);
    assert_eq!(p.rows, vec![2, 3]);
    assert_eq!(p.total, 2);
    assert_eq!(p.size, 10);
    let p = notice_page(&rows, &None, true, 150, None, None);
    assert_eq!(p.rows, vec![0, 1, 2]);
    let p = notice_page(&rows, &Some(vec![NoticeChannel::Web]), true, 250, None, None);
    assert_eq!(p.rows, vec![0]);
}

#[test]
fn notice_page_pages() {
    let rows: Vec<NoticeRow> = (0..5).map(|_| row(&["WEB"], None, None)).collect();
    let p = notice_page(&rows, &None, false, 0, Some(2), Some(2));
    assert_eq!(p.rows, vec![2, 3]);
    assert_eq!(p.total, 5);
    assert_eq!(p.size, 2);
    let p = notice_page(&rows, &None, false, 0, Some(2), Some(3));
    assert_eq!(p.rows, vec![4]);
    let p = notice_page(&rows, &None, false, 0, Some(2), Some(9));
    assert!(p.rows.is_empty());
    let p = notice_page(&rows, &None, false, 0, Some(500), Some(0));
    assert_eq!(p.size, 200);
    assert_eq!(p.rows, vec![0, 1, 2, 3, 4]);
}

#[test]
fn sort_index_is_clamped() {
    assert_eq!(clamp_sort_index(5), 5);
    assert_eq!(clamp_sort_index(i64::MAX), i32::MAX);
    assert_eq!(clamp_sort_index(i64::MIN), i32::MIN);
}

#[test]
fn valid_time_fields() {
    let now = 42;
    assert_eq!(parse_valid_time(&ValidTimeInput::Missing, now), None);
    assert_eq!(parse_valid_time(&ValidTimeInput::Millis(1500), now), Some(1_500_000));
    assert_eq!(parse_valid_time(&ValidTimeInput::Millis(i64::MAX), now), Some(now));
    assert_eq!(
        parse_valid_time(&ValidTimeInput::Text("1970-01-01T00:00:01Z".into()), now),
        Some(1_000_000)
    );
    assert_eq!(
        parse_valid_time(&ValidTimeInput::Text("1970-01-01T00:00:02.5".into()), now),
        Some(2_500_000)
    );
    assert_eq!(
        parse_valid_time(&ValidTimeInput::Text("1970-01-01 00:01:00".into()), now),
        Some(60_000_000)
    );
    assert_eq!(parse_valid_time(&ValidTimeInput::Text("soon".into()), now), Some(now));
    assert_eq!(parse_valid_time(&ValidTimeInput::Other, now), Some(now));
}

#[test]
fn notice_page_offset_is_checked() {
    assert_eq!(functions::notice::notice_page_offset(Some(20), Some(3)), Some(40));
    assert_eq!(functions::notice::notice_page_offset(None, None), Some(0));
    assert_eq!(functions::notice::notice_page_offset(Some(500), Some(2)), Some(200));
}
