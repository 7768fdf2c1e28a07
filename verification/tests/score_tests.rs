use functions::score::{
    entry_weight, merge_score_rows, score_contributions, timestamp_or_now, weight_of_edit, ScoreContent, ScoreHistory,
    ScoreStatRow,
};

fn hist(creator: Option<i64>, deleted: bool, content: &str) -> ScoreHistory {
    ScoreHistory { creator_id: creator, deleted, content: content.to_string() }
}

#[test]
fn edit_weights() {
    assert_eq!(entry_weight(&hist(Some(1), true, "{\"a\":1,\"b\":2}")), 1);
    assert_eq!(entry_weight(&hist(Some(1), false, "{\"a\":1,\"b\":2,\"c\":3}")), 3);
    assert_eq!(entry_weight(&hist(Some(1), false, "{}")), 1);
    assert_eq!(entry_weight(&hist(Some(1), false, "[1,2,3]")), 1);
    assert_eq!(entry_weight(&hist(Some(1), false, "not json")), 1);
    assert_eq!(weight_of_edit(false, Some(4)), 4);
    assert_eq!(weight_of_edit(false, Some(0)), 1);
    assert_eq!(weight_of_edit(true, Some(9)), 1);
}

#[test]
fn contributions_per_creator() {
    let hs = vec![
        hist(Some(7), false, "{\"a\":1,\"b\":2}"),
        hist(None, false, "{\"a\":1}"),
        hist(Some(3), true, ""),
        hist(Some(7), false, "{\"x\":0}"),
    ];
    let cs = score_contributions(&hs);
    assert_eq!(cs.len(), 2);
    assert_eq!((cs[0].user_id, cs[0].count, cs[0].weight), (7, 2, 3));
    assert_eq!((cs[1].user_id, cs[1].count, cs[1].weight), (3, 1, 1));
}

fn content(fields: Option<Vec<(&str, Option<i64>)>>, count: Option<i64>, chars: Option<Vec<(&str, Option<i64>)>>, fw: Option<i64>) -> ScoreContent {
    let conv = |v: Vec<(&str, Option<i64>)>| v.into_iter().map(|(k, n)| (k.to_string(), n)).collect::<Vec<_>>();
    ScoreContent { fields: fields.map(conv), count, chars: chars.map(conv), field_weight: fw }
}

#[test]
fn score_rows_merge_per_user() {
    let rows = vec![
        ScoreStatRow { user_id: Some(9), content: content(None, Some(2), None, Some(5)) },
        ScoreStatRow {
            user_id: Some(4),
            content: content(Some(vec![("title", Some(1)), ("bad", None)]), None, Some(vec![("title", Some(10))]), None),
        },
        ScoreStatRow { user_id: Some(9), content: content(None, Some(3), None, Some(1)) },
        ScoreStatRow {
            user_id: Some(4),
            content: content(Some(vec![("title", Some(2)), ("content", Some(1))]), None, None, Some(7)),
        },
        ScoreStatRow { user_id: None, content: content(None, None, None, None) },
    ];
    let out = merge_score_rows(&rows);
    assert_eq!(out.iter().map(|u| u.user_id).collect::<Vec<_>>(), vec![0, 4, 9]);
    assert!(out[0].fields.is_empty() && out[0].chars.is_empty());
    assert_eq!(out[1].fields, vec![("title".to_string(), 3), ("content".to_string(), 1)]);
    assert_eq!(out[1].chars, vec![("title".to_string(), 10), ("content".to_string(), 7)]);
    assert_eq!(out[2].fields, vec![("content".to_string(), 5)]);
    assert_eq!(out[2].chars, vec![("content".to_string(), 6)]);
}

#[test]
fn timestamps() {
    assert_eq!(timestamp_or_now(2000, 5), 2_000_000);
    assert_eq!(timestamp_or_now(i64::MIN, 5), 5);
}
