//! MERGE and the conversions.

use morsel_engine::merge::{
    cast_to, cast_type_of, execute_merge, iif, parse_cell, truth_of_word, try_cast, try_convert_to_bool,
    try_convert_to_f64, try_convert_to_u64, CastType, Merge, MergeAction, MergeResult,
};
use morsel_engine::table::{QueryResult, ResultColumn};

fn read(s: &str) -> Option<u64> {
    s.parse::<f64>().ok().map(|f| f.to_bits())
}

fn write(s: &str) -> Option<String> {
    s.parse::<f64>().ok().map(|f| f.to_string())
}

fn make_result(names: &[&str], cols: &[Vec<u64>]) -> QueryResult {
    let mut r = QueryResult::empty();
    for (i, name) in names.iter().enumerate() {
        r.push_column(ResultColumn { name: name.to_string(), values: cols[i].clone(), string_values: None }).unwrap();
    }
    r
}

#[test]
fn try_convert_u64() {
    assert_eq!(try_convert_to_u64("42"), Some(42));
    assert_eq!(try_convert_to_u64("not a number"), None);
    assert_eq!(try_convert_to_u64("  100  "), Some(100));
}

#[test]
fn try_convert_f64() {
    assert_eq!(try_convert_to_f64("3.14", &read).map(f64::from_bits), Some(3.14));
    assert_eq!(try_convert_to_f64("not a number", &read), None);
}

#[test]
fn try_convert_bool() {
    assert_eq!(try_convert_to_bool("true"), Some(true));
    assert_eq!(try_convert_to_bool("1"), Some(true));
    assert_eq!(try_convert_to_bool("false"), Some(false));
    assert_eq!(try_convert_to_bool("0"), Some(false));
    assert_eq!(try_convert_to_bool("maybe"), None);
}

#[test]
fn try_cast_int() {
    assert_eq!(try_cast("42", "INT", &write), Some("42".into()));
    assert_eq!(try_cast("abc", "INT", &write), None);
}

#[test]
fn try_cast_float() {
    assert_eq!(try_cast("3.14", "FLOAT", &write), Some("3.14".into()));
    assert_eq!(try_cast("abc", "FLOAT", &write), None);
}

#[test]
fn try_cast_bool() {
    assert_eq!(try_cast("true", "BOOLEAN", &write), Some("1".into()));
    assert_eq!(try_cast("false", "BOOLEAN", &write), Some("0".into()));
    assert_eq!(try_cast("maybe", "BOOLEAN", &write), None);
}

#[test]
fn try_cast_string_passthrough() {
    assert_eq!(try_cast("hello", "VARCHAR", &write), Some("hello".into()));
}

#[test]
fn iif_true() {
    assert_eq!(iif(true, "yes", "no"), "yes");
}

#[test]
fn iif_false() {
    assert_eq!(iif(false, "yes", "no"), "no");
}

#[test]
fn merge_update_existing() {
    let mut target = make_result(&["id", "val"], &[vec![1, 2, 3], vec![10, 20, 30]]);
    let merge = Merge {
        target: "t".into(),
        source_rows: vec![("2".into(), vec!["2".into(), "99".into()])],
        join_target_col: "id".into(),
        join_source_col: "id".into(),
        when_matched: Some(MergeAction::Update(vec![("val".into(), "99".into())])),
        when_not_matched_by_source: None,
        when_not_matched_by_target: None,
    };
    let result = execute_merge(&mut target, &merge, &read);
    assert_eq!(result.updated, 1);
    assert_eq!(target.columns[1].values, vec![10, 99, 30]);
}

#[test]
fn merge_insert_new() {
    let mut target = make_result(&["id", "val"], &[vec![1, 2], vec![10, 20]]);
    let merge = Merge {
        target: "t".into(),
        source_rows: vec![("3".into(), vec!["3".into(), "30".into()])],
        join_target_col: "id".into(),
        join_source_col: "id".into(),
        when_matched: None,
        when_not_matched_by_source: None,
        when_not_matched_by_target: Some(MergeAction::Insert(
            vec!["id".into(), "val".into()],
            vec!["3".into(), "30".into()],
        )),
    };
    let result = execute_merge(&mut target, &merge, &read);
    assert_eq!(result.inserted, 1);
    assert_eq!(target.row_count, 3);
    assert_eq!(target.columns[0].values, vec![1, 2, 3]);
    assert_eq!(target.columns[1].values, vec![10, 20, 30]);
}

#[test]
fn merge_delete_unmatched() {
    let mut target = make_result(&["id", "val"], &[vec![1, 2, 3], vec![10, 20, 30]]);
    let merge = Merge {
        target: "t".into(),
        source_rows: vec![("2".into(), vec!["2".into(), "20".into()])],
        join_target_col: "id".into(),
        join_source_col: "id".into(),
        when_matched: None,
        when_not_matched_by_source: Some(MergeAction::Delete),
        when_not_matched_by_target: None,
    };
    let result = execute_merge(&mut target, &merge, &read);
    assert_eq!(result.deleted, 2);
    assert_eq!(target.row_count, 1);
    assert_eq!(target.columns[0].values, vec![2]);
}

#[test]
fn merge_upsert_combined() {
    let mut target = make_result(&["id", "val"], &[vec![1, 2], vec![10, 20]]);
    let merge = Merge {
        target: "t".into(),
        source_rows: vec![
            ("2".into(), vec!["2".into(), "99".into()]),
            ("3".into(), vec!["3".into(), "30".into()]),
        ],
        join_target_col: "id".into(),
        join_source_col: "id".into(),
        when_matched: Some(MergeAction::Update(vec![("val".into(), "99".into())])),
        when_not_matched_by_source: None,
        when_not_matched_by_target: Some(MergeAction::Insert(
            vec!["id".into(), "val".into()],
            vec!["3".into(), "30".into()],
        )),
    };
    let result = execute_merge(&mut target, &merge, &read);
    assert_eq!(result.updated, 1);
    assert_eq!(result.inserted, 1);
    assert_eq!(target.row_count, 3);
    assert_eq!(target.columns[0].values, vec![1, 2, 3]);
    assert_eq!(target.columns[1].values, vec![10, 99, 30]);
}

#[test]
fn merge_without_join_column_does_nothing() {
    let mut target = make_result(&["id"], &[vec![1]]);
    let merge = Merge {
        target: "t".into(),
        source_rows: vec![("1".into(), vec![])],
        join_target_col: "key".into(),
        join_source_col: "key".into(),
        when_matched: Some(MergeAction::Update(vec![("id".into(), "5".into())])),
        when_not_matched_by_source: Some(MergeAction::Delete),
        when_not_matched_by_target: None,
    };
    let result = execute_merge(&mut target, &merge, &read);
    assert_eq!(result, MergeResult { inserted: 0, updated: 0, deleted: 0 });
    assert_eq!(target.columns[0].values, vec![1]);
    assert_eq!(target.row_count, 1);
}

#[test]
fn merge_insert_fills_all_columns_and_pads_with_zero() {
    let mut target = make_result(&["id", "a", "b"], &[vec![1], vec![2], vec![3]]);
    let merge = Merge {
        target: "t".into(),
        source_rows: vec![("9".into(), vec![])],
        join_target_col: "id".into(),
        join_source_col: "id".into(),
        when_matched: None,
        when_not_matched_by_source: None,
        when_not_matched_by_target: Some(MergeAction::Insert(vec![], vec!["9".into(), "'x'".into()])),
    };
    execute_merge(&mut target, &merge, &read);
    assert_eq!(target.columns[0].values, vec![1, 9]);
    assert_eq!(target.columns[1].values, vec![2, xxhash_rust::xxh3::xxh3_64(b"x")]);
    assert_eq!(target.columns[2].values, vec![3, 0]);
}

#[test]
fn merge_updates_the_first_match_only() {
    let mut target = make_result(&["id", "val"], &[vec![7, 7], vec![1, 2]]);
    let merge = Merge {
        target: "t".into(),
        source_rows: vec![("7".into(), vec![])],
        join_target_col: "id".into(),
        join_source_col: "id".into(),
        when_matched: Some(MergeAction::Update(vec![
            ("val".into(), "3".into()),
            ("val".into(), "4".into()),
            ("none".into(), "5".into()),
        ])),
        when_not_matched_by_source: Some(MergeAction::Delete),
        when_not_matched_by_target: None,
    };
    let result = execute_merge(&mut target, &merge, &read);
    assert_eq!(result, MergeResult { inserted: 0, updated: 1, deleted: 1 });
    assert_eq!(target.columns[1].values, vec![4]);
}

#[test]
fn cells_of_literals() {
    assert_eq!(parse_cell(" 'abc' ", &read), xxhash_rust::xxh3::xxh3_64(b"abc"));
    assert_eq!(parse_cell("''", &read), xxhash_rust::xxh3::xxh3_64(b""));
    assert_eq!(parse_cell("'", &read), 0);
    assert_eq!(parse_cell("-2", &read), (-2i64) as u64);
    assert_eq!(parse_cell("+2", &read), 2);
    assert_eq!(parse_cell("18446744073709551615", &read), u64::MAX);
    assert_eq!(parse_cell("1.5", &read), 1.5f64.to_bits());
    assert_eq!(parse_cell("x", &read), 0);
}

#[test]
fn casts_ignore_the_case_of_names() {
    assert_eq!(try_cast(" 7 ", "bigint", &write), Some("7".into()));
    assert_eq!(try_cast("YES", "Bool", &write), Some("1".into()));
    assert_eq!(try_cast("x", "blob", &write), None);
    assert_eq!(try_convert_to_bool(" On "), Some(true));
    assert_eq!(try_convert_to_bool("OFF"), Some(false));
    assert_eq!(truth_of_word("yes"), Some(true));
    assert_eq!(truth_of_word("YES"), None);
    assert_eq!(cast_type_of("NUMERIC"), CastType::Float);
    assert_eq!(cast_to("18446744073709551616", CastType::Integer, &write), None);
    assert_eq!(try_convert_to_u64("-1"), None);
    assert_eq!(try_convert_to_u64(""), None);
}

#[test]
fn push_column_checks_lengths() {
    let mut r = make_result(&["a"], &[vec![1, 2]]);
    let e = r.push_column(ResultColumn { name: "b".into(), values: vec![1], string_values: None });
    assert!(matches!(e, Err(morsel_engine::error::Error::Other(_))));
    assert_eq!(r.columns.len(), 1);
}

fn statement(keys: &[&str]) -> Merge {
    Merge {
        target: "t".into(),
        source_rows: keys.iter().map(|k| (k.to_string(), Vec::new())).collect(),
        join_target_col: "id".into(),
        join_source_col: "id".into(),
        when_matched: None,
        when_not_matched_by_source: None,
        when_not_matched_by_target: None,
    }
}

fn insert_three() -> Option<MergeAction> {
    Some(MergeAction::Insert(vec!["id".into(), "val".into()], vec!["3".into(), "30".into()]))
}

#[test]
fn merge_keeps_the_rows_it_has_inserted() {
    let mut target = make_result(&["id", "val"], &[vec![1, 2], vec![10, 20]]);
    let merge = Merge {
        when_not_matched_by_target: insert_three(),
        when_not_matched_by_source: Some(MergeAction::Delete),
        ..statement(&["2", "3"])
    };
    let result = execute_merge(&mut target, &merge, &read);
    assert_eq!(result, MergeResult { inserted: 1, updated: 0, deleted: 1 });
    assert_eq!(target.row_count, 2);
    assert_eq!(target.columns[0].values, vec![2, 3]);
    assert_eq!(target.columns[1].values, vec![20, 30]);
}

#[test]
fn merge_deletes_matched_rows() {
    let mut target = make_result(&["id", "val"], &[vec![1, 2, 3], vec![10, 20, 30]]);
    let merge = Merge { when_matched: Some(MergeAction::Delete), ..statement(&["2"]) };
    let result = execute_merge(&mut target, &merge, &read);
    assert_eq!(result, MergeResult { inserted: 0, updated: 0, deleted: 1 });
    assert_eq!(target.row_count, 2);
    assert_eq!(target.columns[0].values, vec![1, 3]);
    assert_eq!(target.columns[1].values, vec![10, 30]);
}

#[test]
fn merge_updates_a_row_that_it_has_inserted() {
    let mut target = make_result(&["id", "val"], &[vec![1], vec![10]]);
    let merge = Merge {
        when_matched: Some(MergeAction::Update(vec![("val".into(), "99".into())])),
        when_not_matched_by_target: Some(MergeAction::Insert(vec![], vec!["3".into(), "30".into()])),
        ..statement(&["3", "3"])
    };
    let result = execute_merge(&mut target, &merge, &read);
    assert_eq!(result, MergeResult { inserted: 1, updated: 1, deleted: 0 });
    assert_eq!(target.columns[0].values, vec![1, 3]);
    assert_eq!(target.columns[1].values, vec![10, 99]);
}

#[test]
fn merge_leaves_columns_whole() {
    let mut target = make_result(&["id", "val"], &[vec![1, 2, 4], vec![10, 20, 40]]);
    let merge = Merge {
        when_matched: Some(MergeAction::Delete),
        when_not_matched_by_source: Some(MergeAction::Delete),
        when_not_matched_by_target: insert_three(),
        ..statement(&["2", "7", "3"])
    };
    let result = execute_merge(&mut target, &merge, &read);
    assert_eq!(target.row_count, 3 + result.inserted - result.deleted);
    assert!(target.columns.iter().all(|c| c.values.len() == target.row_count));
}

#[test]
fn cast_values_cast_to_themselves() {
    for (text, name) in [(" 007 ", "INT"), ("+5", "bigint"), (" as is ", "Text")] {
        let once = try_cast(text, name, &write).unwrap();
        assert_eq!(try_cast(&once, name, &write), Some(once));
    }
}

#[test]
fn a_cast_value_casts_to_itself() {
    for (s, name) in [("YES", "bool"), ("off", "BOOLEAN"), (" 007 ", "INT"), ("2.50", "double"), ("text", "varchar")] {
        let once = try_cast(s, name, &write).unwrap();
        assert_eq!(try_cast(&once, name, &write), Some(once.clone()));
        assert_eq!(try_cast(s, &name.to_uppercase(), &write), Some(once));
    }
    assert_eq!(try_cast("2.50", "double", &write), Some("2.5".into()));
}
