//! Values, words, days and texts.

use morsel_engine::dates::{date_to_days, day_and_month, days_since_epoch_to_year, year_of_day};
use morsel_engine::error::Error;
use morsel_engine::float_bits::{at_most, discount_price, less, nan, negate, reversed, same, sort_rank, FloatOp};
use morsel_engine::group_index::{GroupIndex, RowIndex};
use morsel_engine::hashing::{hash_bytes, hash_text};
use morsel_engine::order::stable_order;
use morsel_engine::sql::agg::{avg_values, keep_distinct, max_values, min_values, sum_values};
use morsel_engine::sql::ast::{swap_op, BinOp2, ColType};
use morsel_engine::sql::eval::{extract, like_value, substr};
use morsel_engine::sql::names::NameMap;
use morsel_engine::sql::output::signed_text;
use morsel_engine::sql::source::{infer_result_type, scalar_value};
use morsel_engine::sql::value::{binop, date_of_half, equal_values, text_less, value_at_most, value_less, Value2};
use morsel_engine::table::{QueryResult, ResultColumn};
use morsel_engine::text::{decimal_chars, parse_i64, parse_u64, split_words, trim_chars};
use morsel_engine::word::{rank_signed, signed_of, word_of};

fn fpu(op: FloatOp, a: u64, b: u64) -> u64 {
    let x = f64::from_bits(a);
    let y = f64::from_bits(b);
    match op {
        FloatOp::Add => (x + y).to_bits(),
        FloatOp::Sub => (x - y).to_bits(),
        FloatOp::Mul => (x * y).to_bits(),
        FloatOp::Div => (x / y).to_bits(),
        FloatOp::Min => x.min(y).to_bits(),
        FloatOp::Max => x.max(y).to_bits(),
        FloatOp::FromU64 => (a as f64).to_bits(),
        FloatOp::FromI64 => (a as i64 as f64).to_bits(),
        FloatOp::ToI64 => x as i64 as u64,
        FloatOp::ToU64 => x as u64,
        FloatOp::FusedDiscount => (-x).mul_add(y, x).to_bits(),
        FloatOp::Pow => x.powf(y).to_bits(),
        FloatOp::Near => u64::from((x - y).abs() <= f64::EPSILON * x.abs().max(y.abs())),
        FloatOp::LinearCount => (-256.0 * (1.0 - a as f64 / 256.0).ln()).round() as u64,
    }
}

fn reader(s: &str) -> Option<u64> {
    s.parse::<f64>().ok().map(|x| x.to_bits())
}

fn float(x: f64) -> Value2 {
    Value2::Float(x.to_bits())
}

fn text(s: &str) -> Value2 {
    Value2::Str(s.to_string())
}

/// A value for comparison in a test.
fn shown(v: &Value2) -> String {
    match v {
        Value2::Int(i) => format!("i{i}"),
        Value2::Float(b) => format!("f{:?}", f64::from_bits(*b)),
        Value2::Str(s) => format!("s{s}"),
        Value2::Date(d) => format!("d{d}"),
        Value2::Null => "null".to_string(),
    }
}

#[test]
fn days_are_counted_from_the_epoch() {
    assert_eq!(date_to_days(1970, 1, 1), 0);
    assert_eq!(date_to_days(1970, 3, 1), 59);
    assert_eq!(date_to_days(1993, 7, 1), 8582);
    assert_eq!(date_to_days(2000, 2, 29), 11016);
    assert_eq!(date_to_days(1969, 12, 31), u64::MAX);
}

#[test]
fn a_day_has_one_year() {
    assert_eq!(days_since_epoch_to_year(0), 1970);
    assert_eq!(days_since_epoch_to_year(-1), 1969);
    assert_eq!(days_since_epoch_to_year(8582), 1993);
    assert_eq!(days_since_epoch_to_year(11015 - 59), 1999);
    for y in 1890..2110 {
        let first = date_to_days(y, 1, 1) as i64;
        let next = date_to_days(y + 1, 1, 1) as i64;
        assert!(next - first == 365 || next - first == 366);
        assert_eq!(days_since_epoch_to_year(first), i64::from(y));
        assert_eq!(days_since_epoch_to_year(next - 1), i64::from(y));
        assert_eq!(year_of_day(first as u64), y as i64 as u64);
    }
}

#[test]
fn a_day_has_a_month() {
    assert_eq!(day_and_month(0), (1, 1));
    assert_eq!(day_and_month(59), (3, 1));
    assert_eq!(day_and_month(11016), (2, 29));
    assert_eq!(day_and_month(-1), (12, 31));
}

#[test]
fn doubles_are_ordered_by_their_patterns() {
    let rising = [f64::NEG_INFINITY, -2.5, -1.0, 0.0, 0.5, 1.0, f64::INFINITY];
    for (i, x) in rising.iter().enumerate() {
        for (j, y) in rising.iter().enumerate() {
            let (a, b) = (x.to_bits(), y.to_bits());
            assert_eq!(less(a, b), i < j);
            assert_eq!(at_most(a, b), i <= j);
            assert_eq!(same(a, b), i == j);
            assert_eq!(sort_rank(a) < sort_rank(b), i < j);
            assert_eq!(less(negate(a), negate(b)), i > j);
            assert_eq!(reversed(sort_rank(a)) < reversed(sort_rank(b)), i > j);
        }
    }
}

#[test]
fn nan_equals_nothing() {
    let n = f64::NAN.to_bits();
    assert!(nan(n));
    assert!(!nan(f64::INFINITY.to_bits()));
    assert!(!same(n, n));
    assert!(!less(n, 0) && !less(0, n) && !at_most(n, n));
}

#[test]
fn zeros_are_equal_but_sort_apart() {
    let (minus, plus) = ((-0.0f64).to_bits(), 0.0f64.to_bits());
    assert!(same(minus, plus));
    assert!(sort_rank(minus) < sort_rank(plus));
}

#[test]
fn a_discount_comes_off_the_price() {
    assert_eq!(discount_price(&fpu, 80.0f64.to_bits(), 0.25f64.to_bits()), 60.0f64.to_bits());
}

#[test]
fn words_hold_signed_numbers() {
    assert_eq!(word_of(-1), u64::MAX);
    for n in [0, 1, -1, 77, i64::MIN, i64::MAX] {
        assert_eq!(signed_of(word_of(n)), n);
    }
    assert!(rank_signed(word_of(-5)) < rank_signed(word_of(3)));
    assert!(rank_signed(word_of(i64::MIN)) < rank_signed(word_of(-1)));
}

#[test]
fn equal_keys_stay_in_order() {
    let keys = vec![vec![2, 1], vec![1, 9], vec![2, 0], vec![1, 9]];
    assert_eq!(stable_order(&keys), vec![1, 3, 2, 0]);
    assert_eq!(stable_order(&Vec::new()), Vec::<usize>::new());
}

#[test]
fn slots_are_given_in_turn() {
    let mut groups = GroupIndex::new();
    assert_eq!(groups.slot_of((7, 0, 0)), 0);
    assert_eq!(groups.slot_of((3, 1, 0)), 1);
    assert_eq!(groups.slot_of((7, 0, 0)), 0);
    assert_eq!(groups.len(), 2);
    assert_eq!(groups.key(1), (3, 1, 0));
    assert_eq!(groups.find((3, 0, 0)), None);
}

#[test]
fn the_last_marked_row_of_a_key_is_found() {
    let index = RowIndex::build(&vec![5, 6, 5, 8], &vec![true, true, true, false]);
    assert_eq!(index.find(5), Some(2));
    assert_eq!(index.find(6), Some(1));
    assert_eq!(index.find(8), None);
    assert!(index.holds(6) && !index.holds(9));
}

#[test]
fn texts_are_hashed_by_their_bytes() {
    assert_eq!(hash_text(""), 0x2D06_8005_38D3_94C2);
    assert_eq!(hash_text("AFRICA"), hash_bytes(&b"AFRICA".to_vec()));
    assert_ne!(hash_text("AFRICA"), hash_text("ASIA"));
}

#[test]
fn names_stand_for_numbers() {
    let mut names = NameMap::new();
    names.insert("a.x".to_string(), 0);
    names.insert("x".to_string(), 0);
    names.insert_new("x".to_string(), 4);
    names.insert_new("y".to_string(), 5);
    assert_eq!(names.get("x"), Some(0));
    assert_eq!(names.get("y"), Some(5));
    assert_eq!(names.get("z"), None);
    assert!(names.has_prefix("a.") && !names.has_prefix("b."));
    let mut all = NameMap::new();
    all.insert("y".to_string(), 1);
    all.insert_all(&names, 10);
    assert_eq!(all.get("a.x"), Some(10));
    assert_eq!(all.duplicate().get("x"), Some(10));
}

#[test]
fn values_are_read_as_numbers() {
    assert_eq!(Value2::Int(-3).as_f64(&fpu, &reader), Some((-3.0f64).to_bits()));
    assert_eq!(text("2.5").as_f64(&fpu, &reader), Some(2.5f64.to_bits()));
    assert_eq!(text("x").as_f64(&fpu, &reader), None);
    assert_eq!(Value2::Null.as_f64(&fpu, &reader), None);
    assert_eq!(float(-2.75).as_i64(&fpu), Some(-2));
    assert_eq!(text("-12").as_i64(&fpu), Some(-12));
    assert_eq!(text("1.5").as_i64(&fpu), None);
    assert_eq!(Value2::Date(9).as_i64(&fpu), Some(9));
    assert_eq!(Value2::Int(-1).as_u64(&fpu), Some(u64::MAX));
    assert_eq!(float(-1.0).as_u64(&fpu), Some(0));
    assert_eq!(text("7").as_u64(&fpu), None);
    assert_eq!(text("abc").as_str(), Some("abc"));
    assert_eq!(Value2::Int(1).as_str(), None);
}

#[test]
fn cells_store_values() {
    assert_eq!(Value2::Int(-2).to_u64(), u64::MAX - 1);
    assert_eq!(float(1.5).to_u64(), 1.5f64.to_bits());
    assert_eq!(Value2::Date(-1).to_u64(), 0xFFFF_FFFF);
    assert_eq!(date_of_half(0xFFFF_FFFF), -1);
    assert_eq!(Value2::Null.to_u64(), 0);
    assert_eq!(text("F").to_u64(), hash_text("F"));
}

#[test]
fn some_values_count_as_true() {
    assert!(Value2::Int(2).truthy() && float(0.5).truthy());
    assert!(!Value2::Int(0).truthy() && !float(-0.0).truthy());
    assert!(!text("true").truthy() && !Value2::Null.truthy());
}

#[test]
fn comparisons_go_by_kind() {
    assert!(equal_values(&Value2::Int(2), &float(2.0), &fpu, &reader));
    assert!(equal_values(&Value2::Int(hash_text("AIR") as i64), &text("AIR"), &fpu, &reader));
    assert!(!equal_values(&Value2::Null, &Value2::Null, &fpu, &reader));
    assert!(value_less(&text("ab"), &text("b"), &fpu, &reader));
    assert!(value_less(&text("a"), &text("ab"), &fpu, &reader));
    assert!(!value_less(&Value2::Null, &Value2::Int(1), &fpu, &reader));
    assert!(value_at_most(&Value2::Date(3), &Value2::Int(3), &fpu, &reader));
    assert!(text_less("B", "a") && !text_less("a", "a"));
}

#[test]
fn a_comparison_turns_round() {
    let values = [Value2::Int(1), float(2.0), text("3"), Value2::Date(2), Value2::Null];
    for op in [BinOp2::Lt, BinOp2::Le, BinOp2::Gt, BinOp2::Ge, BinOp2::Eq, BinOp2::Ne] {
        assert!(swap_op(swap_op(op)) == op);
        for a in &values {
            for b in &values {
                let there = binop(op, a, b, &fpu, &reader);
                let back = binop(swap_op(op), b, a, &fpu, &reader);
                assert_eq!(shown(&there), shown(&back));
            }
        }
    }
}

#[test]
fn arithmetic_stays_whole_where_it_can() {
    let go = |op, l: Value2, r: Value2| shown(&binop(op, &l, &r, &fpu, &reader));
    assert_eq!(go(BinOp2::Add, Value2::Int(2), Value2::Int(3)), "i5");
    assert_eq!(go(BinOp2::Mul, Value2::Int(2), float(1.5)), "f3.0");
    assert_eq!(go(BinOp2::Sub, Value2::Date(10), Value2::Int(4)), "f6.0");
    assert_eq!(go(BinOp2::Div, Value2::Int(1), Value2::Int(4)), "f0.25");
    assert_eq!(go(BinOp2::Div, Value2::Int(1), Value2::Int(0)), "null");
    assert_eq!(go(BinOp2::Add, Value2::Int(i64::MAX), Value2::Int(1)), format!("i{}", i64::MIN));
    assert_eq!(go(BinOp2::Add, Value2::Null, Value2::Int(1)), "null");
    assert_eq!(go(BinOp2::Eq, Value2::Null, Value2::Null), "i0");
    assert_eq!(go(BinOp2::Ne, Value2::Null, Value2::Null), "i1");
    assert_eq!(go(BinOp2::And, Value2::Int(1), text("x")), "i0");
    assert_eq!(go(BinOp2::Or, Value2::Int(1), text("x")), "i1");
}

#[test]
fn dates_come_apart() {
    let day = Value2::Date(date_to_days(1995, 3, 15) as i32);
    assert_eq!(shown(&extract(&fpu, "year", &day)), "i1995");
    assert_eq!(shown(&extract(&fpu, "MONTH", &day)), "i3");
    assert_eq!(shown(&extract(&fpu, "Day", &day)), "i15");
    assert_eq!(shown(&extract(&fpu, "year", &Value2::Int(0))), "i1970");
    assert_eq!(shown(&extract(&fpu, "year", &text("1995"))), "null");
}

#[test]
fn texts_are_cut_by_bytes() {
    let cut = |s: &str, from, len| substr(&fpu, &text(s), &Value2::Int(from), &Value2::Int(len)).map(|v| shown(&v));
    assert_eq!(cut("13-555", 1, 2).ok(), Some("s13".to_string()));
    assert_eq!(cut("13-555", 4, 99).ok(), Some("s555".to_string()));
    assert_eq!(cut("13-555", 9, 1).ok(), Some("s".to_string()));
    assert_eq!(cut("13-555", 0, 2).ok(), Some("s13".to_string()));
    match cut("\u{e9}t\u{e9}", 2, 1) {
        Err(Error::Other(m)) => assert_eq!(m, "substring bounds"),
        other => panic!("{other:?}"),
    }
    match substr(&fpu, &Value2::Int(5), &Value2::Int(1), &Value2::Int(1)) {
        Ok(v) => assert_eq!(shown(&v), "null"),
        Err(e) => panic!("{e:?}"),
    }
}

#[test]
fn hashes_are_matched_by_plain_patterns_only() {
    let hashed = Value2::Int(hash_text("AIR") as i64);
    assert!(like_value(&hashed, &text("AIR")));
    assert!(!like_value(&hashed, &text("A%")));
    assert!(like_value(&text("AIR REG"), &text("A_R%")));
    assert!(!like_value(&Value2::Null, &text("%")));
}

#[test]
fn aggregates_of_values() {
    let whole = vec![Value2::Int(4), Value2::Int(-1), Value2::Int(3)];
    assert_eq!(shown(&sum_values(&whole, &fpu, &reader)), "i6");
    assert_eq!(shown(&avg_values(&whole, &fpu, &reader)), "f2.0");
    let mixed = vec![Value2::Int(4), float(0.5), float(-2.0)];
    assert_eq!(shown(&sum_values(&mixed, &fpu, &reader)), "f2.5");
    assert_eq!(shown(&min_values(&mixed, &fpu, &reader)), "f-2.0");
    assert_eq!(shown(&max_values(&mixed, &fpu, &reader)), "f4.0");
    assert_eq!(shown(&max_values(&Vec::new(), &fpu, &reader)), "null");
}

#[test]
fn values_that_came_before_are_left_out() {
    let kept = keep_distinct(vec![Value2::Int(1), text("a"), Value2::Int(1), text("a"), Value2::Int(2)]);
    let kept: Vec<String> = kept.iter().map(shown).collect();
    assert_eq!(kept, ["i1", "sa", "i2"]);
}

#[test]
fn result_columns_are_typed_by_name() {
    assert!(infer_result_type("O_ORDERDATE", &vec![]) == ColType::Date);
    assert!(infer_result_type("nation", &vec![]) == ColType::String);
    assert!(infer_result_type("l_year", &vec![2.5f64.to_bits()]) == ColType::Int);
    assert!(infer_result_type("total", &vec![3, 0, 9]) == ColType::Int);
    assert!(infer_result_type("total", &vec![0, 0]) == ColType::Float);
    assert!(infer_result_type("total", &vec![3, 2.5f64.to_bits()]) == ColType::Float);
}

#[test]
fn one_cell_is_a_value() {
    let mut r = QueryResult::empty();
    assert_eq!(shown(&scalar_value(&r)), "f0.0");
    let column = ResultColumn { name: "n_count".to_string(), values: vec![12], string_values: None };
    assert!(r.push_column(column).is_ok());
    assert_eq!(shown(&scalar_value(&r)), "i12");
}

#[test]
fn numbers_are_read_and_written() {
    let chars = |s: &str| s.chars().collect::<Vec<char>>();
    assert_eq!(parse_u64(&chars("18446744073709551615")), Some(u64::MAX));
    assert_eq!(parse_u64(&chars("18446744073709551616")), None);
    assert_eq!(parse_i64(&chars("-9223372036854775808")), Some(i64::MIN));
    assert_eq!(parse_i64(&chars("-")), None);
    assert_eq!(decimal_chars(1070), chars("1070"));
    assert_eq!(signed_text(i64::MIN), "-9223372036854775808");
    assert_eq!(trim_chars("\t a b \n"), chars("a b"));
    assert_eq!(split_words("a  bc"), vec![chars("a"), chars("bc")]);
}
