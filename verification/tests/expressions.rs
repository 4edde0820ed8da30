//! Arithmetic expressions over table rows.

use morsel_engine::expr_eval::{eval_expr, is_arithmetic_expr, is_simple_column};
use morsel_engine::float_bits::FloatOp;
use morsel_engine::table::{LoadedColumn, LoadedTable, Table};

fn fpu(op: FloatOp, a: u64, b: u64) -> u64 {
    let (x, y) = (f64::from_bits(a), f64::from_bits(b));
    match op {
        FloatOp::Add => (x + y).to_bits(),
        FloatOp::Sub => (x - y).to_bits(),
        FloatOp::Mul => (x * y).to_bits(),
        FloatOp::Div => (x / y).to_bits(),
        FloatOp::Min => x.min(y).to_bits(),
        FloatOp::Max => x.max(y).to_bits(),
        FloatOp::FromU64 => (a as f64).to_bits(),
        FloatOp::FromI64 => (a as i64 as f64).to_bits(),
        FloatOp::ToI64 => (x as i64) as u64,
        FloatOp::ToU64 => x as u64,
        FloatOp::FusedDiscount => x.mul_add(-y, x).to_bits(),
        FloatOp::Pow => x.powf(y).to_bits(),
        FloatOp::Near => ((x - y).abs() < 1e-9) as u64,
        FloatOp::LinearCount => (-256.0 * (1.0 - a as f64 / 256.0).ln()).round() as u64,
    }
}

fn read(s: &str) -> Option<u64> {
    s.parse::<f64>().ok().map(|f| f.to_bits())
}

fn eval(expr: &str, table: &Table, row: usize) -> u64 {
    eval_expr(expr, table, row, &fpu, &read)
}

fn make_table() -> Table {
    Table::from_loaded(LoadedTable {
        name: "t".into(),
        columns: vec![
            LoadedColumn { name: "price".into(), cells: vec![100, 200, 300], row_count: 3, string_search: None },
            LoadedColumn { name: "discount".into(), cells: vec![10, 20, 30], row_count: 3, string_search: None },
        ],
        row_count: 3,
    })
}

#[test]
fn eval_simple_column() {
    let t = make_table();
    assert_eq!(eval("price", &t, 0), 100);
    assert_eq!(eval("price", &t, 1), 200);
}

#[test]
fn eval_integer_literal() {
    let t = make_table();
    assert_eq!(eval("42", &t, 0), 42);
}

#[test]
fn eval_addition() {
    let t = make_table();
    assert_eq!(eval("price + discount", &t, 0), 110);
}

#[test]
fn eval_multiplication() {
    let t = make_table();
    assert_eq!(eval("price * discount", &t, 0), 1000);
}

#[test]
fn eval_subtraction() {
    let t = make_table();
    assert_eq!(eval("price - discount", &t, 0), 90);
}

#[test]
fn eval_parentheses() {
    let t = make_table();
    assert_eq!(eval("( price - discount ) * 2", &t, 0), 180);
}

#[test]
fn eval_complex_expr() {
    let t = make_table();
    assert_eq!(eval("price * 2 + discount", &t, 0), 210);
}

#[test]
fn is_simple_column_check() {
    assert!(is_simple_column("price"));
    assert!(!is_simple_column("price * 2"));
}

#[test]
fn is_arithmetic_expr_check() {
    assert!(is_arithmetic_expr("price * 2"));
    assert!(is_arithmetic_expr("( a + b )"));
    assert!(!is_arithmetic_expr("price"));
}

#[test]
fn eval_edge_cases() {
    let t = make_table();
    assert_eq!(eval("", &t, 0), 0);
    assert_eq!(eval("   ", &t, 0), 0);
    assert_eq!(eval("missing", &t, 0), 0);
    assert_eq!(eval("price", &t, 3), 0);
    assert_eq!(eval("-1", &t, 0), u64::MAX);
    assert_eq!(eval("18446744073709551615", &t, 0), u64::MAX);
    assert_eq!(eval("18446744073709551616", &t, 0), 18446744073709551616f64.to_bits());
    assert_eq!(eval("2.5", &t, 0), 2.5f64.to_bits());
    assert_eq!(eval("price / 0", &t, 0), 0);
    assert_eq!(eval("price /", &t, 0), 0);
    assert_eq!(eval("( price + 1", &t, 0), 101);
    assert_eq!(eval("price + 1 )", &t, 0), 101);
    assert_eq!(eval("discount - price", &t, 0), 10u64.wrapping_sub(100));
    assert_eq!(eval("0.5 + 0.25", &t, 0), 0.75f64.to_bits());
    assert_eq!(eval("0.5 / 0.0", &t, 0), 0.5f64.to_bits().wrapping_sub(0.5f64.to_bits()));
    assert_eq!(eval("2.0 * 1.5 - 0.5", &t, 0), 2.5f64.to_bits());
    assert_eq!(eval("100 - 10 - 5", &t, 0), 85);
    assert_eq!(eval("100 / 10 / 5", &t, 0), 2);
}

#[test]
fn is_arithmetic_expr_looks_at_whole_words() {
    assert!(!is_arithmetic_expr("a+b"));
    assert!(!is_simple_column("a+b"));
    assert!(!is_simple_column(""));
}

#[test]
fn integers_beside_doubles_are_converted() {
    let t = make_table();
    assert_eq!(eval("100.0 * ( 1 - 0.25 )", &t, 0), 75.0f64.to_bits());
    assert_eq!(eval("price * 0.5", &t, 1), 100.0f64.to_bits());
    assert_eq!(eval("1 / 4.0", &t, 0), 0.25f64.to_bits());
    assert_eq!(eval("2.5 / 0", &t, 0), 0);
}

#[test]
fn outer_parentheses_make_no_difference() {
    let t = make_table();
    for e in ["price", "price + 1", "2 * ( price - discount ) / 3", "1 - 0.25 * ( 2 + 0.5 )"] {
        assert_eq!(eval(&format!("( {e} )"), &t, 1), eval(e, &t, 1));
    }
}
