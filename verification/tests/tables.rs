//! Tables in queries: names, filters, joins, groups and output.

use morsel_engine::error::Error;
use morsel_engine::float_bits::FloatOp;
use morsel_engine::hashing::hash_text;
use morsel_engine::row_sums::RowSum;
use morsel_engine::sql::ast::{BinOp2, ColType, Expr2, JoinType2, SelectItem2, SelectQuery2};
use morsel_engine::sql::dp::plan_join_dp;
use morsel_engine::sql::eval::{eval, Ctx};
use morsel_engine::sql::exec_table::{behind_dot, tpch_col_types, write_qualified, ExecTable};
use morsel_engine::sql::group::{execute_grouped, execute_scalar_agg, try_fused_grouped_agg};
use morsel_engine::sql::joins::{cross_join, find_join_keys, hash_join, hash_join_with_keys};
use morsel_engine::sql::masks::{build_mask, eval_bool_mask_vec};
use morsel_engine::sql::output::{apply_limit, apply_order_by, name_item, project};
use morsel_engine::sql::parser::parse_tpch;
use morsel_engine::sql::planning::{
    apply_single_table_filters, estimate_distinct, find_only_table, join_tables_greedy_core, join_tables_smart,
    split_conjuncts,
};
use morsel_engine::sql::shape::{col_in_mul_sub_one, expr_has_agg, list_leaves};
use morsel_engine::sql::source::{resolve_table, result_to_exec_table};
use morsel_engine::sql::value::Value2;
use morsel_engine::table::{Catalog, LoadedColumn, LoadedTable, QueryResult, StringSearchColumn, Table};

fn fpu(op: FloatOp, a: u64, b: u64) -> u64 {
    let x = f64::from_bits(a);
    let y = f64::from_bits(b);
    match op {
        FloatOp::Add => (x + y).to_bits(),
        FloatOp::Sub => (x - y).to_bits(),
        FloatOp::Mul => (x * y).to_bits(),
        FloatOp::Div => (x / y).to_bits(),
        FloatOp::Min => x.min(y).to_bits(),
        FloatOp::Max => x.max(y).to_bits(),
        FloatOp::FromU64 => (a as f64).to_bits(),
        FloatOp::FromI64 => (a as i64 as f64).to_bits(),
        FloatOp::ToI64 => x as i64 as u64,
        FloatOp::ToU64 => x as u64,
        FloatOp::FusedDiscount => (-x).mul_add(y, x).to_bits(),
        FloatOp::Pow => x.powf(y).to_bits(),
        FloatOp::Near => u64::from((x - y).abs() <= f64::EPSILON * x.abs().max(y.abs())),
        FloatOp::LinearCount => (-256.0 * (1.0 - a as f64 / 256.0).ln()).round() as u64,
    }
}

fn reader(s: &str) -> Option<u64> {
    s.parse::<f64>().ok().map(|x| x.to_bits())
}

fn show(bits: u64) -> String {
    format!("{:?}", f64::from_bits(bits))
}

fn summer(what: RowSum, a: &Vec<u64>, b: &Vec<u64>, c: &Vec<u64>, rows: &Vec<usize>) -> u64 {
    let mut sum = 0.0;
    for &i in rows {
        let x = f64::from_bits(a[i]);
        sum += match what {
            RowSum::Plain => x,
            RowSum::Product => x * f64::from_bits(b[i]),
            RowSum::Discounted => x * (1.0 - f64::from_bits(b[i])),
            RowSum::Charged => x * (1.0 - f64::from_bits(b[i])) * (1.0 + f64::from_bits(c[i])),
        };
    }
    sum.to_bits()
}

fn no_queries(_: &Expr2, _: &ExecTable, _: usize) -> Result<Value2, Error> {
    Err(Error::Unsupported("a query inside".to_string()))
}

type Plain = Ctx<
    'static,
    fn(FloatOp, u64, u64) -> u64,
    fn(&str) -> Option<u64>,
    fn(&Expr2, &ExecTable, usize) -> Result<Value2, Error>,
>;

const FPU: fn(FloatOp, u64, u64) -> u64 = fpu;
const READER: fn(&str) -> Option<u64> = reader;
const SUB: fn(&Expr2, &ExecTable, usize) -> Result<Value2, Error> = no_queries;

fn plain() -> Plain {
    Ctx::new(&FPU, &READER, &SUB, None)
}

fn column(name: &str, cells: Vec<u64>) -> LoadedColumn {
    LoadedColumn { name: name.to_string(), row_count: cells.len(), cells, string_search: None }
}

fn texts(name: &str, strings: &[&str]) -> LoadedColumn {
    LoadedColumn {
        name: name.to_string(),
        row_count: strings.len(),
        cells: strings.iter().map(|s| hash_text(s)).collect(),
        string_search: Some(StringSearchColumn::new(strings.iter().map(|s| s.to_string()).collect())),
    }
}

fn table(name: &str, columns: Vec<LoadedColumn>) -> Table {
    let row_count = columns[0].row_count;
    Table::from_loaded(LoadedTable { name: name.to_string(), columns, row_count })
}

fn nations() -> Table {
    table(
        "nation",
        vec![
            column("n_nationkey", vec![0, 1, 2, 3]),
            texts("n_name", &["FRANCE", "GERMANY", "INDIA", "CHINA"]),
            column("n_regionkey", vec![3, 3, 2, 2]),
            texts("n_comment", &["", "", "", ""]),
        ],
    )
}

fn regions() -> Table {
    table(
        "region",
        vec![
            column("r_regionkey", vec![2, 3, 4]),
            texts("r_name", &["ASIA", "EUROPE", "MIDDLE EAST"]),
            texts("r_comment", &["", "", ""]),
        ],
    )
}

fn supply() -> Table {
    let cost: Vec<u64> = [2.0f64, 0.5, 4.0, 1.5, 8.0].iter().map(|x| x.to_bits()).collect();
    table(
        "partsupp",
        vec![
            column("ps_partkey", vec![1, 1, 2, 2, 3]),
            column("ps_suppkey", vec![10, 11, 10, 12, 12]),
            column("ps_availqty", vec![5, 6, 7, 8, 9]),
            column("ps_supplycost", cost),
            texts("ps_comment", &["", "", "", "", ""]),
        ],
    )
}

fn read(sql: &str) -> SelectQuery2 {
    match parse_tpch(sql, &reader) {
        Ok(q) => q,
        Err(e) => panic!("refused: {}", e.what),
    }
}

fn condition(text: &str) -> Expr2 {
    match read(&format!("SELECT x FROM t WHERE {text}")).where_clause {
        Some(e) => e,
        None => panic!("no condition"),
    }
}

fn good<T>(r: Result<T, Error>) -> T {
    match r {
        Ok(x) => x,
        Err(e) => panic!("refused: {e:?}"),
    }
}

fn named(t: &ExecTable, name: &str) -> Vec<u64> {
    match t.lookup_col(name) {
        Some(c) => t.columns[c].clone(),
        None => panic!("no column {name}"),
    }
}

fn rows(r: &QueryResult) -> Vec<Vec<u64>> {
    (0..r.row_count).map(|i| r.columns.iter().map(|c| c.values[i]).collect()).collect()
}

#[test]
fn columns_go_by_their_own_and_by_full_names() {
    let t = ExecTable::from_catalog(&nations(), "n1");
    assert_eq!(t.lookup_col("n_name"), Some(1));
    assert_eq!(t.lookup_col("n1.n_name"), Some(1));
    assert_eq!(t.lookup_col("nation.n_name"), Some(1));
    assert_eq!(t.lookup_col("n2.name"), None);
    assert!(t.col_types == vec![ColType::Int, ColType::String, ColType::Int, ColType::String]);
    assert_eq!(write_qualified("n1", "n_name"), "n1.n_name");
    assert_eq!(behind_dot("n1.n_name"), Some("n_name".to_string()));
    assert_eq!(behind_dot("n_name"), None);
    assert_eq!(tpch_col_types("lineitem").len(), 16);
    assert_eq!(tpch_col_types("elsewhere").len(), 0);
}

#[test]
fn cells_are_read_by_the_type_of_their_column() {
    let t = ExecTable::from_catalog(&nations(), "n");
    assert!(matches!(t.get_value(1, 2), Value2::Str(s) if s == "INDIA"));
    assert!(matches!(t.get_value(0, 3), Value2::Int(3)));
    let s = ExecTable::from_catalog(&supply(), "ps");
    assert!(matches!(s.get_value(3, 1), Value2::Float(b) if b == 0.5f64.to_bits()));
    assert!(matches!(s.get_named("ps_availqty", 4), Some(Value2::Int(9))));
    assert!(s.get_named("missing", 0).is_none());
    let kept = s.filter_table(&vec![4, 0]);
    assert_eq!(kept.row_count, 2);
    assert_eq!(named(&kept, "ps_availqty"), vec![9, 5]);
}

#[test]
fn conditions_mark_rows() {
    let c = plain();
    let n = ExecTable::from_catalog(&nations(), "n");
    let s = ExecTable::from_catalog(&supply(), "ps");
    let on = |t: &ExecTable, text: &str| good(build_mask(&c, &condition(text), t));
    assert_eq!(on(&n, "n_name = 'INDIA'"), vec![false, false, true, false]);
    assert_eq!(on(&n, "n_name LIKE '%AN%'"), vec![true, true, false, false]);
    assert_eq!(on(&n, "n_name NOT LIKE '%AN%'"), vec![false, false, true, true]);
    assert_eq!(on(&n, "n_name IN ('CHINA', 'FRANCE')"), vec![true, false, false, true]);
    assert_eq!(on(&n, "n_regionkey = 3 AND NOT n_nationkey = 0"), vec![false, true, false, false]);
    assert_eq!(on(&s, "ps_supplycost BETWEEN 1.5 AND 4"), vec![true, false, true, true, false]);
    assert_eq!(on(&s, "ps_supplycost * 2 > ps_availqty"), vec![false, false, true, false, true]);
    assert_eq!(on(&s, "7 <= ps_availqty OR ps_suppkey = 11"), vec![false, true, true, true, true]);
    match build_mask(&c, &condition("missing = 1"), &n) {
        Err(Error::NotFound(_)) => {},
        other => panic!("{other:?}"),
    }
}

#[test]
fn a_condition_only_takes_rows_away() {
    let c = plain();
    let s = ExecTable::from_catalog(&supply(), "ps");
    let one = good(build_mask(&c, &condition("ps_availqty > 5"), &s));
    let both = good(build_mask(&c, &condition("ps_availqty > 5 AND ps_supplycost < 2"), &s));
    for i in 0..s.row_count {
        assert!(!both[i] || one[i]);
    }
    assert_eq!(both, vec![false, true, false, true, false]);
}

#[test]
fn pairs_of_nations_are_looked_up() {
    let c = plain();
    let left = ExecTable::from_catalog(&nations(), "n1");
    let right = ExecTable::from_catalog(&nations(), "n2");
    let all = good(cross_join(&left, &right));
    assert_eq!(all.row_count, 16);
    let e = condition(
        "(n1.n_name = 'FRANCE' AND n2.n_name = 'GERMANY') OR (n1.n_name = 'GERMANY' AND n2.n_name = 'FRANCE')",
    );
    let mask = good(build_mask(&c, &e, &all));
    let marked: Vec<usize> = (0..16).filter(|&i| mask[i]).collect();
    assert_eq!(marked, vec![1, 4]);
}

#[test]
fn rows_are_joined_by_their_keys() {
    let c = plain();
    let n = ExecTable::from_catalog(&nations(), "nation");
    let r = ExecTable::from_catalog(&regions(), "region");
    let e = condition("n_regionkey = r_regionkey");
    let keys = find_join_keys(&n, &r, &vec![&e]);
    assert_eq!(keys.len(), 1);
    let t = hash_join_with_keys(&n, &r, &keys, JoinType2::Inner);
    assert_eq!(named(&t, "n_nationkey"), vec![0, 1, 2, 3]);
    assert_eq!(named(&t, "r_regionkey"), vec![3, 3, 2, 2]);
    let on = good(hash_join(&c, &r, &n, &condition("r_regionkey = n_regionkey"), JoinType2::Left));
    assert_eq!(on.row_count, 5);
    assert_eq!(named(&on, "r_regionkey"), vec![2, 2, 3, 3, 4]);
    assert_eq!(named(&on, "n_nationkey"), vec![2, 3, 0, 1, 0]);
}

#[test]
fn tables_are_joined_whatever_the_way() {
    let c = plain();
    let q = read("SELECT n_name FROM nation, region WHERE n_regionkey = r_regionkey AND r_name = 'ASIA'");
    let tables = || {
        vec![ExecTable::from_catalog(&nations(), "nation"), ExecTable::from_catalog(&regions(), "region")]
    };
    let es = split_conjuncts(&q.where_clause);
    assert_eq!(es.len(), 2);
    assert_eq!(find_only_table(es[0], &tables()), None);
    assert_eq!(find_only_table(es[1], &tables()), Some(1));
    let sifted = good(apply_single_table_filters(&c, tables(), &es));
    assert_eq!(sifted[0].row_count, 4);
    assert_eq!(sifted[1].row_count, 1);
    let greedy = good(join_tables_greedy_core(&fpu, sifted, &es));
    let best = good(plan_join_dp(&c, tables(), &q.where_clause));
    let smart = good(join_tables_smart(&c, tables(), &q.where_clause));
    for t in [&greedy, &best, &smart] {
        let mut keys = named(t, "n_nationkey");
        keys.sort();
        assert_eq!(keys, vec![2, 3]);
    }
}

#[test]
fn distinct_cells_are_estimated() {
    let all: Vec<u64> = (0..100).collect();
    let guess = estimate_distinct(&all, 100, &fpu);
    assert!((70..=130).contains(&guess));
    assert_eq!(estimate_distinct(&vec![4; 50], 50, &fpu), 1);
}

#[test]
fn groups_are_summed_up() {
    let c = plain();
    let s = ExecTable::from_catalog(&supply(), "ps");
    let q = read(
        "SELECT ps_suppkey, count(*) AS n, sum(ps_supplycost) AS cost, max(ps_availqty) AS most FROM partsupp GROUP BY ps_suppkey HAVING count(*) > 1",
    );
    let r = good(execute_grouped(&c, &summer, &show, &q, &s, &vec![true; 5]));
    let mut got = rows(&r);
    got.sort();
    assert_eq!(got, vec![vec![10, 2, 6.0f64.to_bits(), 7], vec![12, 2, 9.5f64.to_bits(), 9]]);
    let all = read("SELECT count(*) AS n, avg(ps_supplycost) AS mean, min(ps_availqty) FROM partsupp");
    let r = good(execute_scalar_agg(&c, &all.select, &s, &vec![0, 1, 2, 3], &show));
    assert_eq!(rows(&r), vec![vec![4, 2.0f64.to_bits(), 5]]);
    assert_eq!(r.columns[2].name, "min");
}

#[test]
fn grouping_columns_keep_their_cells() {
    let c = plain();
    let s = ExecTable::from_catalog(&supply(), "ps");
    let q = read("SELECT ps_partkey, ps_suppkey, sum(ps_supplycost) AS cost FROM partsupp GROUP BY ps_partkey, ps_suppkey");
    let r = good(execute_grouped(&c, &summer, &show, &q, &s, &vec![true; 5]));
    let mut got: Vec<(u64, u64)> = rows(&r).iter().map(|row| (row[0], row[1])).collect();
    got.sort();
    assert_eq!(got, vec![(1, 10), (1, 11), (2, 10), (2, 12), (3, 12)]);
}

#[test]
fn no_groups_give_empty_columns() {
    let s = ExecTable::from_catalog(&supply(), "ps");
    let q = read("SELECT ps_partkey + 1, ps_suppkey FROM partsupp");
    let r = try_fused_grouped_agg(&q.select, &s, &Vec::new(), &fpu, &summer);
    assert_eq!(r, Some(vec![Vec::new(), Vec::new()]));
    assert_eq!(try_fused_grouped_agg(&q.select, &s, &vec![vec![0]], &fpu, &summer), None);
}

#[test]
fn a_narrowed_mask_is_the_old_one_and_the_full_one() {
    let c = plain();
    let s = ExecTable::from_catalog(&supply(), "ps");
    let e = condition("ps_availqty > 7 OR ps_suppkey = 10 AND ps_supplycost < 3");
    let full = good(eval_bool_mask_vec(&c, &e, &s, &vec![true; 5]));
    assert_eq!(full, vec![true, false, false, true, true]);
    let mask = vec![true, true, false, false, true];
    let both: Vec<bool> = (0..5).map(|i| mask[i] && full[i]).collect();
    assert_eq!(good(eval_bool_mask_vec(&c, &e, &s, &mask)), both);
    let longer = vec![true, true, false, false, true, true, false];
    assert_eq!(good(eval_bool_mask_vec(&c, &e, &s, &longer)), vec![true, false, false, false, true, true, false]);
}

#[test]
fn patterns_are_seen_through() {
    let s = ExecTable::from_catalog(&supply(), "ps");
    let e = condition("ps_supplycost * (1 - ps_availqty)");
    assert_eq!(col_in_mul_sub_one(&e, &s), Some((3, 2)));
    assert_eq!(list_leaves(&e).len(), 3);
    assert!(!expr_has_agg(&e));
    assert!(expr_has_agg(&condition("1 + sum(ps_availqty) > 2")));
}

#[test]
fn rows_are_put_out_in_order() {
    let c = plain();
    let s = ExecTable::from_catalog(&supply(), "ps");
    let q = read("SELECT ps_suppkey AS who, ps_supplycost FROM partsupp ORDER BY who DESC, ps_supplycost");
    let all = vec![0, 1, 2, 3, 4];
    let r = project(&c, &q.select, &s, &all, &show);
    let r = apply_order_by(&c, &r, &q.order_by, &s, &all, &show);
    assert_eq!(r.columns[0].values, vec![12, 12, 11, 10, 10]);
    assert_eq!(r.columns[1].values[0], 1.5f64.to_bits());
    let r = apply_limit(r, Some(2));
    assert_eq!(r.row_count, 2);
    assert_eq!(r.columns[0].values, vec![12, 12]);
    let item = SelectItem2 { expr: Expr2::Float(2.5f64.to_bits()), alias: None };
    assert_eq!(name_item(&item, &show), "2.5");
    assert_eq!(name_item(&q.select[0], &show), "who");
}

#[test]
fn expressions_have_values() {
    let c = plain();
    let s = ExecTable::from_catalog(&supply(), "ps");
    let on = |text: &str, row| eval(&c, &condition(text), &s, row);
    assert!(matches!(on("CASE WHEN ps_availqty > 6 THEN 1 ELSE 0 END", 2), Ok(Value2::Int(1))));
    assert!(matches!(on("CASE WHEN ps_availqty > 6 THEN 1 END", 0), Ok(Value2::Int(0)) | Ok(Value2::Null)));
    assert!(matches!(on("-ps_availqty", 0), Ok(Value2::Int(-5))));
    assert!(matches!(on("EXISTS (SELECT x FROM t)", 0), Err(Error::Unsupported(_))));
    let e = Expr2::BinOp {
        op: BinOp2::Add,
        left: Box::new(Expr2::Col("ps_partkey".to_string())),
        right: Box::new(Expr2::Int(4)),
    };
    assert!(matches!(eval(&c, &e, &s, 4), Ok(Value2::Int(7))));
}

#[test]
fn tables_are_found_by_name() {
    let mut catalog = Catalog::new();
    catalog.register(regions());
    let t = good(resolve_table(&catalog, "region", "r"));
    assert_eq!(t.lookup_col("r.r_name"), Some(1));
    match resolve_table(&catalog, "orders", "o") {
        Err(Error::NotFound(m)) => assert!(m.contains("orders")),
        other => panic!("{:?}", other.err()),
    }
    catalog.register(table("thing", vec![column("k", vec![1]), column("l", vec![2])]));
    let t = good(resolve_table(&catalog, "thing", "t"));
    assert!(t.col_types == vec![ColType::Int, ColType::Int]);
}

#[test]
fn a_result_is_a_table() {
    let c = plain();
    let s = ExecTable::from_catalog(&supply(), "ps");
    let q = read("SELECT ps_partkey AS p_partkey, ps_supplycost AS cost FROM partsupp");
    let r = project(&c, &q.select, &s, &vec![4, 3], &show);
    let t = result_to_exec_table(&r, "d");
    assert_eq!(named(&t, "d.p_partkey"), vec![3, 2]);
    assert!(t.col_types == vec![ColType::Int, ColType::Float]);
}
