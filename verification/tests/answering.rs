//! Queries that are read and answered.

use morsel_engine::cell_index::MIX;
use morsel_engine::error::Error;
use morsel_engine::float_bits::FloatOp;
use morsel_engine::hashing::hash_text;
use morsel_engine::row_sums::RowSum;
use morsel_engine::sql::ast::{Expr2, SelectQuery2};
use morsel_engine::sql::engine::{answer_at, value_of_nested, Engine};
use morsel_engine::sql::entry::parse_and_execute;
use morsel_engine::sql::eval::Ctx;
use morsel_engine::sql::exec_table::ExecTable;
use morsel_engine::sql::nested::{plan_nested, NestedPlan};
use morsel_engine::sql::query::Answerer;
use morsel_engine::sql::value::Value2;
use morsel_engine::table::{Catalog, LoadedColumn, LoadedTable, QueryResult, StringSearchColumn, Table};

fn fpu(op: FloatOp, a: u64, b: u64) -> u64 {
    let x = f64::from_bits(a);
    let y = f64::from_bits(b);
    match op {
        FloatOp::Add => (x + y).to_bits(),
        FloatOp::Sub => (x - y).to_bits(),
        FloatOp::Mul => (x * y).to_bits(),
        FloatOp::Div => (x / y).to_bits(),
        FloatOp::Min => x.min(y).to_bits(),
        FloatOp::Max => x.max(y).to_bits(),
        FloatOp::FromU64 => (a as f64).to_bits(),
        FloatOp::FromI64 => (a as i64 as f64).to_bits(),
        FloatOp::ToI64 => x as i64 as u64,
        FloatOp::ToU64 => x as u64,
        FloatOp::FusedDiscount => (-x).mul_add(y, x).to_bits(),
        FloatOp::Pow => x.powf(y).to_bits(),
        FloatOp::Near => u64::from((x - y).abs() <= f64::EPSILON * x.abs().max(y.abs())),
        FloatOp::LinearCount => (-256.0 * (1.0 - a as f64 / 256.0).ln()).round() as u64,
    }
}

fn reader(s: &str) -> Option<u64> {
    s.parse::<f64>().ok().map(|x| x.to_bits())
}

fn show(bits: u64) -> String {
    format!("{:?}", f64::from_bits(bits))
}

fn summer(what: RowSum, a: &Vec<u64>, b: &Vec<u64>, c: &Vec<u64>, rows: &Vec<usize>) -> u64 {
    let mut sum = 0.0;
    for &i in rows {
        let x = f64::from_bits(a[i]);
        sum += match what {
            RowSum::Plain => x,
            RowSum::Product => x * f64::from_bits(b[i]),
            RowSum::Discounted => x * (1.0 - f64::from_bits(b[i])),
            RowSum::Charged => x * (1.0 - f64::from_bits(b[i])) * (1.0 + f64::from_bits(c[i])),
        };
    }
    sum.to_bits()
}

fn answer(catalog: &Catalog, sql: &str) -> Result<QueryResult, Error> {
    parse_and_execute(&Engine { catalog, fpu: &fpu, reader: &reader, summer: &summer, show: &show }, sql)
}

/// A cell of a table.
#[derive(Clone, Copy)]
enum C {
    I(i64),
    F(f64),
    S(&'static str),
}

fn cell(c: C) -> u64 {
    match c {
        C::I(i) => i as u64,
        C::F(x) => x.to_bits(),
        C::S(s) => hash_text(s),
    }
}

/// Rows in some fixed order.
fn sorted(mut rows: Vec<Vec<u64>>) -> Vec<Vec<u64>> {
    rows.sort();
    rows
}

fn rows_of(r: &QueryResult) -> Vec<Vec<u64>> {
    (0..r.row_count).map(|i| r.columns.iter().map(|c| c.values[i]).collect()).collect()
}

fn check(r: Result<QueryResult, Error>, names: &[&str], want: &[&[C]]) {
    let r = match r {
        Ok(r) => r,
        Err(e) => panic!("refused: {e:?}"),
    };
    let got: Vec<&str> = r.columns.iter().map(|c| c.name.as_str()).collect();
    assert_eq!(got, names);
    let want: Vec<Vec<u64>> = want.iter().map(|row| row.iter().map(|&c| cell(c)).collect()).collect();
    assert_eq!(sorted(rows_of(&r)), sorted(want));
}

/// A column of a table that is being made.
struct Made {
    name: &'static str,
    cells: Vec<u64>,
    texts: Option<Vec<String>>,
}

fn ints(name: &'static str) -> Made {
    Made { name, cells: Vec::new(), texts: None }
}

fn texts(name: &'static str) -> Made {
    Made { name, cells: Vec::new(), texts: Some(Vec::new()) }
}

fn put(m: &mut Made, v: u64) {
    m.cells.push(v);
}

fn put_text(m: &mut Made, s: &str) {
    m.cells.push(hash_text(s));
    if let Some(t) = &mut m.texts {
        t.push(s.to_string());
    }
}

fn table(name: &str, columns: Vec<Made>) -> Table {
    let row_count = columns[0].cells.len();
    let columns = columns
        .into_iter()
        .map(|m| LoadedColumn {
            name: m.name.to_string(),
            cells: m.cells,
            row_count,
            string_search: m.texts.map(StringSearchColumn::new),
        })
        .collect();
    Table::from_loaded(LoadedTable { name: name.to_string(), columns, row_count })
}

/// Numbers that look random but are the same each time.
struct Dice {
    state: u64,
}

impl Dice {
    fn roll(&mut self, sides: u64) -> u64 {
        self.state = self.state.wrapping_mul(6364136223846793005).wrapping_add(1442695040888963407);
        (self.state >> 33) % sides
    }

    fn pick<'a>(&mut self, of: &[&'a str]) -> &'a str {
        of[self.roll(of.len() as u64) as usize]
    }

    fn quarters(&mut self, sides: u64, less: i64) -> u64 {
        ((self.roll(sides) as i64 - less) as f64 / 4.0).to_bits()
    }

    fn sixteenths(&mut self) -> u64 {
        (self.roll(3) as f64 / 16.0).to_bits()
    }
}

const REGIONS: [&str; 5] = ["AFRICA", "AMERICA", "ASIA", "EUROPE", "MIDDLE EAST"];
const NATIONS: [(&str, u64); 8] = [
    ("ALGERIA", 0),
    ("BRAZIL", 1),
    ("CANADA", 1),
    ("FRANCE", 3),
    ("GERMANY", 3),
    ("INDIA", 2),
    ("CHINA", 2),
    ("SAUDI ARABIA", 4),
];

fn warehouse() -> Catalog {
    let mut dice = Dice { state: 20260731 };
    let mut catalog = Catalog::new();

    let mut t = vec![ints("r_regionkey"), texts("r_name"), texts("r_comment")];
    for (i, name) in REGIONS.iter().enumerate() {
        put(&mut t[0], i as u64);
        put_text(&mut t[1], name);
        put_text(&mut t[2], "");
    }
    catalog.register(table("region", t));

    let mut t = vec![ints("n_nationkey"), texts("n_name"), ints("n_regionkey"), texts("n_comment")];
    for (i, (name, region)) in NATIONS.iter().enumerate() {
        put(&mut t[0], i as u64);
        put_text(&mut t[1], name);
        put(&mut t[2], *region);
        put_text(&mut t[3], "");
    }
    catalog.register(table("nation", t));

    let mut t = vec![
        ints("s_suppkey"),
        texts("s_name"),
        texts("s_address"),
        ints("s_nationkey"),
        texts("s_phone"),
        ints("s_acctbal"),
        texts("s_comment"),
    ];
    for i in 0..12 {
        put(&mut t[0], i + 1);
        put_text(&mut t[1], &format!("Supplier#{}", i + 1));
        put_text(&mut t[2], &format!("Street {}", i + 1));
        put(&mut t[3], dice.roll(8));
        put_text(&mut t[4], &format!("10-{i}"));
        put(&mut t[5], dice.quarters(8000, 1000));
        put_text(&mut t[6], &format!("s{i}"));
    }
    catalog.register(table("supplier", t));

    let mut t = vec![
        ints("c_custkey"),
        texts("c_name"),
        texts("c_address"),
        ints("c_nationkey"),
        texts("c_phone"),
        ints("c_acctbal"),
        texts("c_mktsegment"),
        texts("c_comment"),
    ];
    for i in 0..25 {
        put(&mut t[0], i + 1);
        put_text(&mut t[1], &format!("Customer#{}", i + 1));
        put_text(&mut t[2], &format!("Road {}", i + 1));
        put(&mut t[3], dice.roll(8));
        let code = dice.pick(&["13", "31", "23", "29", "30", "18", "17", "99"]);
        put_text(&mut t[4], &format!("{code}-555-{i}"));
        put(&mut t[5], dice.quarters(6000, 1000));
        put_text(&mut t[6], dice.pick(&["BUILDING", "AUTOMOBILE", "MACHINERY"]));
        put_text(&mut t[7], &format!("c{i}"));
    }
    catalog.register(table("customer", t));

    let mut t = vec![
        ints("p_partkey"),
        texts("p_name"),
        texts("p_mfgr"),
        texts("p_brand"),
        texts("p_type"),
        ints("p_size"),
        texts("p_container"),
        ints("p_retailprice"),
        texts("p_comment"),
    ];
    for i in 0..40 {
        put(&mut t[0], i + 1);
        put_text(&mut t[1], dice.pick(&["forest green", "green almond", "blue sky", "forest moss", "red hat"]));
        put_text(&mut t[2], "Maker");
        put_text(&mut t[3], dice.pick(&["Brand#12", "Brand#23", "Brand#34", "Brand#45"]));
        put_text(
            &mut t[4],
            dice.pick(&["PROMO BURNISHED BRASS", "ECONOMY ANODIZED STEEL", "MEDIUM POLISHED TIN", "STANDARD BRASS"]),
        );
        let sizes = [1, 3, 5, 9, 14, 15];
        put(&mut t[5], sizes[dice.roll(6) as usize]);
        put_text(&mut t[6], dice.pick(&["SM CASE", "MED BOX", "LG CASE", "SM BOX", "MED BAG", "LG BOX"]));
        put(&mut t[7], dice.quarters(4000, 0));
        put_text(&mut t[8], "");
    }
    catalog.register(table("part", t));

    let mut t = vec![
        ints("ps_partkey"),
        ints("ps_suppkey"),
        ints("ps_availqty"),
        ints("ps_supplycost"),
        texts("ps_comment"),
    ];
    for i in 0..40 {
        for k in 0..3 {
            put(&mut t[0], i + 1);
            put(&mut t[1], (i + k * 4) % 12 + 1);
            put(&mut t[2], dice.roll(100));
            put(&mut t[3], dice.quarters(400, 0));
            put_text(&mut t[4], "");
        }
    }
    catalog.register(table("partsupp", t));

    let mut t = vec![
        ints("o_orderkey"),
        ints("o_custkey"),
        texts("o_orderstatus"),
        ints("o_totalprice"),
        ints("o_orderdate"),
        texts("o_orderpriority"),
        texts("o_clerk"),
        ints("o_shippriority"),
        texts("o_comment"),
    ];
    let mut l = vec![
        ints("l_orderkey"),
        ints("l_partkey"),
        ints("l_suppkey"),
        ints("l_linenumber"),
        ints("l_quantity"),
        ints("l_extendedprice"),
        ints("l_discount"),
        ints("l_tax"),
        texts("l_returnflag"),
        texts("l_linestatus"),
        ints("l_shipdate"),
        ints("l_commitdate"),
        ints("l_receiptdate"),
        texts("l_shipinstruct"),
        texts("l_shipmode"),
        texts("l_comment"),
    ];
    for i in 0..200 {
        put(&mut t[0], i + 1);
        put(&mut t[1], dice.roll(22) + 1);
        put_text(&mut t[2], dice.pick(&["F", "O"]));
        put(&mut t[3], dice.quarters(4000, 0));
        let ordered = 8401 + dice.roll(1461);
        put(&mut t[4], ordered);
        put_text(&mut t[5], dice.pick(&["1-URGENT", "2-HIGH", "3-MEDIUM", "4-NOT SPECIFIED", "5-LOW"]));
        put_text(&mut t[6], "");
        put(&mut t[7], 0);
        put_text(
            &mut t[8],
            dice.pick(&["", "special requests", "special packages requests", "requests special", "quick"]),
        );
        let mut used = Vec::new();
        for _ in 0..1 + dice.roll(8) {
            let part = dice.roll(40) + 1;
            let supplier = (part - 1 + dice.roll(3) * 4) % 12 + 1;
            let quantity = (1 + dice.roll(60)) as f64;
            let price = dice.quarters(8000, 0);
            let discount = dice.sixteenths();
            let tax = dice.sixteenths();
            let flag = dice.pick(&["R", "A", "N"]);
            let shipped = ordered + dice.roll(120);
            let committed = ordered + 30 + dice.roll(60);
            let received = shipped + 1 + dice.roll(30);
            let instruct = dice.pick(&["DELIVER IN PERSON", "NONE"]);
            let mode = dice.pick(&["AIR", "AIR REG", "MAIL", "SHIP", "RAIL"]);
            if used.contains(&supplier) {
                continue;
            }
            used.push(supplier);
            put(&mut l[0], i + 1);
            put(&mut l[1], part);
            put(&mut l[2], supplier);
            put(&mut l[3], used.len() as u64);
            put(&mut l[4], quantity.to_bits());
            put(&mut l[5], price);
            put(&mut l[6], discount);
            put(&mut l[7], tax);
            put_text(&mut l[8], flag);
            put_text(&mut l[9], "O");
            put(&mut l[10], shipped);
            put(&mut l[11], committed);
            put(&mut l[12], received);
            put_text(&mut l[13], instruct);
            put_text(&mut l[14], mode);
            put_text(&mut l[15], "");
        }
    }
    catalog.register(table("orders", t));
    catalog.register(table("lineitem", l));
    catalog
}

#[test]
fn totals_by_flag() {
    let sql = "SELECT l_returnflag, sum(l_quantity) AS qty, sum(l_extendedprice) AS price FROM lineitem WHERE l_shipdate <= date '1995-06-17' GROUP BY l_returnflag";
    check(
        answer(&warehouse(), sql),
        &["l_returnflag", "qty", "price"],
        &[
            &[C::S("A"), C::F(4320.0), C::F(134695.25)],
            &[C::S("N"), C::F(4628.0), C::F(144992.25)],
            &[C::S("R"), C::F(4694.0), C::F(168545.0)],
        ],
    );
}

#[test]
fn a_sum_over_a_range() {
    let sql = "SELECT sum(l_extendedprice * l_discount) AS revenue FROM lineitem WHERE l_shipdate >= date '1994-01-01' AND l_shipdate < date '1995-01-01' AND l_discount BETWEEN 0.05 AND 0.07 AND l_quantity < 24";
    check(
        answer(&warehouse(), sql),
        &["revenue"],
        &[
            &[C::F(1655.46875)],
        ],
    );
}

#[test]
fn four_tables_are_joined_in_the_best_order() {
    let sql = "SELECT n_name, count(*) AS many FROM nation, region, supplier, customer WHERE n_regionkey = r_regionkey AND s_nationkey = n_nationkey AND c_nationkey = n_nationkey AND r_name <> 'ASIA' GROUP BY n_name";
    check(
        answer(&warehouse(), sql),
        &["n_name", "many"],
        &[
            &[C::S("ALGERIA"), C::I(15)],
            &[C::S("BRAZIL"), C::I(2)],
            &[C::S("CANADA"), C::I(4)],
            &[C::S("FRANCE"), C::I(6)],
            &[C::S("GERMANY"), C::I(2)],
            &[C::S("SAUDI ARABIA"), C::I(6)],
        ],
    );
}

#[test]
fn customers_without_orders() {
    let sql = "SELECT c_custkey FROM customer WHERE NOT EXISTS (SELECT 1 FROM orders WHERE o_custkey = c_custkey)";
    check(
        answer(&warehouse(), sql),
        &["c_custkey"],
        &[
            &[C::I(23)],
            &[C::I(24)],
            &[C::I(25)],
        ],
    );
}

#[test]
fn parts_of_large_lines() {
    let sql = "SELECT p_partkey FROM part WHERE p_partkey IN (SELECT l_partkey FROM lineitem WHERE l_quantity > 58)";
    check(
        answer(&warehouse(), sql),
        &["p_partkey"],
        &[
            &[C::I(1)],
            &[C::I(5)],
            &[C::I(7)],
            &[C::I(8)],
            &[C::I(10)],
            &[C::I(12)],
            &[C::I(13)],
            &[C::I(16)],
            &[C::I(18)],
            &[C::I(21)],
            &[C::I(26)],
            &[C::I(29)],
            &[C::I(31)],
            &[C::I(32)],
            &[C::I(34)],
            &[C::I(37)],
            &[C::I(38)],
        ],
    );
}

#[test]
fn orders_above_the_average() {
    let sql = "SELECT o_orderkey FROM orders WHERE o_totalprice > (SELECT avg(o_totalprice) FROM orders WHERE o_orderstatus = 'F') AND o_custkey = 5";
    check(
        answer(&warehouse(), sql),
        &["o_orderkey"],
        &[
            &[C::I(19)],
            &[C::I(33)],
            &[C::I(82)],
            &[C::I(85)],
            &[C::I(95)],
            &[C::I(109)],
            &[C::I(151)],
            &[C::I(175)],
        ],
    );
}

#[test]
fn parts_dearer_than_their_supply() {
    let sql = "SELECT p_partkey FROM part WHERE p_retailprice > (SELECT avg(ps_supplycost) * 15 FROM partsupp WHERE ps_partkey = p_partkey)";
    check(
        answer(&warehouse(), sql),
        &["p_partkey"],
        &[
            &[C::I(1)],
            &[C::I(5)],
            &[C::I(7)],
            &[C::I(9)],
            &[C::I(13)],
            &[C::I(14)],
            &[C::I(20)],
            &[C::I(23)],
            &[C::I(26)],
            &[C::I(32)],
            &[C::I(33)],
            &[C::I(36)],
            &[C::I(37)],
        ],
    );
}

#[test]
fn lines_with_a_rival() {
    let sql = "SELECT l1.l_orderkey FROM lineitem l1 WHERE l1.l_quantity = 60 AND EXISTS (SELECT 1 FROM lineitem l2 WHERE l2.l_orderkey = l1.l_orderkey AND l2.l_suppkey <> l1.l_suppkey)";
    check(
        answer(&warehouse(), sql),
        &["l1.l_orderkey"],
        &[
            &[C::I(11)],
            &[C::I(60)],
            &[C::I(60)],
            &[C::I(142)],
            &[C::I(146)],
            &[C::I(159)],
            &[C::I(176)],
            &[C::I(180)],
            &[C::I(182)],
            &[C::I(196)],
        ],
    );
}

#[test]
fn customers_with_none_are_kept() {
    let sql = "SELECT c_custkey, count(o_orderkey) AS many FROM customer LEFT OUTER JOIN orders ON c_custkey = o_custkey WHERE c_custkey > 20 GROUP BY c_custkey";
    check(
        answer(&warehouse(), sql),
        &["c_custkey", "many"],
        &[
            &[C::I(21), C::I(7)],
            &[C::I(22), C::I(7)],
            &[C::I(23), C::I(0)],
            &[C::I(24), C::I(0)],
            &[C::I(25), C::I(0)],
        ],
    );
}

#[test]
fn rows_come_in_the_order_asked_for() {
    let r = match answer(&warehouse(), "SELECT s_suppkey, s_acctbal FROM supplier ORDER BY s_acctbal DESC LIMIT 4") {
        Ok(r) => r,
        Err(e) => panic!("{e:?}"),
    };
    assert_eq!(r.row_count, 4);
    let balances: Vec<f64> = r.columns[1].values.iter().map(|&b| f64::from_bits(b)).collect();
    assert!(balances.windows(2).all(|w| w[0] >= w[1]));
    let all = match answer(&warehouse(), "SELECT s_acctbal FROM supplier") {
        Ok(r) => r,
        Err(e) => panic!("{e:?}"),
    };
    let most = all.columns[0].values.iter().map(|&b| f64::from_bits(b)).fold(f64::MIN, f64::max);
    assert_eq!(balances[0], most);
}

#[test]
fn a_query_may_stand_for_a_table() {
    check(
        answer(
            &warehouse(),
            "SELECT sum(many) AS total FROM (SELECT n_regionkey, count(*) AS many FROM nation GROUP BY n_regionkey) AS d",
        ),
        &["total"],
        &[&[C::I(8)]],
    );
}

#[test]
fn unknown_names_are_refused() {
    let w = warehouse();
    assert!(matches!(answer(&w, "SELECT x FROM planet"), Err(Error::NotFound(m)) if m == "table 'planet'"));
    assert!(matches!(answer(&w, "SELECT r_name FROM region WHERE moons > 1"), Err(Error::NotFound(m)) if m == "column 'moons'"));
    let refused = |sql: &str| match answer(&w, sql) {
        Err(Error::Parse(m)) => m,
        other => panic!("{other:?}"),
    };
    assert_eq!(refused("SELECT r_name"), "expected keyword FROM, got EOF");
    assert_eq!(refused("SELECT , FROM region"), "expected expression, got Comma");
    assert_eq!(refused("UPDATE region"), "expected keyword SELECT, got Ident(\"UPDATE\")");
    assert_eq!(refused("SELECT (r_name FROM region"), "expected ')', got Keyword(\"FROM\")");
    assert_eq!(refused("SELECT r_name FROM region LIMIT 1.5"), "expected integer, got Float(1.5)");
    assert_eq!(refused("SELECT r_name FROM region 'a\"b'"), "unexpected trailing token: String(\"a\\\"b\")");
    assert_eq!(refused("SELECT median(r_name) FROM region"), "unsupported aggregate: MEDIAN");
    assert_eq!(refused("SELECT DATE 5 FROM region"), "expected string after DATE");
    assert_eq!(refused("SELECT 'open FROM region"), "unterminated string");
}

#[test]
fn tables_beside_the_schema_hold_integers() {
    let mut w = Catalog::new();
    let mut t = vec![ints("k")];
    put(&mut t[0], 7);
    w.register(table("thing", t));
    check(answer(&w, "SELECT count(*) FROM thing"), &["count"], &[&[C::I(1)]]);
    check(answer(&w, "SELECT k FROM thing"), &["k"], &[&[C::I(7)]]);
}

#[test]
fn rows_with_one_hash_are_told_apart() {
    let mut w = Catalog::new();
    let mut t = vec![ints("k"), ints("l")];
    for (k, l) in [(0, MIX), (1, 0), (0, MIX)] {
        put(&mut t[0], k);
        put(&mut t[1], l);
    }
    w.register(table("pair", t));
    let mut t = vec![ints("a"), ints("b")];
    put(&mut t[0], 1);
    put(&mut t[1], 0);
    w.register(table("other", t));
    check(
        answer(&w, "SELECT k, l, count(*) FROM pair GROUP BY k, l"),
        &["k", "l", "count"],
        &[&[C::I(0), C::I(MIX as i64), C::I(2)], &[C::I(1), C::I(0), C::I(1)]],
    );
    check(
        answer(&w, "SELECT k, l FROM pair, other WHERE k = a AND l = b"),
        &["k", "l"],
        &[&[C::I(1), C::I(0)]],
    );
    check(
        answer(&w, "SELECT k, l FROM pair JOIN other ON k = a AND l = b"),
        &["k", "l"],
        &[&[C::I(1), C::I(0)]],
    );
}

#[test]
fn rows_are_joined_on_every_key() {
    let left = ["a0", "a1", "a2", "a3", "a4", "a5", "a6", "a7", "a8"];
    let right = ["b0", "b1", "b2", "b3", "b4", "b5", "b6", "b7", "b8"];
    let mut w = Catalog::new();
    for (name, names) in [("left_keys", left), ("right_keys", right)] {
        let mut t: Vec<Made> = names.into_iter().map(ints).collect();
        for last in [1, 2, 3] {
            for k in 0..8 {
                put(&mut t[k], k as u64);
            }
            put(&mut t[8], if name == "left_keys" { last } else { last + 1 });
        }
        w.register(table(name, t));
    }
    let keys: Vec<String> = left.iter().zip(right).map(|(a, b)| format!("{a} = {b}")).collect();
    let sql = format!("SELECT a8, b8 FROM left_keys, right_keys WHERE {}", keys.join(" AND "));
    check(answer(&w, &sql), &["a8", "b8"], &[&[C::I(2), C::I(2)], &[C::I(3), C::I(3)]]);
}

fn read(sql: &str) -> SelectQuery2 {
    match morsel_engine::sql::parser::parse_tpch(sql, &reader) {
        Ok(q) => q,
        Err(e) => panic!("{e:?}"),
    }
}

fn customers(w: &Catalog) -> ExecTable {
    match w.get("customer") {
        Some(t) => ExecTable::from_catalog(t, "customer"),
        None => panic!("no customers"),
    }
}

#[test]
fn nested_queries_are_planned() {
    let w = warehouse();
    let m = Engine { catalog: &w, fpu: &fpu, reader: &reader, summer: &summer, show: &show };
    let t = customers(&w);
    let sub = |e: &Expr2, t: &ExecTable, row: usize| value_of_nested(&m, 9, None, e, t, row);
    let reply = |q: &SelectQuery2, o: Option<(&ExecTable, usize)>| answer_at(&m, 9, o, q);
    let c = Ctx::new(&fpu, &reader, &sub, None);
    let answerer = Answerer::new(&reply);
    let e = read("SELECT 1 FROM customer WHERE EXISTS (SELECT 1 FROM orders WHERE o_custkey = c_custkey)").where_clause.unwrap();
    assert!(matches!(plan_nested(&c, &w, &answerer, &e, &t), Ok(NestedPlan::ByKey { col: 0, .. })));
    let e = read("SELECT 1 FROM customer WHERE c_custkey IN (SELECT o_custkey FROM orders)").where_clause.unwrap();
    assert!(matches!(plan_nested(&c, &w, &answerer, &e, &t), Ok(NestedPlan::Cells(cells)) if cells.len() == 200));
    let e = read("SELECT 1 FROM customer WHERE c_acctbal > (SELECT avg(o_totalprice) FROM orders WHERE o_custkey = c_custkey)");
    let right = match e.where_clause.unwrap() {
        Expr2::BinOp { right, .. } => *right,
        other => panic!("{other:?}"),
    };
    assert!(matches!(plan_nested(&c, &w, &answerer, &right, &t), Ok(NestedPlan::ByCells { cols, .. }) if cols == vec![0]));
}

#[test]
fn nested_queries_have_values() {
    let w = warehouse();
    let m = Engine { catalog: &w, fpu: &fpu, reader: &reader, summer: &summer, show: &show };
    let t = customers(&w);
    let e = read("SELECT 1 FROM customer WHERE EXISTS (SELECT 1 FROM orders WHERE o_custkey = c_custkey)").where_clause.unwrap();
    let not = read("SELECT 1 FROM customer WHERE NOT EXISTS (SELECT 1 FROM orders WHERE o_custkey = c_custkey)").where_clause.unwrap();
    let within = read("SELECT 1 FROM customer WHERE c_custkey IN (SELECT o_custkey FROM orders)").where_clause.unwrap();
    let orders = w.get("orders").unwrap();
    for row in 0..t.row_count {
        let has = orders.columns[1].contains(&t.columns[0][row]);
        let truth = |v: Result<Value2, Error>| match v {
            Ok(v) => v.truthy(),
            Err(e) => panic!("{e:?}"),
        };
        assert_eq!(truth(value_of_nested(&m, 9, None, &e, &t, row)), has);
        assert_eq!(truth(value_of_nested(&m, 9, None, &within, &t, row)), has);
        if let Expr2::Not(inside) = &not {
            assert_eq!(truth(value_of_nested(&m, 9, None, inside, &t, row)), has);
        } else {
            assert_eq!(truth(value_of_nested(&m, 9, None, &not, &t, row)), !has);
        }
        assert!(matches!(value_of_nested(&m, 0, None, &e, &t, row), Err(Error::Unsupported(s)) if s == "queries too deep"));
    }
}

#[test]
fn queries_are_answered_to_a_depth() {
    let w = warehouse();
    let m = Engine { catalog: &w, fpu: &fpu, reader: &reader, summer: &summer, show: &show };
    let mut q = read("SELECT n FROM (SELECT count(*) AS n FROM (SELECT r_name FROM region) AS inside) AS outside");
    for depth in 0..3 {
        let r = answer_at(&m, depth, None, &q);
        assert!(matches!(r, Err(Error::Unsupported(s)) if s == "queries too deep"));
    }
    check(answer_at(&m, 3, None, &q), &["n"], &[&[C::I(5)]]);
    let mut j = read("SELECT r_name FROM region JOIN nation ON r_regionkey = n_regionkey");
    q.from.clear();
    q.joins.append(&mut j.joins);
    let r = answer_at(&m, 3, None, &q);
    assert!(matches!(r, Err(Error::Unsupported(s)) if s == "join without a table"));
}
