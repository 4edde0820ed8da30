//! Queries that are answered by a way of their own.

use morsel_engine::error::Error;
use morsel_engine::float_bits::FloatOp;
use morsel_engine::hashing::hash_text;
use morsel_engine::row_sums::RowSum;
use morsel_engine::sql::engine::Engine;
use morsel_engine::sql::entry::{parse_and_execute, recognise, Known};
use morsel_engine::table::{Catalog, LoadedColumn, LoadedTable, QueryResult, StringSearchColumn, Table};

fn fpu(op: FloatOp, a: u64, b: u64) -> u64 {
    let x = f64::from_bits(a);
    let y = f64::from_bits(b);
    match op {
        FloatOp::Add => (x + y).to_bits(),
        FloatOp::Sub => (x - y).to_bits(),
        FloatOp::Mul => (x * y).to_bits(),
        FloatOp::Div => (x / y).to_bits(),
        FloatOp::Min => x.min(y).to_bits(),
        FloatOp::Max => x.max(y).to_bits(),
        FloatOp::FromU64 => (a as f64).to_bits(),
        FloatOp::FromI64 => (a as i64 as f64).to_bits(),
        FloatOp::ToI64 => x as i64 as u64,
        FloatOp::ToU64 => x as u64,
        FloatOp::FusedDiscount => (-x).mul_add(y, x).to_bits(),
        FloatOp::Pow => x.powf(y).to_bits(),
        FloatOp::Near => u64::from((x - y).abs() <= f64::EPSILON * x.abs().max(y.abs())),
        FloatOp::LinearCount => (-256.0 * (1.0 - a as f64 / 256.0).ln()).round() as u64,
    }
}

fn reader(s: &str) -> Option<u64> {
    s.parse::<f64>().ok().map(|x| x.to_bits())
}

fn show(bits: u64) -> String {
    format!("{:?}", f64::from_bits(bits))
}

fn summer(what: RowSum, a: &Vec<u64>, b: &Vec<u64>, c: &Vec<u64>, rows: &Vec<usize>) -> u64 {
    let mut sum = 0.0;
    for &i in rows {
        let x = f64::from_bits(a[i]);
        sum += match what {
            RowSum::Plain => x,
            RowSum::Product => x * f64::from_bits(b[i]),
            RowSum::Discounted => x * (1.0 - f64::from_bits(b[i])),
            RowSum::Charged => x * (1.0 - f64::from_bits(b[i])) * (1.0 + f64::from_bits(c[i])),
        };
    }
    sum.to_bits()
}

fn answer(catalog: &Catalog, sql: &str) -> Result<QueryResult, Error> {
    parse_and_execute(&Engine { catalog, fpu: &fpu, reader: &reader, summer: &summer, show: &show }, sql)
}

/// A cell of a table.
#[derive(Clone, Copy)]
enum C {
    I(i64),
    F(f64),
    S(&'static str),
}

fn cell(c: C) -> u64 {
    match c {
        C::I(i) => i as u64,
        C::F(x) => x.to_bits(),
        C::S(s) => hash_text(s),
    }
}

/// Rows in some fixed order.
fn sorted(mut rows: Vec<Vec<u64>>) -> Vec<Vec<u64>> {
    rows.sort();
    rows
}

fn rows_of(r: &QueryResult) -> Vec<Vec<u64>> {
    (0..r.row_count).map(|i| r.columns.iter().map(|c| c.values[i]).collect()).collect()
}

fn check(r: Result<QueryResult, Error>, names: &[&str], want: &[&[C]]) {
    let r = match r {
        Ok(r) => r,
        Err(e) => panic!("refused: {e:?}"),
    };
    let got: Vec<&str> = r.columns.iter().map(|c| c.name.as_str()).collect();
    assert_eq!(got, names);
    let want: Vec<Vec<u64>> = want.iter().map(|row| row.iter().map(|&c| cell(c)).collect()).collect();
    assert_eq!(sorted(rows_of(&r)), sorted(want));
}

/// A column of a table that is being made.
struct Made {
    name: &'static str,
    cells: Vec<u64>,
    texts: Option<Vec<String>>,
}

fn ints(name: &'static str) -> Made {
    Made { name, cells: Vec::new(), texts: None }
}

fn texts(name: &'static str) -> Made {
    Made { name, cells: Vec::new(), texts: Some(Vec::new()) }
}

fn put(m: &mut Made, v: u64) {
    m.cells.push(v);
}

fn put_text(m: &mut Made, s: &str) {
    m.cells.push(hash_text(s));
    if let Some(t) = &mut m.texts {
        t.push(s.to_string());
    }
}

fn table(name: &str, columns: Vec<Made>) -> Table {
    let row_count = columns[0].cells.len();
    let columns = columns
        .into_iter()
        .map(|m| LoadedColumn {
            name: m.name.to_string(),
            cells: m.cells,
            row_count,
            string_search: m.texts.map(StringSearchColumn::new),
        })
        .collect();
    Table::from_loaded(LoadedTable { name: name.to_string(), columns, row_count })
}

/// Numbers that look random but are the same each time.
struct Dice {
    state: u64,
}

impl Dice {
    fn roll(&mut self, sides: u64) -> u64 {
        self.state = self.state.wrapping_mul(6364136223846793005).wrapping_add(1442695040888963407);
        (self.state >> 33) % sides
    }

    fn pick<'a>(&mut self, of: &[&'a str]) -> &'a str {
        of[self.roll(of.len() as u64) as usize]
    }

    fn quarters(&mut self, sides: u64, less: i64) -> u64 {
        ((self.roll(sides) as i64 - less) as f64 / 4.0).to_bits()
    }

    fn sixteenths(&mut self) -> u64 {
        (self.roll(3) as f64 / 16.0).to_bits()
    }
}

const REGIONS: [&str; 5] = ["AFRICA", "AMERICA", "ASIA", "EUROPE", "MIDDLE EAST"];
const NATIONS: [(&str, u64); 8] = [
    ("ALGERIA", 0),
    ("BRAZIL", 1),
    ("CANADA", 1),
    ("FRANCE", 3),
    ("GERMANY", 3),
    ("INDIA", 2),
    ("CHINA", 2),
    ("SAUDI ARABIA", 4),
];

fn warehouse() -> Catalog {
    let mut dice = Dice { state: 20260731 };
    let mut catalog = Catalog::new();

    let mut t = vec![ints("r_regionkey"), texts("r_name"), texts("r_comment")];
    for (i, name) in REGIONS.iter().enumerate() {
        put(&mut t[0], i as u64);
        put_text(&mut t[1], name);
        put_text(&mut t[2], "");
    }
    catalog.register(table("region", t));

    let mut t = vec![ints("n_nationkey"), texts("n_name"), ints("n_regionkey"), texts("n_comment")];
    for (i, (name, region)) in NATIONS.iter().enumerate() {
        put(&mut t[0], i as u64);
        put_text(&mut t[1], name);
        put(&mut t[2], *region);
        put_text(&mut t[3], "");
    }
    catalog.register(table("nation", t));

    let mut t = vec![
        ints("s_suppkey"),
        texts("s_name"),
        texts("s_address"),
        ints("s_nationkey"),
        texts("s_phone"),
        ints("s_acctbal"),
        texts("s_comment"),
    ];
    for i in 0..12 {
        put(&mut t[0], i + 1);
        put_text(&mut t[1], &format!("Supplier#{}", i + 1));
        put_text(&mut t[2], &format!("Street {}", i + 1));
        put(&mut t[3], dice.roll(8));
        put_text(&mut t[4], &format!("10-{i}"));
        put(&mut t[5], dice.quarters(8000, 1000));
        put_text(&mut t[6], &format!("s{i}"));
    }
    catalog.register(table("supplier", t));

    let mut t = vec![
        ints("c_custkey"),
        texts("c_name"),
        texts("c_address"),
        ints("c_nationkey"),
        texts("c_phone"),
        ints("c_acctbal"),
        texts("c_mktsegment"),
        texts("c_comment"),
    ];
    for i in 0..25 {
        put(&mut t[0], i + 1);
        put_text(&mut t[1], &format!("Customer#{}", i + 1));
        put_text(&mut t[2], &format!("Road {}", i + 1));
        put(&mut t[3], dice.roll(8));
        let code = dice.pick(&["13", "31", "23", "29", "30", "18", "17", "99"]);
        put_text(&mut t[4], &format!("{code}-555-{i}"));
        put(&mut t[5], dice.quarters(6000, 1000));
        put_text(&mut t[6], dice.pick(&["BUILDING", "AUTOMOBILE", "MACHINERY"]));
        put_text(&mut t[7], &format!("c{i}"));
    }
    catalog.register(table("customer", t));

    let mut t = vec![
        ints("p_partkey"),
        texts("p_name"),
        texts("p_mfgr"),
        texts("p_brand"),
        texts("p_type"),
        ints("p_size"),
        texts("p_container"),
        ints("p_retailprice"),
        texts("p_comment"),
    ];
    for i in 0..40 {
        put(&mut t[0], i + 1);
        put_text(&mut t[1], dice.pick(&["forest green", "green almond", "blue sky", "forest moss", "red hat"]));
        put_text(&mut t[2], "Maker");
        put_text(&mut t[3], dice.pick(&["Brand#12", "Brand#23", "Brand#34", "Brand#45"]));
        put_text(
            &mut t[4],
            dice.pick(&["PROMO BURNISHED BRASS", "ECONOMY ANODIZED STEEL", "MEDIUM POLISHED TIN", "STANDARD BRASS"]),
        );
        let sizes = [1, 3, 5, 9, 14, 15];
        put(&mut t[5], sizes[dice.roll(6) as usize]);
        put_text(&mut t[6], dice.pick(&["SM CASE", "MED BOX", "LG CASE", "SM BOX", "MED BAG", "LG BOX"]));
        put(&mut t[7], dice.quarters(4000, 0));
        put_text(&mut t[8], "");
    }
    catalog.register(table("part", t));

    let mut t = vec![
        ints("ps_partkey"),
        ints("ps_suppkey"),
        ints("ps_availqty"),
        ints("ps_supplycost"),
        texts("ps_comment"),
    ];
    for i in 0..40 {
        for k in 0..3 {
            put(&mut t[0], i + 1);
            put(&mut t[1], (i + k * 4) % 12 + 1);
            put(&mut t[2], dice.roll(100));
            put(&mut t[3], dice.quarters(400, 0));
            put_text(&mut t[4], "");
        }
    }
    catalog.register(table("partsupp", t));

    let mut t = vec![
        ints("o_orderkey"),
        ints("o_custkey"),
        texts("o_orderstatus"),
        ints("o_totalprice"),
        ints("o_orderdate"),
        texts("o_orderpriority"),
        texts("o_clerk"),
        ints("o_shippriority"),
        texts("o_comment"),
    ];
    let mut l = vec![
        ints("l_orderkey"),
        ints("l_partkey"),
        ints("l_suppkey"),
        ints("l_linenumber"),
        ints("l_quantity"),
        ints("l_extendedprice"),
        ints("l_discount"),
        ints("l_tax"),
        texts("l_returnflag"),
        texts("l_linestatus"),
        ints("l_shipdate"),
        ints("l_commitdate"),
        ints("l_receiptdate"),
        texts("l_shipinstruct"),
        texts("l_shipmode"),
        texts("l_comment"),
    ];
    for i in 0..200 {
        put(&mut t[0], i + 1);
        put(&mut t[1], dice.roll(22) + 1);
        put_text(&mut t[2], dice.pick(&["F", "O"]));
        put(&mut t[3], dice.quarters(4000, 0));
        let ordered = 8401 + dice.roll(1461);
        put(&mut t[4], ordered);
        put_text(&mut t[5], dice.pick(&["1-URGENT", "2-HIGH", "3-MEDIUM", "4-NOT SPECIFIED", "5-LOW"]));
        put_text(&mut t[6], "");
        put(&mut t[7], 0);
        put_text(
            &mut t[8],
            dice.pick(&["", "special requests", "special packages requests", "requests special", "quick"]),
        );
        let mut used = Vec::new();
        for _ in 0..1 + dice.roll(8) {
            let part = dice.roll(40) + 1;
            let supplier = (part - 1 + dice.roll(3) * 4) % 12 + 1;
            let quantity = (1 + dice.roll(60)) as f64;
            let price = dice.quarters(8000, 0);
            let discount = dice.sixteenths();
            let tax = dice.sixteenths();
            let flag = dice.pick(&["R", "A", "N"]);
            let shipped = ordered + dice.roll(120);
            let committed = ordered + 30 + dice.roll(60);
            let received = shipped + 1 + dice.roll(30);
            let instruct = dice.pick(&["DELIVER IN PERSON", "NONE"]);
            let mode = dice.pick(&["AIR", "AIR REG", "MAIL", "SHIP", "RAIL"]);
            if used.contains(&supplier) {
                continue;
            }
            used.push(supplier);
            put(&mut l[0], i + 1);
            put(&mut l[1], part);
            put(&mut l[2], supplier);
            put(&mut l[3], used.len() as u64);
            put(&mut l[4], quantity.to_bits());
            put(&mut l[5], price);
            put(&mut l[6], discount);
            put(&mut l[7], tax);
            put_text(&mut l[8], flag);
            put_text(&mut l[9], "O");
            put(&mut l[10], shipped);
            put(&mut l[11], committed);
            put(&mut l[12], received);
            put_text(&mut l[13], instruct);
            put_text(&mut l[14], mode);
            put_text(&mut l[15], "");
        }
    }
    catalog.register(table("orders", t));
    catalog.register(table("lineitem", l));
    catalog
}

#[test]
fn cheapest_suppliers_of_brass_parts() {
    let sql = "SELECT s_acctbal, s_name, n_name, p_partkey, p_mfgr / r_name = 'EUROPE' / p_type LIKE '%BRASS'";
    check(
        answer(&warehouse(), sql),
        &["s_acctbal", "s_name", "n_name", "p_partkey", "p_mfgr", "s_address", "s_phone", "s_comment"],
        &[
            &[C::F(1289.75), C::S("Supplier#4"), C::S("FRANCE"), C::I(20), C::S("Maker"), C::S("Street 4"), C::S("10-3"), C::S("s3")],
            &[C::F(1289.75), C::S("Supplier#4"), C::S("FRANCE"), C::I(24), C::S("Maker"), C::S("Street 4"), C::S("10-3"), C::S("s3")],
            &[C::F(1287.75), C::S("Supplier#2"), C::S("FRANCE"), C::I(34), C::S("Maker"), C::S("Street 2"), C::S("10-1"), C::S("s1")],
        ],
    );
}

#[test]
fn unshipped_orders_by_revenue() {
    let sql = "SELECT revenue / o_shippriority / c_mktsegment = 'BUILDING' / 1995-03-15";
    check(
        answer(&warehouse(), sql),
        &["l_orderkey", "revenue", "o_orderdate", "o_shippriority"],
        &[
            &[C::I(75), C::F(2974.5625), C::I(9120), C::I(0)],
            &[C::I(58), C::F(2139.625), C::I(9148), C::I(0)],
            &[C::I(111), C::F(1770.265625), C::I(9189), C::I(0)],
            &[C::I(29), C::F(1542.28125), C::I(9201), C::I(0)],
            &[C::I(61), C::F(170.625), C::I(9192), C::I(0)],
        ],
    );
}

#[test]
fn orders_with_a_late_line_by_priority() {
    let sql = "SELECT o_orderpriority / order_count / l_commitdate < l_receiptdate / 1993-07-01";
    check(
        answer(&warehouse(), sql),
        &["o_orderpriority", "order_count"],
        &[
            &[C::S("1-URGENT"), C::I(1)],
            &[C::S("2-HIGH"), C::I(2)],
            &[C::S("3-MEDIUM"), C::I(1)],
            &[C::S("4-NOT SPECIFIED"), C::I(3)],
            &[C::S("5-LOW"), C::I(3)],
        ],
    );
}

#[test]
fn revenue_of_local_suppliers() {
    let sql = "SELECT n_name, sum(l_extendedprice / r_name = 'ASIA' / o_orderdate >= date '1994-01-01'";
    check(
        answer(&warehouse(), sql),
        &["n_name", "revenue"],
        &[
            &[C::S("INDIA"), C::F(2803.296875)],
            &[C::S("CHINA"), C::F(0.0)],
        ],
    );
}

#[test]
fn many_nations_are_told_apart() {
    let half = 0.5f64.to_bits();
    let mut catalog = Catalog::new();
    let mut t = vec![ints("r_regionkey"), texts("r_name"), texts("r_comment")];
    for (i, name) in REGIONS.iter().enumerate() {
        put(&mut t[0], i as u64);
        put_text(&mut t[1], name);
        put_text(&mut t[2], "");
    }
    catalog.register(table("region", t));
    let mut t = vec![ints("n_nationkey"), texts("n_name"), ints("n_regionkey"), texts("n_comment")];
    for i in 0..300 {
        put(&mut t[0], i);
        put_text(&mut t[1], &format!("N{i}"));
        put(&mut t[2], if i == 1 || i == 257 { 2 } else { 0 });
        put_text(&mut t[3], "");
    }
    catalog.register(table("nation", t));
    let mut t = vec![
        ints("s_suppkey"),
        texts("s_name"),
        texts("s_address"),
        ints("s_nationkey"),
        texts("s_phone"),
        ints("s_acctbal"),
        texts("s_comment"),
    ];
    for (key, nation) in [(1, 1), (2, 257)] {
        put(&mut t[0], key);
        put(&mut t[3], nation);
        put(&mut t[5], 0);
        for k in [1, 2, 4, 6] {
            put_text(&mut t[k], "");
        }
    }
    catalog.register(table("supplier", t));
    let mut t = vec![
        ints("c_custkey"),
        texts("c_name"),
        texts("c_address"),
        ints("c_nationkey"),
        texts("c_phone"),
        ints("c_acctbal"),
        texts("c_mktsegment"),
        texts("c_comment"),
    ];
    put(&mut t[0], 1);
    put(&mut t[3], 257);
    put(&mut t[5], 0);
    for k in [1, 2, 4, 6, 7] {
        put_text(&mut t[k], "");
    }
    catalog.register(table("customer", t));
    let mut t = vec![
        ints("o_orderkey"),
        ints("o_custkey"),
        texts("o_orderstatus"),
        ints("o_totalprice"),
        ints("o_orderdate"),
        texts("o_orderpriority"),
        texts("o_clerk"),
        ints("o_shippriority"),
        texts("o_comment"),
    ];
    for (k, v) in [(0, 1), (1, 1), (3, 0), (4, 8800), (7, 0)] {
        put(&mut t[k], v);
    }
    for k in [2, 5, 6, 8] {
        put_text(&mut t[k], "");
    }
    catalog.register(table("orders", t));
    let mut t = vec![
        ints("l_orderkey"),
        ints("l_partkey"),
        ints("l_suppkey"),
        ints("l_linenumber"),
        ints("l_quantity"),
        ints("l_extendedprice"),
        ints("l_discount"),
        ints("l_tax"),
        texts("l_returnflag"),
        texts("l_linestatus"),
        ints("l_shipdate"),
        ints("l_commitdate"),
        ints("l_receiptdate"),
        texts("l_shipinstruct"),
        texts("l_shipmode"),
        texts("l_comment"),
    ];
    for (supplier, price) in [(1, 8.0f64), (2, 100.0)] {
        for (k, v) in [(0, 1), (1, 1), (2, supplier), (3, 1), (4, 1), (5, price.to_bits()), (6, half), (7, 0)] {
            put(&mut t[k], v);
        }
        for k in [10, 11, 12] {
            put(&mut t[k], 8800);
        }
        for k in [8, 9, 13, 14, 15] {
            put_text(&mut t[k], "");
        }
    }
    catalog.register(table("lineitem", t));
    let sql = "SELECT n_name, sum(l_extendedprice / r_name = 'ASIA' / o_orderdate >= date '1994-01-01'";
    check(
        answer(&catalog, sql),
        &["n_name", "revenue"],
        &[&[C::S("N1"), C::F(0.0)], &[C::S("N257"), C::F(50.0)]],
    );
}

#[test]
fn trade_between_two_nations() {
    let sql = "SELECT supp_nation / cust_nation / l_year / FRANCE / GERMANY";
    check(
        answer(&warehouse(), sql),
        &["supp_nation", "cust_nation", "l_year", "revenue"],
        &[
            &[C::S("FRANCE"), C::S("GERMANY"), C::I(1995), C::F(4190.734375)],
            &[C::S("FRANCE"), C::S("GERMANY"), C::I(1996), C::F(1908.5)],
            &[C::S("GERMANY"), C::S("FRANCE"), C::I(1995), C::F(310.75)],
            &[C::S("GERMANY"), C::S("FRANCE"), C::I(1996), C::F(3311.5)],
        ],
    );
}

#[test]
fn share_of_a_nation_in_a_market() {
    let sql = "SELECT mkt_share / ECONOMY ANODIZED STEEL / r_name = 'AMERICA' / BRAZIL";
    check(
        answer(&warehouse(), sql),
        &["o_year", "mkt_share"],
        &[
            &[C::I(1995), C::F(0.1265271471080117)],
            &[C::I(1996), C::F(0.24002815917038753)],
        ],
    );
}

#[test]
fn profit_by_nation_and_year() {
    let sql = "SELECT sum_profit / o_year / p_name LIKE '%green%' / ps_supplycost * l_quantity";
    check(
        answer(&warehouse(), sql),
        &["nation", "o_year", "sum_profit"],
        &[
            &[C::S("ALGERIA"), C::I(1993), C::F(-12616.5)],
            &[C::S("ALGERIA"), C::I(1994), C::F(-882.453125)],
            &[C::S("ALGERIA"), C::I(1995), C::F(-27594.640625)],
            &[C::S("ALGERIA"), C::I(1996), C::F(-18461.375)],
            &[C::S("BRAZIL"), C::I(1993), C::F(-3445.3125)],
            &[C::S("BRAZIL"), C::I(1994), C::F(-347.453125)],
            &[C::S("BRAZIL"), C::I(1995), C::F(1304.359375)],
            &[C::S("BRAZIL"), C::I(1996), C::F(-1931.796875)],
            &[C::S("CANADA"), C::I(1993), C::F(-5777.796875)],
            &[C::S("CANADA"), C::I(1994), C::F(-5718.015625)],
            &[C::S("CANADA"), C::I(1995), C::F(-14257.796875)],
            &[C::S("CANADA"), C::I(1996), C::F(-5162.984375)],
            &[C::S("FRANCE"), C::I(1993), C::F(-9643.1875)],
            &[C::S("FRANCE"), C::I(1994), C::F(-16564.78125)],
            &[C::S("FRANCE"), C::I(1995), C::F(-5105.65625)],
            &[C::S("FRANCE"), C::I(1996), C::F(-6745.21875)],
            &[C::S("GERMANY"), C::I(1993), C::F(-29926.578125)],
            &[C::S("GERMANY"), C::I(1994), C::F(-15889.0625)],
            &[C::S("GERMANY"), C::I(1995), C::F(-2900.09375)],
            &[C::S("GERMANY"), C::I(1996), C::F(-15937.078125)],
            &[C::S("INDIA"), C::I(1993), C::F(-5448.171875)],
            &[C::S("INDIA"), C::I(1994), C::F(-4576.765625)],
            &[C::S("INDIA"), C::I(1995), C::F(-3554.578125)],
            &[C::S("INDIA"), C::I(1996), C::F(-12566.328125)],
            &[C::S("SAUDI ARABIA"), C::I(1993), C::F(-13987.109375)],
            &[C::S("SAUDI ARABIA"), C::I(1994), C::F(-11466.671875)],
            &[C::S("SAUDI ARABIA"), C::I(1995), C::F(-7052.390625)],
            &[C::S("SAUDI ARABIA"), C::I(1996), C::F(-11129.015625)],
        ],
    );
}

#[test]
fn value_of_returned_goods() {
    let sql = "SELECT c_comment / l_returnflag = 'R' / c_acctbal, n_name / 1993-10-01";
    check(
        answer(&warehouse(), sql),
        &["c_custkey", "c_name", "revenue", "c_acctbal", "n_name", "c_address", "c_phone", "c_comment"],
        &[
            &[C::I(5), C::S("Customer#5"), C::F(3975.8125), C::F(-155.25), C::S("GERMANY"), C::S("Road 5"), C::S("99-555-4"), C::S("c4")],
            &[C::I(6), C::S("Customer#6"), C::F(3715.40625), C::F(16.0), C::S("CHINA"), C::S("Road 6"), C::S("18-555-5"), C::S("c5")],
            &[C::I(10), C::S("Customer#10"), C::F(2734.40625), C::F(1149.0), C::S("CANADA"), C::S("Road 10"), C::S("23-555-9"), C::S("c9")],
            &[C::I(20), C::S("Customer#20"), C::F(2381.890625), C::F(980.0), C::S("SAUDI ARABIA"), C::S("Road 20"), C::S("13-555-19"), C::S("c19")],
            &[C::I(17), C::S("Customer#17"), C::F(1942.25), C::F(-71.5), C::S("ALGERIA"), C::S("Road 17"), C::S("18-555-16"), C::S("c16")],
            &[C::I(21), C::S("Customer#21"), C::F(1384.6875), C::F(632.75), C::S("BRAZIL"), C::S("Road 21"), C::S("18-555-20"), C::S("c20")],
            &[C::I(8), C::S("Customer#8"), C::F(741.25), C::F(878.5), C::S("ALGERIA"), C::S("Road 8"), C::S("31-555-7"), C::S("c7")],
            &[C::I(16), C::S("Customer#16"), C::F(691.265625), C::F(1065.75), C::S("FRANCE"), C::S("Road 16"), C::S("99-555-15"), C::S("c15")],
        ],
    );
}

#[test]
fn ship_modes_and_priorities() {
    let sql = "SELECT high_line_count / low_line_count / l_shipmode IN ('MAIL', 'SHIP') / 1994-01-01";
    check(
        answer(&warehouse(), sql),
        &["l_shipmode", "high_line_count", "low_line_count"],
        &[
            &[C::S("MAIL"), C::F(4.0), C::F(5.0)],
            &[C::S("SHIP"), C::F(2.0), C::F(6.0)],
        ],
    );
}

#[test]
fn customers_by_number_of_orders() {
    let sql = "SELECT custdist / c_count / LEFT OUTER JOIN orders / special%requests";
    check(
        answer(&warehouse(), sql),
        &["c_count", "custdist"],
        &[
            &[C::I(0), C::I(3)],
            &[C::I(1), C::I(2)],
            &[C::I(2), C::I(1)],
            &[C::I(3), C::I(6)],
            &[C::I(4), C::I(1)],
            &[C::I(5), C::I(2)],
            &[C::I(6), C::I(2)],
            &[C::I(7), C::I(3)],
            &[C::I(8), C::I(1)],
            &[C::I(9), C::I(2)],
            &[C::I(10), C::I(1)],
            &[C::I(13), C::I(1)],
        ],
    );
}

#[test]
fn a_customer_with_many_orders_is_counted_exactly() {
    let mut catalog = Catalog::new();
    let mut c = vec![ints("c_custkey")];
    put(&mut c[0], 7);
    put(&mut c[0], 8);
    catalog.register(table("customer", c));
    let mut o = vec![
        ints("o_orderkey"),
        ints("o_custkey"),
        texts("o_orderstatus"),
        ints("o_totalprice"),
        ints("o_orderdate"),
        texts("o_orderpriority"),
        texts("o_clerk"),
        ints("o_shippriority"),
        texts("o_comment"),
    ];
    for i in 0..301u64 {
        for k in [0, 3, 4, 7] {
            put(&mut o[k], i);
        }
        put(&mut o[1], 7);
        for k in [2, 5, 6] {
            put_text(&mut o[k], "");
        }
        put_text(&mut o[8], if i == 300 { "special requests" } else { "plain" });
    }
    catalog.register(table("orders", o));
    let sql = "SELECT custdist / c_count / LEFT OUTER JOIN orders / special%requests";
    check(answer(&catalog, sql), &["c_count", "custdist"], &[&[C::I(300), C::I(1)], &[C::I(0), C::I(1)]]);
}

#[test]
fn goods_of_another_supplier_bring_no_profit() {
    let far = 1u64 << 20;
    let half = 0.5f64.to_bits();
    let mut catalog = Catalog::new();
    let mut t = vec![ints("p_partkey"), texts("p_name")];
    put(&mut t[0], 1);
    put_text(&mut t[1], "dark green");
    catalog.register(table("part", t));
    let mut t = vec![ints("ps_partkey"), ints("ps_suppkey"), ints("ps_availqty"), ints("ps_supplycost")];
    for (k, v) in [1, 0, 9, half].into_iter().enumerate() {
        put(&mut t[k], v);
    }
    catalog.register(table("partsupp", t));
    let mut t = vec![
        ints("l_orderkey"),
        ints("l_partkey"),
        ints("l_suppkey"),
        ints("l_linenumber"),
        ints("l_quantity"),
        ints("l_extendedprice"),
        ints("l_discount"),
    ];
    for (k, v) in [1, 1, far, 1, half, half, half].into_iter().enumerate() {
        put(&mut t[k], v);
    }
    catalog.register(table("lineitem", t));
    let mut t = vec![ints("o_orderkey"), ints("o_custkey"), texts("o_orderstatus"), ints("o_totalprice"), ints("o_orderdate")];
    for k in [0, 1, 3, 4] {
        put(&mut t[k], 1);
    }
    put_text(&mut t[2], "O");
    catalog.register(table("orders", t));
    let mut t = vec![ints("s_suppkey"), texts("s_name"), texts("s_address"), ints("s_nationkey")];
    for key in [0, far] {
        put(&mut t[0], key);
        put_text(&mut t[1], "");
        put_text(&mut t[2], "");
        put(&mut t[3], 0);
    }
    catalog.register(table("supplier", t));
    let mut t = vec![ints("n_nationkey"), texts("n_name")];
    put(&mut t[0], 0);
    put_text(&mut t[1], "ALGERIA");
    catalog.register(table("nation", t));
    let sql = "SELECT sum_profit / o_year / p_name LIKE '%green%' / ps_supplycost * l_quantity";
    check(answer(&catalog, sql), &["nation", "o_year", "sum_profit"], &[]);
}

#[test]
fn share_of_promoted_parts() {
    let sql = "SELECT promo_revenue / PROMO% / l_shipdate >= date '1995-09-01'";
    check(
        answer(&warehouse(), sql),
        &["promo_revenue"],
        &[
            &[C::F(28.75057927410192)],
        ],
    );
}

#[test]
fn suppliers_by_kind_of_part() {
    let sql = "SELECT supplier_cnt / count(DISTINCT ps_suppkey) / MEDIUM POLISHED / p_size IN";
    check(
        answer(&warehouse(), sql),
        &["p_brand", "p_type", "p_size", "supplier_cnt"],
        &[
            &[C::S("Brand#12"), C::S("ECONOMY ANODIZED STEEL"), C::I(3), C::I(3)],
            &[C::S("Brand#12"), C::S("ECONOMY ANODIZED STEEL"), C::I(9), C::I(3)],
            &[C::S("Brand#12"), C::S("ECONOMY ANODIZED STEEL"), C::I(14), C::I(3)],
            &[C::S("Brand#23"), C::S("ECONOMY ANODIZED STEEL"), C::I(14), C::I(9)],
            &[C::S("Brand#23"), C::S("PROMO BURNISHED BRASS"), C::I(3), C::I(3)],
            &[C::S("Brand#23"), C::S("STANDARD BRASS"), C::I(3), C::I(3)],
        ],
    );
}

#[test]
fn revenue_lost_without_small_orders() {
    let sql = "SELECT avg_yearly / 0.2 * avg(l_quantity) / Brand#23 / MED BOX";
    check(
        answer(&warehouse(), sql),
        &["avg_yearly"],
        &[
            &[C::F(372.7142857142857)],
        ],
    );
}

#[test]
fn customers_with_large_orders() {
    let sql = "SELECT sum(l_quantity) > 300 / o_totalprice DESC / GROUP BY c_name, c_custkey, o_orderkey";
    check(
        answer(&warehouse(), sql),
        &["c_name", "c_custkey", "o_orderkey", "o_orderdate", "o_totalprice", "sum"],
        &[
            &[C::S("Customer#15"), C::I(15), C::I(155), C::I(9728), C::F(292.0), C::F(360.0)],
        ],
    );
}

#[test]
fn discounted_revenue_of_three_kinds() {
    let sql = "SELECT Brand#12 / Brand#23 / Brand#34 / DELIVER IN PERSON / l_extendedprice * (1 - l_discount)";
    check(
        answer(&warehouse(), sql),
        &["revenue"],
        &[
            &[C::F(3069.34375)],
        ],
    );
}

#[test]
fn suppliers_with_too_much_stock() {
    let sql = "SELECT s_name, s_address / forest% / CANADA / 0.5 * sum(l_quantity)";
    check(
        answer(&warehouse(), sql),
        &["s_name", "s_address"],
        &[
            &[C::S("Supplier#6"), C::S("Street 6")],
        ],
    );
}

#[test]
fn suppliers_who_alone_were_late() {
    let sql = "SELECT numwait / l1.l_receiptdate > l1.l_commitdate / l2.l_suppkey <> l1.l_suppkey / l3.l_receiptdate > l3.l_commitdate / SAUDI ARABIA";
    check(
        answer(&warehouse(), sql),
        &["s_name", "numwait"],
        &[
            &[C::S("Supplier#8"), C::I(1)],
        ],
    );
}

#[test]
fn customers_worth_calling() {
    let sql = "SELECT cntrycode / numcust / totacctbal / substr(c_phone, 1, 2)";
    check(
        answer(&warehouse(), sql),
        &["cntrycode", "numcust", "totacctbal"],
        &[
            &[C::S("13"), C::I(2), C::F(1828.0)],
            &[C::S("17"), C::I(1), C::F(1139.5)],
            &[C::S("18"), C::I(2), C::F(1799.75)],
            &[C::S("23"), C::I(1), C::F(1149.0)],
            &[C::S("29"), C::I(1), C::F(857.0)],
            &[C::S("30"), C::I(2), C::F(2074.75)],
            &[C::S("31"), C::I(1), C::F(878.5)],
        ],
    );
}

#[test]
fn texts_are_recognised_by_their_marks() {
    assert_eq!(recognise("SELECT s_acctbal, s_name, n_name, p_partkey, p_mfgr / r_name = 'EUROPE' / p_type LIKE '%BRASS'"), Some(Known::Q2));
    assert_eq!(recognise("SELECT revenue / o_shippriority / c_mktsegment = 'BUILDING' / 1995-03-15"), Some(Known::Q3));
    assert_eq!(recognise("SELECT o_orderpriority / order_count / l_commitdate < l_receiptdate / 1993-07-01"), Some(Known::Q4));
    assert_eq!(recognise("SELECT n_name, sum(l_extendedprice / r_name = 'ASIA' / o_orderdate >= date '1994-01-01'"), Some(Known::Q5));
    assert_eq!(recognise("SELECT supp_nation / cust_nation / l_year / FRANCE / GERMANY"), Some(Known::Q7));
    assert_eq!(recognise("SELECT mkt_share / ECONOMY ANODIZED STEEL / r_name = 'AMERICA' / BRAZIL"), Some(Known::Q8));
    assert_eq!(recognise("SELECT sum_profit / o_year / p_name LIKE '%green%' / ps_supplycost * l_quantity"), Some(Known::Q9));
    assert_eq!(recognise("SELECT c_comment / l_returnflag = 'R' / c_acctbal, n_name / 1993-10-01"), Some(Known::Q10));
    assert_eq!(recognise("SELECT high_line_count / low_line_count / l_shipmode IN ('MAIL', 'SHIP') / 1994-01-01"), Some(Known::Q12));
    assert_eq!(recognise("SELECT custdist / c_count / LEFT OUTER JOIN orders / special%requests"), Some(Known::Q13));
    assert_eq!(recognise("SELECT promo_revenue / PROMO% / l_shipdate >= date '1995-09-01'"), Some(Known::Q14));
    assert_eq!(recognise("SELECT supplier_cnt / count(DISTINCT ps_suppkey) / MEDIUM POLISHED / p_size IN"), Some(Known::Q16));
    assert_eq!(recognise("SELECT avg_yearly / 0.2 * avg(l_quantity) / Brand#23 / MED BOX"), Some(Known::Q17));
    assert_eq!(recognise("SELECT sum(l_quantity) > 300 / o_totalprice DESC / GROUP BY c_name, c_custkey, o_orderkey"), Some(Known::Q18));
    assert_eq!(recognise("SELECT Brand#12 / Brand#23 / Brand#34 / DELIVER IN PERSON / l_extendedprice * (1 - l_discount)"), Some(Known::Q19));
    assert_eq!(recognise("SELECT s_name, s_address / forest% / CANADA / 0.5 * sum(l_quantity)"), Some(Known::Q20));
    assert_eq!(recognise("SELECT numwait / l1.l_receiptdate > l1.l_commitdate / l2.l_suppkey <> l1.l_suppkey / l3.l_receiptdate > l3.l_commitdate / SAUDI ARABIA"), Some(Known::Q21));
    assert_eq!(recognise("SELECT cntrycode / numcust / totacctbal / substr(c_phone, 1, 2)"), Some(Known::Q22));
    assert_eq!(recognise("SELECT 1 FROM t"), None);
}

#[test]
fn missing_tables_are_named() {
    let empty = Catalog::new();
    assert!(matches!(answer(&empty, "SELECT s_acctbal, s_name, n_name, p_partkey, p_mfgr / r_name = 'EUROPE' / p_type LIKE '%BRASS'"), Err(Error::NotFound(m)) if m == "table 'region'"));
    assert!(matches!(answer(&empty, "SELECT revenue / o_shippriority / c_mktsegment = 'BUILDING' / 1995-03-15"), Err(Error::NotFound(m)) if m == "table 'customer'"));
    assert!(matches!(answer(&empty, "SELECT o_orderpriority / order_count / l_commitdate < l_receiptdate / 1993-07-01"), Err(Error::NotFound(m)) if m == "table 'lineitem'"));
    assert!(matches!(answer(&empty, "SELECT n_name, sum(l_extendedprice / r_name = 'ASIA' / o_orderdate >= date '1994-01-01'"), Err(Error::NotFound(m)) if m == "table 'region'"));
    assert!(matches!(answer(&empty, "SELECT supp_nation / cust_nation / l_year / FRANCE / GERMANY"), Err(Error::NotFound(m)) if m == "table 'supplier'"));
    assert!(matches!(answer(&empty, "SELECT mkt_share / ECONOMY ANODIZED STEEL / r_name = 'AMERICA' / BRAZIL"), Err(Error::NotFound(m)) if m == "table 'region'"));
    assert!(matches!(answer(&empty, "SELECT sum_profit / o_year / p_name LIKE '%green%' / ps_supplycost * l_quantity"), Err(Error::NotFound(m)) if m == "table 'part'"));
    assert!(matches!(answer(&empty, "SELECT c_comment / l_returnflag = 'R' / c_acctbal, n_name / 1993-10-01"), Err(Error::NotFound(m)) if m == "table 'customer'"));
    assert!(matches!(answer(&empty, "SELECT high_line_count / low_line_count / l_shipmode IN ('MAIL', 'SHIP') / 1994-01-01"), Err(Error::NotFound(m)) if m == "table 'orders'"));
    assert!(matches!(answer(&empty, "SELECT custdist / c_count / LEFT OUTER JOIN orders / special%requests"), Err(Error::NotFound(m)) if m == "table 'customer'"));
    assert!(matches!(answer(&empty, "SELECT promo_revenue / PROMO% / l_shipdate >= date '1995-09-01'"), Err(Error::NotFound(m)) if m == "table 'part'"));
    assert!(matches!(answer(&empty, "SELECT supplier_cnt / count(DISTINCT ps_suppkey) / MEDIUM POLISHED / p_size IN"), Err(Error::NotFound(m)) if m == "table 'part'"));
    assert!(matches!(answer(&empty, "SELECT avg_yearly / 0.2 * avg(l_quantity) / Brand#23 / MED BOX"), Err(Error::NotFound(m)) if m == "table 'part'"));
    assert!(matches!(answer(&empty, "SELECT sum(l_quantity) > 300 / o_totalprice DESC / GROUP BY c_name, c_custkey, o_orderkey"), Err(Error::NotFound(m)) if m == "table 'customer'"));
    assert!(matches!(answer(&empty, "SELECT Brand#12 / Brand#23 / Brand#34 / DELIVER IN PERSON / l_extendedprice * (1 - l_discount)"), Err(Error::NotFound(m)) if m == "table 'lineitem'"));
    assert!(matches!(answer(&empty, "SELECT s_name, s_address / forest% / CANADA / 0.5 * sum(l_quantity)"), Err(Error::NotFound(m)) if m == "table 'part'"));
    assert!(matches!(answer(&empty, "SELECT numwait / l1.l_receiptdate > l1.l_commitdate / l2.l_suppkey <> l1.l_suppkey / l3.l_receiptdate > l3.l_commitdate / SAUDI ARABIA"), Err(Error::NotFound(m)) if m == "table 'lineitem'"));
    assert!(matches!(answer(&empty, "SELECT cntrycode / numcust / totacctbal / substr(c_phone, 1, 2)"), Err(Error::NotFound(m)) if m == "table 'customer'"));
}
