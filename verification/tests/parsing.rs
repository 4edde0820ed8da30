//! Reading queries.

use morsel_engine::sql::ast::{AggFunc, BinOp2, Expr2, FromItem, JoinType2, SelectQuery2};
use morsel_engine::sql::lexer::{tokenize, Token};
use morsel_engine::sql::like::like;
use morsel_engine::sql::parser::{parse_date, parse_tpch, upper_text, ParseError};

fn reader(s: &str) -> Option<u64> {
    match s.parse::<f64>() {
        Ok(x) => Some(x.to_bits()),
        Err(_) => None,
    }
}

fn parse(sql: &str) -> Result<SelectQuery2, ParseError> {
    parse_tpch(sql, &reader)
}

#[test]
fn test_parse_simple_select() {
    let q = parse("SELECT count(*) FROM lineitem").unwrap();
    assert_eq!(q.from.len(), 1);
    assert_eq!(q.select.len(), 1);
}

#[test]
fn test_parse_implicit_join() {
    let q = parse("SELECT count(*) FROM orders, lineitem WHERE o_orderkey = l_orderkey").unwrap();
    assert_eq!(q.from.len(), 2);
}

#[test]
fn test_parse_group_by_having() {
    let q = parse("SELECT l_returnflag, count(*) FROM lineitem GROUP BY l_returnflag HAVING count(*) > 10").unwrap();
    assert_eq!(q.group_by.len(), 1);
    assert!(q.having.is_some());
}

#[test]
fn test_parse_case_when() {
    let q = parse("SELECT case WHEN x = 1 THEN 10 ELSE 0 END FROM t").unwrap();
    assert!(matches!(&q.select[0].expr, Expr2::Case { .. }));
}

#[test]
fn test_parse_extract() {
    let q = parse("SELECT extract(year FROM l_shipdate) FROM lineitem").unwrap();
    assert!(matches!(&q.select[0].expr, Expr2::Extract { .. }));
}

#[test]
fn test_parse_between() {
    let q = parse("SELECT count(*) FROM t WHERE x BETWEEN 1 AND 10").unwrap();
    match &q.where_clause.unwrap() {
        Expr2::Between { .. } => {}
        other => panic!("expected Between, got {other:?}"),
    }
}

#[test]
fn test_parse_in_list() {
    let q = parse("SELECT count(*) FROM t WHERE x IN (1, 2, 3)").unwrap();
    match &q.where_clause.unwrap() {
        Expr2::InList { list, .. } => assert_eq!(list.len(), 3),
        other => panic!("expected InList, got {other:?}"),
    }
}

#[test]
fn test_parse_qualified_name() {
    let q = parse("SELECT l1.l_orderkey FROM lineitem l1").unwrap();
    match &q.select[0].expr {
        Expr2::Col(n) => assert_eq!(n, "l1.l_orderkey"),
        other => panic!("expected Col, got {other:?}"),
    }
}

#[test]
fn test_parse_left_join() {
    let q = parse("SELECT count(*) FROM customer LEFT OUTER JOIN orders ON c_custkey = o_custkey").unwrap();
    assert_eq!(q.joins.len(), 1);
    assert_eq!(q.joins[0].join_type, JoinType2::Left);
}

#[test]
fn test_parse_derived_table() {
    let q = parse("SELECT x FROM (SELECT count(*) AS x FROM t) AS dt").unwrap();
    assert_eq!(q.from.len(), 1);
    match &q.from[0] {
        FromItem::Derived(_, Some(alias)) => assert_eq!(alias, "dt"),
        other => panic!("expected Derived, got {other:?}"),
    }
}

#[test]
fn test_parse_not_exists() {
    let q = parse("SELECT count(*) FROM t WHERE NOT exists (SELECT 1 FROM t2 WHERE t2.x = t.x)").unwrap();
    match &q.where_clause.unwrap() {
        Expr2::Exists { negated: true, .. } => {}
        other => panic!("expected Exists negated, got {other:?}"),
    }
}

#[test]
fn test_parse_substr() {
    let q = parse("SELECT substr(c_phone, 1, 2) FROM customer").unwrap();
    assert!(matches!(&q.select[0].expr, Expr2::Substr { .. }));
}

#[test]
fn test_parse_arithmetic_in_agg() {
    let q = parse("SELECT sum(l_extendedprice * (1 - l_discount)) FROM lineitem").unwrap();
    match &q.select[0].expr {
        Expr2::Agg { func: AggFunc::Sum, .. } => {}
        other => panic!("expected Sum agg, got {other:?}"),
    }
}

#[test]
fn test_like_match() {
    assert!(like("hello world".as_bytes(), "%hello%".as_bytes()));
    assert!(like("hello".as_bytes(), "hello".as_bytes()));
    assert!(like("hello world".as_bytes(), "hello%".as_bytes()));
    assert!(like("hello world".as_bytes(), "%world".as_bytes()));
    assert!(!like("hello".as_bytes(), "world".as_bytes()));
    assert!(like("PROMO STEEL".as_bytes(), "PROMO%".as_bytes()));
}

#[test]
fn like_takes_any_one_character_for_an_underscore() {
    assert!(like("cat".as_bytes(), "c_t".as_bytes()));
    assert!(!like("ct".as_bytes(), "c_t".as_bytes()));
    assert!(like("special packages requests".as_bytes(), "%special%requests%".as_bytes()));
    assert!(!like("requests special".as_bytes(), "%special%requests%".as_bytes()));
    assert!(like("".as_bytes(), "%".as_bytes()));
}

fn refusal(sql: &str) -> (String, usize) {
    match parse(sql) {
        Ok(q) => panic!("read as {q:?}"),
        Err(e) => (e.what, e.at),
    }
}

#[test]
fn refusals_name_the_token() {
    assert_eq!(refusal("UPDATE t"), ("expected keyword SELECT".to_string(), 0));
    assert_eq!(refusal("SELECT x"), ("expected keyword FROM".to_string(), 2));
    assert_eq!(refusal("SELECT FROM t"), ("expected keyword FROM".to_string(), 3));
    assert_eq!(refusal("SELECT , FROM t"), ("expected expression".to_string(), 1));
    assert_eq!(refusal("SELECT (x FROM t"), ("expected ')'".to_string(), 3));
    assert_eq!(refusal("SELECT median(x) FROM t"), ("unsupported aggregate: MEDIAN".to_string(), 4));
    assert_eq!(refusal("SELECT x FROM t LIMIT x"), ("expected integer".to_string(), 5));
    assert_eq!(refusal("SELECT x FROM t )"), ("unexpected trailing token".to_string(), 4));
    assert_eq!(refusal("SELECT x FROM t GROUP x"), ("expected keyword BY".to_string(), 5));
    assert_eq!(refusal("SELECT x FROM t LEFT y"), ("expected keyword JOIN".to_string(), 5));
    assert_eq!(refusal("SELECT x FROM t JOIN u"), ("expected keyword ON".to_string(), 6));
    assert_eq!(refusal("SELECT CASE WHEN x THEN 1 FROM t"), ("expected keyword END".to_string(), 6));
    assert_eq!(refusal("SELECT CASE WHEN x END FROM t"), ("expected keyword THEN".to_string(), 4));
    assert_eq!(refusal("SELECT DATE 5 FROM t"), ("expected string after DATE".to_string(), 2));
    assert_eq!(refusal("SELECT substr(x, 1) FROM t"), ("expected ',' in substr".to_string(), 6));
    assert_eq!(refusal("SELECT 'open FROM t"), ("unterminated string".to_string(), 7));
    assert_eq!(refusal("SELECT x # y FROM t"), ("unexpected character".to_string(), 9));
}

#[test]
fn words_are_keywords_in_any_case() {
    let tokens = match tokenize("Select O_key, 'it''s' <> 1.5 <= 12;", &reader) {
        Ok(t) => t,
        Err(e) => panic!("{e:?}"),
    };
    assert_eq!(tokens.len(), 10);
    assert!(matches!(&tokens[0], Token::Keyword(k) if k == "SELECT"));
    assert!(matches!(&tokens[1], Token::Ident(n) if n == "O_key"));
    assert!(matches!(&tokens[2], Token::Comma));
    assert!(matches!(&tokens[3], Token::Str(s) if s == "it's"));
    assert!(matches!(&tokens[4], Token::Op(o) if o == "<>"));
    assert!(matches!(&tokens[5], Token::Float(b) if *b == 1.5f64.to_bits()));
    assert!(matches!(&tokens[6], Token::Op(o) if o == "<="));
    assert!(matches!(&tokens[7], Token::Int(12)));
    assert!(matches!(&tokens[8], Token::Semicolon));
    assert!(matches!(&tokens[9], Token::End));
}

#[test]
fn products_bind_closer_than_sums_and_and_than_or() {
    let q = parse("SELECT a + b * c FROM t WHERE x = 1 OR y = 2 AND z = 3").unwrap();
    match &q.select[0].expr {
        Expr2::BinOp { op, right, .. } => {
            assert_eq!(*op, BinOp2::Add);
            assert!(matches!(&**right, Expr2::BinOp { op: BinOp2::Mul, .. }));
        }
        other => panic!("expected a sum, got {other:?}"),
    }
    match &q.where_clause.unwrap() {
        Expr2::BinOp { op, right, .. } => {
            assert_eq!(*op, BinOp2::Or);
            assert!(matches!(&**right, Expr2::BinOp { op: BinOp2::And, .. }));
        }
        other => panic!("expected a choice, got {other:?}"),
    }
}

#[test]
fn a_query_keeps_its_order_and_limit() {
    let q = parse("SELECT x, sum(y) AS total FROM t GROUP BY x ORDER BY total DESC, x LIMIT 10;").unwrap();
    assert_eq!(q.order_by.len(), 2);
    assert!(!q.order_by[0].1);
    assert!(q.order_by[1].1);
    assert_eq!(q.limit, Some(10));
    assert_eq!(q.select[1].alias, Some("total".to_string()));
}

#[test]
fn dates_are_days_since_the_epoch() {
    assert_eq!(parse_date("1970-01-01"), Some(0));
    assert_eq!(parse_date("1995-03-15"), Some(9204));
    assert_eq!(parse_date("1996-02-29"), Some(9555));
    assert_eq!(parse_date("1995-02-29"), None);
    assert_eq!(parse_date("1995-13-01"), None);
    assert_eq!(parse_date("1995-3-15"), None);
    let q = parse("SELECT count(*) FROM t WHERE d < DATE '1995-03-15' AND e = DATE 'soon'").unwrap();
    match &q.where_clause.unwrap() {
        Expr2::BinOp { left, right, .. } => {
            assert!(matches!(&**left, Expr2::BinOp { right, .. } if matches!(&**right, Expr2::Date(9204))));
            assert!(matches!(&**right, Expr2::BinOp { right, .. } if matches!(&**right, Expr2::Str(s) if s == "soon")));
        }
        other => panic!("expected two conditions, got {other:?}"),
    }
}

#[test]
fn distinct_counts_are_told_apart() {
    let q = parse("SELECT count(DISTINCT x), sum(DISTINCT y) FROM t").unwrap();
    assert!(matches!(&q.select[0].expr, Expr2::Agg { func: AggFunc::CountDistinct, distinct: true, .. }));
    assert!(matches!(&q.select[1].expr, Expr2::Agg { func: AggFunc::Sum, distinct: true, .. }));
}

#[test]
fn upper_text_changes_only_letters() {
    assert_eq!(upper_text("ab_Z9"), "AB_Z9");
}
