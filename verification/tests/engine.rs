use nexusdb::interpreter::binary64::Real;
use nexusdb::interpreter::connection::Connection;
use nexusdb::interpreter::error::DatabaseError;
use nexusdb::interpreter::parser::BinaryOp;
use nexusdb::interpreter::parser::CompareOp;
use nexusdb::interpreter::parser::Expr;
use nexusdb::interpreter::test_utils::find_index_page_id;
use nexusdb::interpreter::test_utils::find_table_page_id;
use nexusdb::interpreter::value::Value;
use std::io::Read;

fn database(queries: &[&str]) -> Vec<u8> {
    let file = tempfile::NamedTempFile::new().unwrap();
    let conn = rusqlite::Connection::open(file.path()).unwrap();
    conn.execute("BEGIN", []).unwrap();
    for query in queries {
        conn.execute(query, []).unwrap();
    }
    conn.execute("COMMIT", []).unwrap();
    conn.close().unwrap();
    let mut bytes = Vec::new();
    file.reopen().unwrap().read_to_end(&mut bytes).unwrap();
    bytes
}

fn column(name: &str) -> Expr {
    Expr::Column(name.as_bytes().to_vec())
}

fn text(s: &str) -> Option<Value> {
    Some(Value::Text(s.as_bytes().to_vec()))
}

#[test]
fn scan_yields_rows_in_ascending_row_order() {
    let file = database(&[
        "CREATE TABLE t(id INTEGER PRIMARY KEY, name TEXT)",
        "INSERT INTO t(id, name) VALUES (3, 'three')",
        "INSERT INTO t(id, name) VALUES (1, 'one')",
        "INSERT INTO t(id, name) VALUES (2, 'two')",
    ]);
    let conn = Connection::open(file).unwrap();
    let schema = conn.load_schema().unwrap();
    let rows = conn
        .select(&schema, b"t", vec![column("id"), column("name")], Expr::Integer(1))
        .unwrap();
    assert_eq!(
        rows,
        vec![
            vec![Some(Value::Integer(1)), text("one")],
            vec![Some(Value::Integer(2)), text("two")],
            vec![Some(Value::Integer(3)), text("three")],
        ]
    );
}

#[test]
fn select_filters_and_projects() {
    let file = database(&[
        "CREATE TABLE t(a INTEGER, b TEXT, c REAL)",
        "INSERT INTO t VALUES (1, 'x', 1.5)",
        "INSERT INTO t VALUES (2, 'y', 2.5)",
        "INSERT INTO t VALUES (NULL, 'z', NULL)",
        "INSERT INTO t VALUES (4, NULL, -0.25)",
    ]);
    let conn = Connection::open(file).unwrap();
    let schema = conn.load_schema().unwrap();
    let filter = Expr::BinaryOperator {
        operator: BinaryOp::Compare(CompareOp::Ge),
        left: Box::new(column("a")),
        right: Box::new(Expr::Integer(2)),
    };
    let rows = conn
        .select(&schema, b"t", vec![column("c"), column("b"), column("rowid")], filter)
        .unwrap();
    assert_eq!(
        rows,
        vec![
            vec![Some(Value::Real(Real::from_bits(2.5f64.to_bits()))), text("y"), Some(Value::Integer(2))],
            vec![
                Some(Value::Real(Real::from_bits((-0.25f64).to_bits()))),
                None,
                Some(Value::Integer(4))
            ],
        ]
    );
}

#[test]
fn scan_follows_interior_pages() {
    let mut queries = vec!["CREATE TABLE t(id INTEGER PRIMARY KEY, v TEXT)".to_string()];
    for i in 1..=2000 {
        queries.push(format!("INSERT INTO t VALUES ({}, 'value number {}')", 2001 - i, i));
    }
    let refs: Vec<&str> = queries.iter().map(|q| q.as_str()).collect();
    let file = database(&refs);
    let conn = Connection::open(file).unwrap();
    let schema = conn.load_schema().unwrap();
    let rows = conn.select(&schema, b"t", vec![column("id")], Expr::Integer(1)).unwrap();
    assert_eq!(rows.len(), 2000);
    for (i, row) in rows.iter().enumerate() {
        assert_eq!(row, &vec![Some(Value::Integer(i as i64 + 1))]);
    }
}

#[test]
fn overflow_payloads_are_read_whole() {
    let long: String = std::iter::repeat("abcdefghij").take(2000).collect();
    let insert = format!("INSERT INTO t VALUES (1, '{}')", long);
    let file = database(&["CREATE TABLE t(id INTEGER PRIMARY KEY, v TEXT)", &insert]);
    let conn = Connection::open(file).unwrap();
    let schema = conn.load_schema().unwrap();
    let rows = conn.select(&schema, b"t", vec![column("v")], Expr::Integer(1)).unwrap();
    assert_eq!(rows, vec![vec![text(&long)]]);
}

#[test]
fn find_page_ids_by_name() {
    let file = database(&[
        "CREATE TABLE one(a)",
        "CREATE TABLE two(b)",
        "CREATE INDEX two_b ON two(b)",
    ]);
    assert_eq!(find_table_page_id("one", file.clone()), Ok(2));
    assert_eq!(find_table_page_id("two", file.clone()), Ok(3));
    assert_eq!(find_index_page_id("two_b", file.clone()), Ok(4));
    assert_eq!(find_table_page_id("sqlite_schema", file.clone()), Ok(1));
    assert_eq!(find_table_page_id("three", file.clone()), Err(DatabaseError::NotFound));
    assert_eq!(find_index_page_id("one", file), Err(DatabaseError::NotFound));
}

#[test]
fn truncated_files_fail_with_an_error() {
    let file = database(&[
        "CREATE TABLE t(id INTEGER PRIMARY KEY, v TEXT)",
        "INSERT INTO t VALUES (1, 'one')",
    ]);
    assert_eq!(Connection::open(file[..50].to_vec()).err(), Some(DatabaseError::Io));
    assert_eq!(find_table_page_id("t", file[..2000].to_vec()), Err(DatabaseError::Io));
    let conn = Connection::open(file[..6000].to_vec()).unwrap();
    let schema = conn.load_schema().unwrap();
    assert_eq!(
        conn.select(&schema, b"t", vec![column("v")], Expr::Integer(1)),
        Err(DatabaseError::Io)
    );
}

#[test]
fn index_scan_yields_keys_in_order() {
    let file = database(&[
        "CREATE TABLE t(id INTEGER PRIMARY KEY, v TEXT)",
        "CREATE INDEX t_v ON t(v)",
        "INSERT INTO t VALUES (1, 'pear')",
        "INSERT INTO t VALUES (2, 'apple')",
        "INSERT INTO t VALUES (3, 'fig')",
    ]);
    let conn = Connection::open(file).unwrap();
    let schema = conn.load_schema().unwrap();
    let index = schema.get_index(b"t_v").unwrap();
    let stmt = nexusdb::interpreter::query::SelectStatement::new(
        &conn,
        index.root_page_id,
        vec![
            nexusdb::interpreter::expression::Expression::Column((
                nexusdb::interpreter::schema::ColumnNumber::Column(0),
                nexusdb::interpreter::value::TypeAffinity::Text,
                nexusdb::interpreter::collate::Collation::Binary,
            )),
            nexusdb::interpreter::expression::Expression::Column((
                nexusdb::interpreter::schema::ColumnNumber::Column(1),
                nexusdb::interpreter::value::TypeAffinity::Integer,
                nexusdb::interpreter::collate::Collation::Binary,
            )),
        ],
        nexusdb::interpreter::expression::Expression::one(),
        nexusdb::interpreter::query::QueryPlan::FullScan,
    );
    assert_eq!(
        stmt.execute().unwrap(),
        vec![
            vec![text("apple"), Some(Value::Integer(2))],
            vec![text("fig"), Some(Value::Integer(3))],
            vec![text("pear"), Some(Value::Integer(1))],
        ]
    );
}

#[test]
fn select_reports_what_is_wrong_with_its_expressions() {
    let file = database(&["CREATE TABLE t(a INTEGER)", "INSERT INTO t VALUES (1)"]);
    let conn = Connection::open(file).unwrap();
    let schema = conn.load_schema().unwrap();
    assert_eq!(
        conn.select(&schema, b"t", vec![column("b")], Expr::Integer(1)),
        Err(DatabaseError::ColumnNotFound)
    );
    assert_eq!(
        conn.select(&schema, b"t", vec![column("a")], column("c")),
        Err(DatabaseError::ColumnNotFound)
    );
    assert_eq!(
        conn.select(&schema, b"u", vec![column("a")], Expr::Integer(1)),
        Err(DatabaseError::NotFound)
    );
    let collated = Expr::Collate {
        expr: Box::new(column("a")),
        collation_name: b"latin".to_vec(),
    };
    assert_eq!(
        conn.select(&schema, b"t", vec![collated], Expr::Integer(1)),
        Err(DatabaseError::CollationNotFound)
    );
    assert_eq!(
        conn.select(&schema, b"t", vec![], Expr::Null),
        Ok(vec![])
    );
    assert_eq!(
        conn.select(&schema, b"t", vec![], Expr::Text(b"'1x'".to_vec())),
        Ok(vec![vec![]])
    );
    assert_eq!(
        conn.select(&schema, b"t", vec![], Expr::Text(b"'x'".to_vec())),
        Ok(vec![])
    );
    assert_eq!(
        conn.select(&schema, b"t", vec![], Expr::Real(nexusdb::interpreter::binary64::Real::from_bits(0.5f64.to_bits()))),
        Ok(vec![vec![]])
    );
}

#[test]
fn an_index_is_selected_by_its_name() {
    let file = database(&[
        "CREATE TABLE t(id INTEGER PRIMARY KEY, v TEXT)",
        "CREATE INDEX t_v ON t(v)",
        "INSERT INTO t VALUES (1, 'b')",
        "INSERT INTO t VALUES (2, 'a')",
    ]);
    let conn = Connection::open(file).unwrap();
    let schema = conn.load_schema().unwrap();
    assert_eq!(
        conn.select(&schema, b"t_v", vec![Expr::Integer(7)], Expr::Integer(1)),
        Ok(vec![vec![Some(Value::Integer(7))], vec![Some(Value::Integer(7))]])
    );
    assert_eq!(
        conn.select(&schema, b"t_v", vec![column("v")], Expr::Integer(1)),
        Err(DatabaseError::NoTableContext)
    );
}
