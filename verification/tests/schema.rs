use nexusdb::interpreter::collate::Collation;
use nexusdb::interpreter::definition::parse_columns;
use nexusdb::interpreter::error::DatabaseError;
use nexusdb::interpreter::parser::decode_hex;
use nexusdb::interpreter::parser::dequote;
use nexusdb::interpreter::schema::calc_collation;
use nexusdb::interpreter::schema::calc_type_affinity;
use nexusdb::interpreter::schema::Column;
use nexusdb::interpreter::schema::ColumnNumber;
use nexusdb::interpreter::schema::Schema;
use nexusdb::interpreter::value::TypeAffinity;
use nexusdb::interpreter::value::Value;

fn summary(columns: &[Column]) -> Vec<(String, TypeAffinity, bool, Collation)> {
    columns
        .iter()
        .map(|c| {
            (String::from_utf8(c.name.clone()).unwrap(), c.type_affinity, c.primary_key, c.collation)
        })
        .collect()
}

#[test]
fn declared_types_give_affinities() {
    assert_eq!(calc_type_affinity(b"INT"), TypeAffinity::Integer);
    assert_eq!(calc_type_affinity(b"bigint"), TypeAffinity::Integer);
    assert_eq!(calc_type_affinity(b"UNSIGNED BIG INT"), TypeAffinity::Integer);
    assert_eq!(calc_type_affinity(b"CHARINT"), TypeAffinity::Integer);
    assert_eq!(calc_type_affinity(b"VARCHAR(255)"), TypeAffinity::Text);
    assert_eq!(calc_type_affinity(b"clob"), TypeAffinity::Text);
    assert_eq!(calc_type_affinity(b"Text"), TypeAffinity::Text);
    assert_eq!(calc_type_affinity(b"BLOB"), TypeAffinity::Blob);
    assert_eq!(calc_type_affinity(b""), TypeAffinity::Blob);
    assert_eq!(calc_type_affinity(b"REAL"), TypeAffinity::Real);
    assert_eq!(calc_type_affinity(b"DOUBLE PRECISION"), TypeAffinity::Real);
    assert_eq!(calc_type_affinity(b"float"), TypeAffinity::Real);
    assert_eq!(calc_type_affinity(b"FLOATING POINT"), TypeAffinity::Integer);
    assert_eq!(calc_type_affinity(b"NUMERIC"), TypeAffinity::Numeric);
    assert_eq!(calc_type_affinity(b"DECIMAL(10,5)"), TypeAffinity::Numeric);
    assert_eq!(calc_type_affinity(b"BOOLEAN"), TypeAffinity::Numeric);
    assert_eq!(calc_type_affinity(b"DATE"), TypeAffinity::Numeric);
    assert_eq!(calc_type_affinity(b"in"), TypeAffinity::Numeric);
}

#[test]
fn collations_are_found_by_name() {
    assert_eq!(calc_collation(b"BINARY"), Some(Collation::Binary));
    assert_eq!(calc_collation(b"binary"), Some(Collation::Binary));
    assert_eq!(calc_collation(b"NoCase"), Some(Collation::NoCase));
    assert_eq!(calc_collation(b"rtrim"), Some(Collation::RTrim));
    assert_eq!(calc_collation(b"rtrim "), None);
    assert_eq!(calc_collation(b""), None);
    assert_eq!(calc_collation(b"unicode"), None);
}

#[test]
fn tokens_lose_their_quotes() {
    assert_eq!(dequote(b"name"), b"name".to_vec());
    assert_eq!(dequote(b"\"na me\""), b"na me".to_vec());
    assert_eq!(dequote(b"'it''s'"), b"it's".to_vec());
    assert_eq!(dequote(b"`a``b`"), b"a`b".to_vec());
    assert_eq!(dequote(b"''"), b"".to_vec());
    assert_eq!(dequote(b"''''"), b"'".to_vec());
    assert_eq!(dequote(b"'a\"b'"), b"a\"b".to_vec());
    assert_eq!(dequote(b""), b"".to_vec());
    assert_eq!(dequote(b"'"), b"'".to_vec());
    assert_eq!(decode_hex(b""), Vec::<u8>::new());
    assert_eq!(decode_hex(b"0aF9"), vec![0x0a, 0xf9]);
    assert_eq!(decode_hex(b"ABC"), vec![0xab]);
}

#[test]
fn columns_are_read_from_a_definition() {
    let columns = parse_columns(
        b"CREATE TABLE \"my table\" (\n  id INTEGER PRIMARY KEY,\n  name VARCHAR(20) NOT NULL COLLATE NOCASE,\n  [the price] DECIMAL(10, 2) DEFAULT (1 + 2),\n  data BLOB,\n  note,\n  \"x,y\" text collate rtrim unique,\n  score DOUBLE PRECISION CHECK (score > 0),\n  UNIQUE (name, note),\n  FOREIGN KEY (note) REFERENCES other(a, b)\n) WITHOUT ROWID",
    );
    assert_eq!(
        summary(&columns),
        vec![
            ("id".to_string(), TypeAffinity::Integer, true, Collation::Binary),
            ("name".to_string(), TypeAffinity::Text, false, Collation::NoCase),
            ("the price".to_string(), TypeAffinity::Numeric, false, Collation::Binary),
            ("data".to_string(), TypeAffinity::Blob, false, Collation::Binary),
            ("note".to_string(), TypeAffinity::Blob, false, Collation::Binary),
            ("x,y".to_string(), TypeAffinity::Text, false, Collation::RTrim),
            ("score".to_string(), TypeAffinity::Real, false, Collation::Binary),
        ]
    );
}

#[test]
fn a_constraint_of_the_table_names_the_primary_key() {
    let columns = parse_columns(b"create table t(a int, B integer, primary key (b))");
    assert_eq!(
        summary(&columns),
        vec![
            ("a".to_string(), TypeAffinity::Integer, false, Collation::Binary),
            ("B".to_string(), TypeAffinity::Integer, true, Collation::Binary),
        ]
    );
    let named = parse_columns(b"CREATE TABLE t(a, b, CONSTRAINT pk PRIMARY KEY(\"a\"))");
    assert_eq!(
        summary(&named),
        vec![
            ("a".to_string(), TypeAffinity::Blob, true, Collation::Binary),
            ("b".to_string(), TypeAffinity::Blob, false, Collation::Binary),
        ]
    );
    let composite = parse_columns(b"CREATE TABLE t(a, b, PRIMARY KEY(a, b))");
    assert_eq!(
        summary(&composite),
        vec![
            ("a".to_string(), TypeAffinity::Blob, false, Collation::Binary),
            ("b".to_string(), TypeAffinity::Blob, false, Collation::Binary),
        ]
    );
    assert_eq!(summary(&parse_columns(b"")), vec![]);
    assert_eq!(summary(&parse_columns(b"CREATE TABLE t")), vec![]);
    assert_eq!(
        summary(&parse_columns(b"CREATE TABLE t(a")),
        vec![("a".to_string(), TypeAffinity::Blob, false, Collation::Binary)]
    );
}

#[test]
fn the_schema_is_made_of_the_rows_of_the_schema_table() {
    let text = |s: &str| Some(Value::Text(s.as_bytes().to_vec()));
    let rows = vec![
        vec![text("table"), text("t"), text("t"), Some(Value::Integer(2)), text("CREATE TABLE t(a INTEGER PRIMARY KEY, b TEXT)")],
        vec![text("index"), text("i"), text("t"), Some(Value::Integer(3)), text("CREATE INDEX i ON t(b)")],
        vec![text("view"), text("v"), text("v"), Some(Value::Integer(0)), text("CREATE VIEW v AS SELECT 1")],
        vec![text("index"), text("auto"), text("t"), Some(Value::Integer(4)), None],
        vec![text("table"), text("t"), text("t"), Some(Value::Integer(9)), text("CREATE TABLE t(z)")],
    ];
    let schema = Schema::from_rows(&rows, Schema::schema_table()).unwrap();
    let t = schema.get_table(b"t").unwrap();
    assert_eq!(t.root_page_id, 9);
    assert_eq!(t.columns.len(), 1);
    assert!(schema.get_table(b"T").is_none());
    assert!(schema.get_table(b"i").is_none());
    assert_eq!(schema.get_index(b"i").unwrap().root_page_id, 3);
    assert_eq!(schema.get_index(b"i").unwrap().table_name, b"t".to_vec());
    assert_eq!(schema.get_index(b"auto").unwrap().root_page_id, 4);
    assert!(schema.get_index(b"v").is_none());
    let own = schema.get_table(b"sqlite_schema").unwrap();
    assert_eq!(own.root_page_id, 1);
    assert_eq!(
        own.get_column(b"rootpage"),
        Some((ColumnNumber::Column(3), TypeAffinity::Integer, Collation::Binary))
    );
    assert_eq!(
        own.get_column(b"SQL"),
        Some((ColumnNumber::Column(4), TypeAffinity::Text, Collation::Binary))
    );
    assert_eq!(own.get_column(b"other"), None);
}

#[test]
fn broken_rows_of_the_schema_table_are_refused() {
    let text = |s: &str| Some(Value::Text(s.as_bytes().to_vec()));
    let short = vec![vec![text("table"), text("t")]];
    assert_eq!(
        Schema::from_rows(&short, Schema::schema_table()).err(),
        Some(DatabaseError::Corruption)
    );
    let no_page = vec![vec![text("table"), text("t"), text("t"), text("2"), text("")]];
    assert_eq!(
        Schema::from_rows(&no_page, Schema::schema_table()).err(),
        Some(DatabaseError::Corruption)
    );
    let negative = vec![vec![text("index"), text("t"), text("t"), Some(Value::Integer(-1)), None]];
    assert_eq!(
        Schema::from_rows(&negative, Schema::schema_table()).err(),
        Some(DatabaseError::Corruption)
    );
    let other = vec![vec![text("trigger"), None, None, None, None]];
    assert!(Schema::from_rows(&other, Schema::schema_table()).is_ok());
}
