use nexusdb::interpreter::btree::scan;
use nexusdb::interpreter::btree::Entry;
use nexusdb::interpreter::btree::TreeKind;
use nexusdb::interpreter::connection::Connection;
use nexusdb::interpreter::cursor::Cursor;
use nexusdb::interpreter::error::DatabaseError;
use nexusdb::interpreter::pager::Pager;
use nexusdb::interpreter::parser::BinaryOp;
use nexusdb::interpreter::parser::CompareOp;
use nexusdb::interpreter::parser::Expr;
use nexusdb::interpreter::value::Value;
use std::io::Read;

fn database(page_size: u32, queries: &[String]) -> Vec<u8> {
    let file = tempfile::NamedTempFile::new().unwrap();
    let conn = rusqlite::Connection::open(file.path()).unwrap();
    conn.pragma_update(None, "page_size", page_size).unwrap();
    conn.execute("BEGIN", []).unwrap();
    for query in queries {
        conn.execute(query, []).unwrap();
    }
    conn.execute("COMMIT", []).unwrap();
    conn.close().unwrap();
    let mut bytes = Vec::new();
    file.reopen().unwrap().read_to_end(&mut bytes).unwrap();
    bytes
}

fn drain(cursor: &mut Cursor) -> (Vec<Entry>, Option<DatabaseError>) {
    let mut out = Vec::new();
    loop {
        match cursor.next() {
            Ok(Some(entry)) => out.push(entry),
            Ok(None) => return (out, None),
            Err(e) => return (out, Some(e)),
        }
    }
}

fn many_rows() -> Vec<u8> {
    let mut queries = vec![
        "CREATE TABLE t(id INTEGER PRIMARY KEY, v TEXT)".to_string(),
        "CREATE INDEX t_v ON t(v)".to_string(),
    ];
    for i in 1..=1500 {
        queries.push(format!("INSERT INTO t VALUES ({}, 'value {:05}')", i, (i * 7919) % 1500));
    }
    database(512, &queries)
}

#[test]
fn a_walk_hands_out_what_a_scan_does() {
    let conn = Connection::open(many_rows()).unwrap();
    let schema = conn.load_schema().unwrap();
    let table = schema.get_table(b"t").unwrap().root_page_id;
    let index = schema.get_index(b"t_v").unwrap().root_page_id;
    for (root, kind) in [(table, TreeKind::Table), (index, TreeKind::Index), (1, TreeKind::Table)] {
        let mut cursor = Cursor::open(&conn.pager, root).unwrap();
        assert_eq!(cursor.kind, kind);
        let (entries, failure) = drain(&mut cursor);
        assert_eq!(failure, None);
        assert_eq!(entries, scan(&conn.pager, kind, root).unwrap());
        assert_eq!(cursor.next(), Ok(None));
        assert_eq!(cursor.next(), Ok(None));
    }
    let mut cursor = Cursor::open(&conn.pager, table).unwrap();
    let (entries, _) = drain(&mut cursor);
    assert_eq!(entries.len(), 1500);
    assert!(entries.windows(2).all(|w| w[0].key < w[1].key));
}

#[test]
fn a_walk_can_be_left_at_any_time() {
    let conn = Connection::open(many_rows()).unwrap();
    let schema = conn.load_schema().unwrap();
    let table = schema.get_table(b"t").unwrap().root_page_id;
    let mut cursor = Cursor::open(&conn.pager, table).unwrap();
    for expected in 1..=10 {
        assert_eq!(cursor.next().unwrap().unwrap().key, expected);
    }
    assert_eq!(cursor.last_key, Some(10));
    assert!(cursor.stack.len() >= 2);
}

#[test]
fn rows_come_one_at_a_time() {
    let conn = Connection::open(many_rows()).unwrap();
    let schema = conn.load_schema().unwrap();
    let filter = || Expr::BinaryOperator {
        operator: BinaryOp::Compare(CompareOp::Lt),
        left: Box::new(Expr::Column(b"v".to_vec())),
        right: Box::new(Expr::Text(b"'value 00100'".to_vec())),
    };
    let columns = || vec![Expr::Column(b"id".to_vec()), Expr::Column(b"v".to_vec())];
    let eager = conn.select(&schema, b"t", columns(), filter()).unwrap();
    assert_eq!(eager.len(), 100);
    let mut rows = conn.prepare(&schema, b"t", columns(), filter()).unwrap().rows().unwrap();
    let mut lazy = Vec::new();
    while let Some(row) = rows.next().unwrap() {
        lazy.push(row);
    }
    assert_eq!(lazy, eager);
    assert_eq!(rows.next(), Ok(None));
    let mut first = conn.prepare(&schema, b"t", columns(), Expr::Integer(1)).unwrap().rows().unwrap();
    assert_eq!(
        first.next(),
        Ok(Some(vec![Some(Value::Integer(1)), Some(Value::Text(b"value 00419".to_vec()))]))
    );
    assert!(conn.prepare(&schema, b"none", columns(), filter()).is_err());
}

fn leaf_page(cells: &[(u8, &[u8])]) -> Vec<u8> {
    let mut page = vec![0u8; 512];
    page[0] = 13;
    page[4] = cells.len() as u8;
    let mut end = 512;
    for (i, (rowid, payload)) in cells.iter().enumerate() {
        let start = end - payload.len() - 2;
        page[start] = payload.len() as u8;
        page[start + 1] = *rowid;
        page[start + 2..end].copy_from_slice(payload);
        page[8 + 2 * i] = (start >> 8) as u8;
        page[9 + 2 * i] = start as u8;
        end = start;
    }
    page
}

#[test]
fn a_walk_hands_out_what_comes_before_a_failure() {
    let mut file = vec![0u8; 512];
    file.extend(leaf_page(&[(1, b"one"), (3, b"three"), (2, b"two")]));
    let pager = Pager::new(file, 2, 512, 512, None, 0).unwrap();
    let mut cursor = Cursor::open(&pager, 2).unwrap();
    let (entries, failure) = drain(&mut cursor);
    assert_eq!(entries.iter().map(|e| e.key).collect::<Vec<_>>(), vec![1, 3]);
    assert_eq!(failure, Some(DatabaseError::Corruption));

    let mut interior = vec![0u8; 512];
    interior[0] = 5;
    interior[4] = 1;
    interior[8..12].copy_from_slice(&[0, 0, 0, 9]);
    interior[12] = 0x01;
    interior[13] = 0xF0;
    interior[0x1F0..0x1F5].copy_from_slice(&[0, 0, 0, 3, 5]);
    let mut file = vec![0u8; 512];
    file.extend(interior);
    file.extend(leaf_page(&[(4, b"four"), (5, b"five")]));
    let pager = Pager::new(file, 3, 512, 512, None, 0).unwrap();
    let mut cursor = Cursor::open(&pager, 2).unwrap();
    let (entries, failure) = drain(&mut cursor);
    assert_eq!(entries.iter().map(|e| e.key).collect::<Vec<_>>(), vec![4, 5]);
    assert_eq!(failure, Some(DatabaseError::Corruption));
    assert_eq!(scan(&pager, TreeKind::Table, 2), Err(DatabaseError::Corruption));
    assert_eq!(Cursor::open(&pager, 7).err(), Some(DatabaseError::NotFound));
}

#[test]
fn a_tree_that_leads_back_into_itself_ends_the_walk() {
    let mut page = vec![0u8; 512];
    page[0] = 5;
    page[8..12].copy_from_slice(&[0, 0, 0, 2]);
    let mut file = vec![0u8; 512];
    file.extend(page);
    let pager = Pager::new(file, 2, 512, 512, None, 0).unwrap();
    let mut cursor = Cursor::open(&pager, 2).unwrap();
    assert_eq!(cursor.next(), Err(DatabaseError::Corruption));
}
