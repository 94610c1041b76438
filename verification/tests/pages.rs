use nexusdb::interpreter::btree::lookup;
use nexusdb::interpreter::btree::open_tree;
use nexusdb::interpreter::btree::scan;
use nexusdb::interpreter::btree::TreeKind;
use nexusdb::interpreter::connection::Connection;
use nexusdb::interpreter::error::DatabaseError;
use nexusdb::interpreter::expression::Error;
use nexusdb::interpreter::expression::Expression;
use nexusdb::interpreter::query::QueryPlan;
use nexusdb::interpreter::query::SelectStatement;
use nexusdb::interpreter::record::RecordError;
use nexusdb::interpreter::pager::DatabaseHeader;
use nexusdb::interpreter::pager::Pager;
use nexusdb::interpreter::parser::Expr;
use nexusdb::interpreter::record::decode;
use nexusdb::interpreter::test_utils::find_table_page_id;
use nexusdb::interpreter::value::Value;
use std::io::Read;

fn database(page_size: u32, queries: &[String]) -> Vec<u8> {
    let file = tempfile::NamedTempFile::new().unwrap();
    let conn = rusqlite::Connection::open(file.path()).unwrap();
    conn.pragma_update(None, "page_size", page_size).unwrap();
    conn.execute("BEGIN", []).unwrap();
    for query in queries {
        conn.execute(query, []).unwrap();
    }
    conn.execute("COMMIT", []).unwrap();
    conn.close().unwrap();
    let mut bytes = Vec::new();
    file.reopen().unwrap().read_to_end(&mut bytes).unwrap();
    bytes
}

fn text(s: &str) -> Option<Value> {
    Some(Value::Text(s.as_bytes().to_vec()))
}

fn leaf_page(cells: &[(u8, &[u8])]) -> Vec<u8> {
    let mut page = vec![0u8; 512];
    page[0] = 13;
    page[3] = 0;
    page[4] = cells.len() as u8;
    let mut end = 512;
    for (i, (rowid, payload)) in cells.iter().enumerate() {
        let start = end - payload.len() - 2;
        page[start] = payload.len() as u8;
        page[start + 1] = *rowid;
        page[start + 2..end].copy_from_slice(payload);
        page[8 + 2 * i] = (start >> 8) as u8;
        page[9 + 2 * i] = start as u8;
        end = start;
    }
    page
}

fn two_pages(second: Vec<u8>) -> Pager {
    let mut file = vec![0u8; 512];
    file.extend(second);
    Pager::new(file, 2, 512, 512, None, 0).unwrap()
}

#[test]
fn header_fields_are_read_most_significant_byte_first() {
    let mut buf = [0u8; 100];
    buf[16] = 0x10;
    buf[17] = 0x00;
    buf[20] = 32;
    buf[28..32].copy_from_slice(&[0, 0, 1, 2]);
    buf[32..36].copy_from_slice(&[0, 0, 0, 7]);
    buf[36..40].copy_from_slice(&[0, 0, 0, 3]);
    let header = DatabaseHeader::from(&buf);
    assert_eq!(header.pagesize(), 4096);
    assert_eq!(header.reserved(), 32);
    assert_eq!(header.n_pages(), 258);
    assert_eq!(header.first_freelist_trunk_page_id(), Some(7));
    assert_eq!(header.n_freelist_pages(), 3);
    buf[16] = 0;
    buf[17] = 1;
    buf[32..36].copy_from_slice(&[0, 0, 0, 0]);
    let header = DatabaseHeader::from(&buf);
    assert_eq!(header.pagesize(), 65536);
    assert_eq!(header.first_freelist_trunk_page_id(), None);
}

#[test]
fn pages_are_handed_out_by_number() {
    let mut file = vec![1u8; 512];
    file.extend(vec![2u8; 512]);
    file.extend(vec![3u8; 100]);
    let pager = Pager::new(file, 4, 512, 500, None, 0).unwrap();
    assert_eq!(pager.get_page(0), Err(DatabaseError::Range));
    assert_eq!(pager.get_page(1), Ok(&[1u8; 512][..]));
    assert_eq!(pager.get_page(2), Ok(&[2u8; 512][..]));
    assert_eq!(pager.get_page(3), Err(DatabaseError::Io));
    assert_eq!(pager.get_page(4), Err(DatabaseError::Io));
    assert_eq!(pager.get_page(5), Err(DatabaseError::Range));
    assert_eq!(pager.n_pages(), 4);
    assert_eq!(pager.pagesize(), 512);
    assert_eq!(pager.usable_size(), 500);
}

#[test]
fn sizes_that_the_format_does_not_allow_are_refused() {
    assert_eq!(Pager::new(vec![], 0, 1000, 1000, None, 0).err(), Some(DatabaseError::Corruption));
    assert_eq!(Pager::new(vec![], 0, 256, 256, None, 0).err(), Some(DatabaseError::Corruption));
    assert_eq!(Pager::new(vec![], 0, 131072, 512, None, 0).err(), Some(DatabaseError::Corruption));
    assert_eq!(Pager::new(vec![], 0, 512, 479, None, 0).err(), Some(DatabaseError::Corruption));
    assert_eq!(Pager::new(vec![], 0, 512, 513, None, 0).err(), Some(DatabaseError::Corruption));
    assert!(Pager::new(vec![], 0, 512, 480, None, 0).is_ok());
    assert!(Pager::new(vec![], 0, 65536, 65536, None, 0).is_ok());
    let mut file = vec![0u8; 100];
    file[16] = 0x02;
    file[20] = 40;
    assert_eq!(Connection::open(file.clone()).err(), Some(DatabaseError::Corruption));
    file[20] = 32;
    assert!(Connection::open(file.clone()).is_ok());
    file[17] = 1;
    assert_eq!(Connection::open(file).err(), Some(DatabaseError::Corruption));
    assert_eq!(Connection::open(vec![0u8; 99]).err(), Some(DatabaseError::Io));
}

#[test]
fn a_leaf_hands_out_its_cells_in_the_order_of_its_pointers() {
    let pager = two_pages(leaf_page(&[(1, b"one"), (2, b"two"), (3, b"three")]));
    assert_eq!(open_tree(&pager, 2), Ok(TreeKind::Table));
    let entries = scan(&pager, TreeKind::Table, 2).unwrap();
    let keys: Vec<i64> = entries.iter().map(|e| e.key).collect();
    assert_eq!(keys, vec![1, 2, 3]);
    assert_eq!(entries[2].payload, b"three".to_vec());
    assert_eq!(lookup(&pager, 2, 2), Ok(Some(b"two".to_vec())));
    assert_eq!(lookup(&pager, 2, 4), Ok(None));
    assert_eq!(lookup(&pager, 2, 0), Ok(None));
}

#[test]
fn rows_out_of_order_are_a_corruption() {
    let pager = two_pages(leaf_page(&[(3, b"three"), (1, b"one"), (2, b"two")]));
    assert_eq!(scan(&pager, TreeKind::Table, 2), Err(DatabaseError::Corruption));
    let twice = two_pages(leaf_page(&[(1, b"one"), (1, b"again")]));
    assert_eq!(scan(&twice, TreeKind::Table, 2), Err(DatabaseError::Corruption));
}

#[test]
fn broken_pages_are_refused() {
    let good = leaf_page(&[(1, b"one")]);
    let mut tag = good.clone();
    tag[0] = 7;
    assert_eq!(open_tree(&two_pages(tag.clone()), 2), Err(DatabaseError::Corruption));
    assert_eq!(scan(&two_pages(tag), TreeKind::Table, 2), Err(DatabaseError::Corruption));
    assert_eq!(scan(&two_pages(good.clone()), TreeKind::Index, 2), Err(DatabaseError::Corruption));
    let mut pointer = good.clone();
    pointer[8] = 0xFF;
    pointer[9] = 0xFF;
    assert_eq!(scan(&two_pages(pointer.clone()), TreeKind::Table, 2), Err(DatabaseError::Corruption));
    assert_eq!(lookup(&two_pages(pointer), 2, 1), Err(DatabaseError::Corruption));
    let mut count = good.clone();
    count[3] = 0xFF;
    assert_eq!(scan(&two_pages(count), TreeKind::Table, 2), Err(DatabaseError::Corruption));
    let mut long = good.clone();
    let at = 512 - 5;
    long[at] = 100;
    assert_eq!(scan(&two_pages(long), TreeKind::Table, 2), Err(DatabaseError::Corruption));
    let pager = two_pages(good);
    assert_eq!(scan(&pager, TreeKind::Table, 0), Err(DatabaseError::NotFound));
    assert_eq!(scan(&pager, TreeKind::Table, 3), Err(DatabaseError::NotFound));
    assert_eq!(open_tree(&pager, 3), Err(DatabaseError::NotFound));
    assert_eq!(lookup(&pager, 9, 1), Err(DatabaseError::NotFound));
}

#[test]
fn a_node_that_is_its_own_child_is_a_corruption() {
    let mut page = vec![0u8; 512];
    page[0] = 5;
    page[4] = 0;
    page[8..12].copy_from_slice(&[0, 0, 0, 2]);
    let pager = two_pages(page);
    assert_eq!(scan(&pager, TreeKind::Table, 2), Err(DatabaseError::Corruption));
    assert_eq!(lookup(&pager, 2, 1), Err(DatabaseError::Corruption));
}

#[test]
fn an_overflow_chain_that_ends_early_or_turns_back_is_a_corruption() {
    let mut leaf = vec![0u8; 512];
    leaf[0] = 13;
    leaf[4] = 1;
    let start = 512 - (2 + 1 + 39 + 4);
    leaf[8] = (start >> 8) as u8;
    leaf[9] = start as u8;
    leaf[start] = 0x87;
    leaf[start + 1] = 0x68;
    leaf[start + 2] = 1;
    for b in &mut leaf[start + 3..start + 3 + 39] {
        *b = b'a';
    }
    leaf[start + 3 + 39..start + 3 + 43].copy_from_slice(&[0, 0, 0, 3]);
    let mut overflow = vec![b'b'; 512];
    overflow[..4].copy_from_slice(&[0, 0, 0, 0]);
    let build = |next: u8| {
        let mut file = vec![0u8; 512];
        file.extend(leaf.clone());
        let mut o = overflow.clone();
        o[3] = next;
        file.extend(o);
        let mut last = vec![b'c'; 512];
        last[..4].copy_from_slice(&[0, 0, 0, 0]);
        file.extend(last);
        Pager::new(file, 4, 512, 512, None, 0).unwrap()
    };
    let whole = scan(&build(4), TreeKind::Table, 2).unwrap();
    assert_eq!(whole.len(), 1);
    assert_eq!(whole[0].payload.len(), 1000);
    assert_eq!(&whole[0].payload[..39], &[b'a'; 39][..]);
    assert_eq!(&whole[0].payload[39..547], &[b'b'; 508][..]);
    assert_eq!(&whole[0].payload[547..], &[b'c'; 453][..]);
    assert_eq!(scan(&build(0), TreeKind::Table, 2), Err(DatabaseError::Corruption));
    assert_eq!(scan(&build(3), TreeKind::Table, 2), Err(DatabaseError::Corruption));
    assert_eq!(scan(&build(9), TreeKind::Table, 2), Err(DatabaseError::Corruption));
}

#[test]
fn overflow_makes_no_difference_to_what_is_read() {
    let long: String = std::iter::repeat("0123456789").take(300).collect();
    let queries = vec![
        "CREATE TABLE t(id INTEGER PRIMARY KEY, a TEXT, b INTEGER)".to_string(),
        format!("INSERT INTO t VALUES (1, '{}', 17)", long),
        "INSERT INTO t VALUES (2, 'short', 18)".to_string(),
    ];
    let small = Connection::open(database(512, &queries)).unwrap();
    let large = Connection::open(database(65536, &queries)).unwrap();
    assert_eq!(small.pager.pagesize(), 512);
    assert_eq!(large.pager.pagesize(), 65536);
    assert!(small.pager.n_pages() > 6);
    assert_eq!(large.pager.n_pages(), 2);
    let rows = |conn: &Connection| {
        let schema = conn.load_schema().unwrap();
        conn.select(
            &schema,
            b"t",
            vec![Expr::Column(b"a".to_vec()), Expr::Column(b"b".to_vec())],
            Expr::Integer(1),
        )
        .unwrap()
    };
    assert_eq!(rows(&small), rows(&large));
    assert_eq!(
        rows(&small),
        vec![vec![text(&long), Some(Value::Integer(17))], vec![text("short"), Some(Value::Integer(18))]]
    );
}

#[test]
fn rows_are_found_by_their_number() {
    let mut queries = vec!["CREATE TABLE t(id INTEGER PRIMARY KEY, v TEXT)".to_string()];
    for i in 1..=3000 {
        queries.push(format!("INSERT INTO t VALUES ({}, 'row {}')", 2 * i, 2 * i));
    }
    let file = database(1024, &queries);
    let root = find_table_page_id("t", file.clone()).unwrap();
    let conn = Connection::open(file).unwrap();
    for key in [2i64, 4, 1000, 2998, 3000, 6000] {
        let payload = lookup(&conn.pager, root, key).unwrap().unwrap();
        assert_eq!(decode(&payload), Ok(vec![None, text(&format!("row {}", key))]));
    }
    for key in [0i64, 1, 3, 999, 6001, -5, i64::MAX, i64::MIN] {
        assert_eq!(lookup(&conn.pager, root, key), Ok(None));
    }
}

#[test]
fn the_free_list_holds_as_many_pages_as_the_header_says() {
    let mut queries = vec!["CREATE TABLE t(id INTEGER PRIMARY KEY, v TEXT)".to_string()];
    for i in 1..=400 {
        queries.push(format!("INSERT INTO t VALUES ({}, '{}')", i, "x".repeat(200)));
    }
    queries.push("DROP TABLE t".to_string());
    let file = database(512, &queries);
    let conn = Connection::open(file.clone()).unwrap();
    let declared = conn.pager.n_freelist_pages();
    assert!(declared > 100);
    let free = conn.pager.free_pages().unwrap();
    assert_eq!(free.len() as u32, declared);
    assert_eq!(Some(free[0]), conn.pager.first_freelist_trunk_page_id());
    let mut sorted = free.clone();
    sorted.sort();
    sorted.dedup();
    assert_eq!(sorted.len(), free.len());
    assert!(sorted.iter().all(|id| *id >= 2 && *id <= conn.pager.n_pages()));
    let mut fewer = file.clone();
    fewer[39] = fewer[39].wrapping_sub(1);
    assert_eq!(Connection::open(fewer).unwrap().pager.free_pages(), Err(DatabaseError::Corruption));
    let mut more = file.clone();
    more[39] = more[39].wrapping_add(1);
    assert_eq!(Connection::open(more).unwrap().pager.free_pages(), Err(DatabaseError::Corruption));
    let cut = file[..(free[0] as usize) * 512 - 1].to_vec();
    assert_eq!(Connection::open(cut).unwrap().pager.free_pages(), Err(DatabaseError::Io));
    let none = Connection::open(database(512, &["CREATE TABLE t(a)".to_string()])).unwrap();
    assert_eq!(none.pager.free_pages(), Ok(vec![]));
}

#[test]
fn truncation_is_an_error_at_every_entry_point() {
    let mut queries = vec!["CREATE TABLE t(id INTEGER PRIMARY KEY, v TEXT)".to_string()];
    for i in 1..=200 {
        queries.push(format!("INSERT INTO t VALUES ({}, '{}')", i, "y".repeat(100)));
    }
    let file = database(512, &queries);
    let root = find_table_page_id("t", file.clone()).unwrap();
    let pages = file.len() / 512;
    for cut in [100usize, 511, 512, 700, 1024, 512 * (pages / 2) + 5, file.len() - 1] {
        let short = file[..cut].to_vec();
        let opened = Connection::open(short.clone());
        let conn = match opened {
            Err(e) => {
                assert_eq!(e, DatabaseError::Io);
                continue;
            }
            Ok(c) => c,
        };
        let first = (cut / 512) as u32 + 1;
        assert_eq!(conn.pager.get_page(first), Err(DatabaseError::Io));
        assert_eq!(conn.pager.get_page(pages as u32), Err(DatabaseError::Io));
        assert_eq!(open_tree(&conn.pager, pages as u32), Err(DatabaseError::Io));
        assert_eq!(scan(&conn.pager, TreeKind::Table, pages as u32), Err(DatabaseError::Io));
        assert_eq!(lookup(&conn.pager, pages as u32, 1), Err(DatabaseError::Io));
        let scanned = scan(&conn.pager, TreeKind::Table, root);
        assert_eq!(scanned, Err(DatabaseError::Io));
        assert!(matches!(
            find_table_page_id("t", short),
            Err(DatabaseError::Io) | Ok(_)
        ));
    }
}

#[test]
fn a_row_with_a_reserved_code_is_not_supported() {
    let mut file = vec![0u8; 100];
    file[16] = 0x02;
    file[28..32].copy_from_slice(&[0, 0, 0, 2]);
    file.resize(512, 0);
    file.extend(leaf_page(&[(1, &[2, 10]), (2, &[2, 1, 5])]));
    let conn = Connection::open(file.clone()).unwrap();
    let stmt = SelectStatement::new(&conn, 2, vec![], Expression::one(), QueryPlan::FullScan);
    assert_eq!(stmt.execute(), Err(DatabaseError::Unsupported));
    file[512..].copy_from_slice(&leaf_page(&[(1, &[2, 1, 5]), (2, &[3, 1])]));
    let conn = Connection::open(file).unwrap();
    let stmt = SelectStatement::new(&conn, 2, vec![], Expression::one(), QueryPlan::FullScan);
    assert_eq!(stmt.execute(), Err(DatabaseError::Corruption));
}

#[test]
fn failures_are_carried_into_the_failures_of_the_engine() {
    assert_eq!(DatabaseError::from_record(RecordError::Corruption), DatabaseError::Corruption);
    assert_eq!(DatabaseError::from_record(RecordError::Unsupported), DatabaseError::Unsupported);
    assert_eq!(
        DatabaseError::from_expression(&Error::CollationNotFound),
        DatabaseError::CollationNotFound
    );
    assert_eq!(
        DatabaseError::from_expression(&Error::ColumnNotFound),
        DatabaseError::ColumnNotFound
    );
    assert_eq!(
        DatabaseError::from_expression(&Error::NoTableContext),
        DatabaseError::NoTableContext
    );
    assert_eq!(
        DatabaseError::from_expression(&Error::FailGetColumn("x".to_string())),
        DatabaseError::FailGetColumn
    );
}
