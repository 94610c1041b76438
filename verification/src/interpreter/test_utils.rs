use vstd::prelude::*;
use vstd::string::{StringExecFns, StringSliceAdditionalSpecFns};

use crate::interpreter::collate::Collation;
use crate::interpreter::comparator::ValueCmp;
use crate::interpreter::connection::{opened, schema_of, Connection};
use crate::interpreter::error::DatabaseError;
use crate::interpreter::schema::{last_named, PageId, Schema};
use crate::interpreter::record::{encodable, encode, encoded, record_view};
use crate::interpreter::value::Value;

verus! {

/// The capital hexadecimal digit of a number below sixteen.
pub open spec fn hex_char(n: int) -> char {
    if n == 0 {
        '0'
    } else if n == 1 {
        '1'
    } else if n == 2 {
        '2'
    } else if n == 3 {
        '3'
    } else if n == 4 {
        '4'
    } else if n == 5 {
        '5'
    } else if n == 6 {
        '6'
    } else if n == 7 {
        '7'
    } else if n == 8 {
        '8'
    } else if n == 9 {
        '9'
    } else if n == 10 {
        'A'
    } else if n == 11 {
        'B'
    } else if n == 12 {
        'C'
    } else if n == 13 {
        'D'
    } else if n == 14 {
        'E'
    } else {
        'F'
    }
}

/// The bytes written as capital hexadecimal digits, two to a byte.
pub open spec fn hex_text(buf: Seq<u8>) -> Seq<char> {
    Seq::new(
        2 * buf.len(),
        |i: int|
            if i % 2 == 0 {
                hex_char(buf[i / 2] as int / 16)
            } else {
                hex_char(buf[i / 2] as int % 16)
            },
    )
}

fn hex_digit_text(n: u8) -> (r: &'static str)
    requires
        n < 16,
    ensures
        r@ == seq![hex_char(n as int)],
{
    proof {
        reveal_strlit("0");
        reveal_strlit("1");
        reveal_strlit("2");
        reveal_strlit("3");
        reveal_strlit("4");
        reveal_strlit("5");
        reveal_strlit("6");
        reveal_strlit("7");
        reveal_strlit("8");
        reveal_strlit("9");
        reveal_strlit("A");
        reveal_strlit("B");
        reveal_strlit("C");
        reveal_strlit("D");
        reveal_strlit("E");
        reveal_strlit("F");
    }
    let r: &'static str = if n == 0 {
        "0"
    } else if n == 1 {
        "1"
    } else if n == 2 {
        "2"
    } else if n == 3 {
        "3"
    } else if n == 4 {
        "4"
    } else if n == 5 {
        "5"
    } else if n == 6 {
        "6"
    } else if n == 7 {
        "7"
    } else if n == 8 {
        "8"
    } else if n == 9 {
        "9"
    } else if n == 10 {
        "A"
    } else if n == 11 {
        "B"
    } else if n == 12 {
        "C"
    } else if n == 13 {
        "D"
    } else if n == 14 {
        "E"
    } else {
        "F"
    };
    assert(r@ =~= seq![hex_char(n as int)]);
    r
}

/// The bytes written as capital hexadecimal digits; see [`hex_text`].
pub fn buffer_to_hex(buf: &[u8]) -> (r: String)
    ensures
        r@ == hex_text(buf@),
{
    let mut out: String = String::new();
    let mut i: usize = 0;
    assert(out@ =~= hex_text(buf@.take(0)));
    while i < buf.len()
        invariant
            i <= buf@.len(),
            out@ == hex_text(buf@.take(i as int)),
        decreases buf@.len() - i,
    {
        let b: u8 = buf[i];
        out = out.concat(hex_digit_text(b / 16));
        out = out.concat(hex_digit_text(b % 16));
        i = i + 1;
        assert(out@ =~= hex_text(buf@.take(i as int)));
    }
    assert(buf@.take(i as int) =~= buf@);
    out
}


/// The record of the values; see [`encoded`]. The values must be such as
/// can be written as a record.
pub fn build_record(record: &[Option<&Value>]) -> (r: Vec<u8>)
    requires
        encodable(record_view(record@)),
    ensures
        r@ == encoded(record_view(record@)),
{
    match encode(record) {
        Some(buf) => buf,
        None => Vec::new(),
    }
}

/// Each value that is not NULL, ready to be compared byte by byte; NULL
/// stays NULL.
pub fn build_comparators<'a>(values: &'a [Option<Value>]) -> (r: Vec<Option<ValueCmp<'a>>>)
    ensures
        r@.len() == values@.len(),
        forall|i: int|
            0 <= i < r@.len() ==> match (#[trigger] r@[i], values@[i]) {
                (Some(c), Some(v)) => *c.value == v && *c.collation == Collation::Binary,
                (None, None) => true,
                _ => false,
            },
{
    let mut out: Vec<Option<ValueCmp<'a>>> = Vec::new();
    let mut i: usize = 0;
    while i < values.len()
        invariant
            i <= values@.len(),
            out@.len() == i,
            forall|k: int|
                0 <= k < i ==> match (#[trigger] out@[k], values@[k]) {
                    (Some(c), Some(v)) => *c.value == v && *c.collation == Collation::Binary,
                    (None, None) => true,
                    _ => false,
                },
        decreases values@.len() - i,
    {
        match &values[i] {
            Some(v) => {
                out.push(Some(ValueCmp::new(v, &Collation::Binary)));
            },
            None => {
                out.push(None);
            },
        }
        i = i + 1;
    }
    out
}


/// The page at which the table of a name begins in the database whose file
/// holds the bytes `file`: the file is opened (see [`opened`]), its schema
/// read (see [`schema_of`]) and the table looked up in it, the name taken
/// byte for byte.
pub open spec fn table_page(file: Seq<u8>, table: Seq<u8>) -> core::result::Result<
    PageId,
    DatabaseError,
> {
    match opened(file) {
        Err(e) => Err(e),
        Ok(pv) => match schema_of(pv) {
            Err(e) => Err(e),
            Ok(sv) => match last_named(sv.tables, table, sv.tables.len() as int) {
                Some(i) => Ok(sv.tables[i].1.root_page_id),
                None => Err(DatabaseError::NotFound),
            },
        },
    }
}

/// The page at which the index of a name begins; see [`table_page`].
pub open spec fn index_page(file: Seq<u8>, index: Seq<u8>) -> core::result::Result<
    PageId,
    DatabaseError,
> {
    match opened(file) {
        Err(e) => Err(e),
        Ok(pv) => match schema_of(pv) {
            Err(e) => Err(e),
            Ok(sv) => match last_named(sv.indexes, index, sv.indexes.len() as int) {
                Some(i) => Ok(sv.indexes[i].1.root_page_id),
                None => Err(DatabaseError::NotFound),
            },
        },
    }
}

/// The page at which the table of a name begins; see [`table_page`].
pub fn find_table_page_id(table: &str, file: Vec<u8>) -> (r: core::result::Result<
    PageId,
    DatabaseError,
>)
    ensures
        r == table_page(file@, table.spec_bytes()),
{
    let conn: Connection = match Connection::open(file) {
        Err(e) => {
            return Err(e);
        },
        Ok(c) => c,
    };
    let schema: Schema = match conn.load_schema() {
        Err(e) => {
            return Err(e);
        },
        Ok(s) => s,
    };
    match schema.get_table(table.as_bytes()) {
        Some(t) => {
            proof {
                let sv = schema@;
                let i = last_named(sv.tables, table.spec_bytes(), sv.tables.len() as int)->0;
                assert(sv.tables[i].1 == schema.tables@[i].1@);
            }
            Ok(t.root_page_id)
        },
        None => Err(DatabaseError::NotFound),
    }
}

/// The page at which the index of a name begins; see [`index_page`].
pub fn find_index_page_id(index: &str, file: Vec<u8>) -> (r: core::result::Result<
    PageId,
    DatabaseError,
>)
    ensures
        r == index_page(file@, index.spec_bytes()),
{
    let conn: Connection = match Connection::open(file) {
        Err(e) => {
            return Err(e);
        },
        Ok(c) => c,
    };
    let schema: Schema = match conn.load_schema() {
        Err(e) => {
            return Err(e);
        },
        Ok(s) => s,
    };
    match schema.get_index(index.as_bytes()) {
        Some(ix) => {
            proof {
                let sv = schema@;
                let i = last_named(sv.indexes, index.spec_bytes(), sv.indexes.len() as int)->0;
                assert(sv.indexes[i].1 == schema.indexes@[i].1@);
            }
            Ok(ix.root_page_id)
        },
        None => Err(DatabaseError::NotFound),
    }
}

} // verus!
