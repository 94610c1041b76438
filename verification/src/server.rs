use vstd::prelude::*;
use vstd::string::{StringExecFns, StringSliceAdditionalSpecFns};

use crate::index_manager::index_manager::{last_tagged, IndexEntry, IndexManager};
use crate::interpreter::decimal::{decimal_digits, integer_text};
use crate::interpreter::record::{lemma_pow256_values, pow256};
use crate::protocol::{parse_request, parsed_request, Request, RequestView};
use crate::storage::file::NFFile as Slots;
use crate::storage::nffile::{
    header_of, le_bytes, le_value, load_nffile, nearest_slot, Header, NFFile, HEADER_BYTES,
};

verus! {

/// What the server is to do for a client.
#[derive(Debug, PartialEq, Eq)]
pub enum Action {
    /// To send the answer as it is.
    Reply(String),
    /// To store the value in the series that the file keeps, and to answer
    /// how that went.
    Insert { file_name: String, timestamp: i64, value: i32 },
    /// To read the value at the time from the series that the file keeps,
    /// and to answer with it.
    Query { file_name: String, timestamp: i64 },
}

/// What an [`Action`] holds.
pub enum ActionView {
    Reply(Seq<char>),
    Insert { file_name: Seq<char>, timestamp: i64, value: i32 },
    Query { file_name: Seq<char>, timestamp: i64 },
}

impl View for Action {
    type V = ActionView;

    open spec fn view(&self) -> ActionView {
        match self {
            Action::Reply(text) => ActionView::Reply(text@),
            Action::Insert { file_name, timestamp, value } => ActionView::Insert {
                file_name: file_name@,
                timestamp: *timestamp,
                value: *value,
            },
            Action::Query { file_name, timestamp } => ActionView::Query {
                file_name: file_name@,
                timestamp: *timestamp,
            },
        }
    }
}

/// The name of the file that keeps the series of the tag that the bytes
/// write, if the index has the tag.
pub open spec fn file_of(entries: Seq<(String, IndexEntry)>, tag: Seq<u8>) -> Option<Seq<char>> {
    match last_tagged(entries, tag, entries.len() as int) {
        Some(i) => Some(entries[i].1.uuid@),
        None => None,
    }
}

/// What the server is to do for the text of a client. A text that is no
/// request is answered with what is wrong with it, and a request for a tag
/// that the index does not have with `Error: Tag not found`. Any other
/// request is to be carried out on the file of its tag.
pub open spec fn action_for(request: Seq<u8>, entries: Seq<(String, IndexEntry)>) -> ActionView {
    match parsed_request(request) {
        Err(e) => ActionView::Reply(e.answer()),
        Ok(RequestView::Insert { tag, timestamp, value }) => match file_of(entries, tag) {
            None => ActionView::Reply("Error: Tag not found"@),
            Some(file_name) => ActionView::Insert { file_name, timestamp, value },
        },
        Ok(RequestView::Query { tag, timestamp }) => match file_of(entries, tag) {
            None => ActionView::Reply("Error: Tag not found"@),
            Some(file_name) => ActionView::Query { file_name, timestamp },
        },
    }
}

/// What the server is to do for the text of a client; see [`action_for`].
pub fn process_request(request: &str, index_manager: &IndexManager) -> (r: Action)
    ensures
        r@ == action_for(request.spec_bytes(), index_manager.indices@),
{
    match parse_request(request.as_bytes()) {
        Err(e) => Action::Reply(e.message()),
        Ok(Request::Insert { tag, timestamp, value }) => match index_manager.find_entry(
            tag.as_slice(),
        ) {
            None => Action::Reply(String::from_str("Error: Tag not found")),
            Some(entry) => Action::Insert { file_name: entry.uuid.clone(), timestamp, value },
        },
        Ok(Request::Query { tag, timestamp }) => match index_manager.find_entry(tag.as_slice()) {
            None => Action::Reply(String::from_str("Error: Tag not found")),
            Some(entry) => Action::Query { file_name: entry.uuid.clone(), timestamp },
        },
    }
}

/// Byte offset of the slot that `timestamp` belongs to in a series with
/// the header.
pub open spec fn slot_position(header: Header, timestamp: i64) -> int {
    nearest_slot(timestamp - header.start_ts, header.interval as int) * (header.data_length as int)
}

/// Whether the slot of `timestamp` can be addressed in a series with the
/// header, and four bytes from its beginning on.
pub open spec fn slot_addressable(header: Header, timestamp: i64) -> bool {
    &&& header.interval > 0
    &&& timestamp - header.start_ts + header.interval / 2 > -header.interval
    &&& slot_position(header, timestamp) + 4 <= usize::MAX
}

fn can_address(nf_file: &NFFile, timestamp: i64) -> (r: bool)
    ensures
        r == slot_addressable(nf_file.header, timestamp),
        r ==> nf_file.addressable(timestamp, 4) && nf_file.addressable(timestamp, 0),
{
    if nf_file.header.interval == 0 {
        return false;
    }
    let delta: i128 = timestamp as i128 - nf_file.header.start_ts as i128;
    let half: i128 = (nf_file.header.interval / 2) as i128;
    let interval: i128 = nf_file.header.interval as i128;
    if delta + half <= -interval {
        return false;
    }
    let index: i128 = if delta + half < 0 {
        0
    } else {
        (delta + half) / interval
    };
    proof {
        let sum = delta + half;
        let step = interval as int;
        assert(sum >= 0 ==> 0 <= sum / step <= sum) by (nonlinear_arith)
            requires
                step > 0,
        ;
        assert(0 <= index * nf_file.header.data_length <= 0x1_0000_0000_0000_0000_0000 * 0xFFFF)
            by (nonlinear_arith)
            requires
                0 <= index <= 0x1_0000_0000_0000_0000_0000,
                0 <= nf_file.header.data_length <= 0xFFFF,
        ;
    }
    index * nf_file.header.data_length as i128 + 4 <= usize::MAX as i128
}

/// The four bytes of a value, the least significant first.
pub open spec fn value_bytes(value: i32) -> Seq<u8> {
    le_bytes(
        if value < 0 {
            value + pow256(4)
        } else {
            value as int
        },
        4,
    )
}

/// The value that four bytes write, the least significant first.
pub open spec fn bytes_value(bytes: Seq<u8>) -> i32 {
    let v = le_value(bytes);
    (if v >= 0x8000_0000 {
        v - 0x1_0000_0000
    } else {
        v
    }) as i32
}

/// The bytes of the file of a series after `value` has been stored at
/// `timestamp` in the series that the bytes `stored` hold; `None` where
/// `stored` is shorter than a header, and where the slot of the timestamp
/// cannot be addressed.
pub open spec fn inserted(stored: Seq<u8>, timestamp: i64, value: i32) -> Option<Seq<u8>> {
    let header = header_of(stored);
    if stored.len() < HEADER_BYTES || !slot_addressable(header, timestamp) {
        None
    } else {
        let position = slot_position(header, timestamp);
        Some(
            stored.subrange(0, HEADER_BYTES as int) + Slots::stored(
                stored.skip(HEADER_BYTES as int),
                position,
                position + 4,
                value_bytes(value),
            ),
        )
    }
}

fn push_value(value: i32) -> (r: Vec<u8>)
    ensures
        r@ == value_bytes(value),
        r@.len() == 4,
{
    proof {
        lemma_pow256_values();
        reveal_with_fuel(le_bytes, 5);
    }
    let x: u64 = if value < 0 {
        (value as i64 + 0x1_0000_0000) as u64
    } else {
        value as u64
    };
    let mut out: Vec<u8> = Vec::new();
    out.push((x % 256) as u8);
    out.push((x / 256 % 256) as u8);
    out.push((x / 65536 % 256) as u8);
    out.push((x / 16777216 % 256) as u8);
    assert(out@ =~= value_bytes(value));
    out
}

/// Stores a value in the series that the bytes of a file hold, and hands
/// back the bytes of the file as it is to be; see [`inserted`].
pub fn insert_data(stored: &[u8], timestamp: i64, value: i32) -> (r: Option<Vec<u8>>)
    ensures
        match r {
            Some(bytes) => inserted(stored@, timestamp, value) == Some(bytes@),
            None => inserted(stored@, timestamp, value) is None,
        },
{
    let mut nf_file: NFFile = NFFile::new(0, 1000, 4, Some(String::new()));
    if !load_nffile(&mut nf_file, stored) {
        return None;
    }
    if !can_address(&nf_file, timestamp) {
        return None;
    }
    let bytes: Vec<u8> = push_value(value);
    assert(nf_file.position(timestamp) == slot_position(header_of(stored@), timestamp));
    nf_file.add_data(timestamp, bytes.as_slice());
    let mut out: Vec<u8> = Vec::new();
    out.extend_from_slice(vstd::slice::slice_subrange(stored, 0, HEADER_BYTES));
    out.extend_from_slice(nf_file.data.as_slice());
    assert(out@ =~= inserted(stored@, timestamp, value)->0);
    Some(out)
}

/// The value at a time in the series that the bytes of a file hold; `None`
/// where the bytes are shorter than a header, where the slot of the time
/// cannot be addressed, and where the series ends before the end of the
/// value.
pub open spec fn queried(stored: Seq<u8>, timestamp: i64) -> Option<i32> {
    let header = header_of(stored);
    let data = stored.skip(HEADER_BYTES as int);
    let position = slot_position(header, timestamp);
    if stored.len() < HEADER_BYTES || !slot_addressable(header, timestamp) || position + 4
        > data.len() {
        None
    } else {
        Some(bytes_value(data.subrange(position, position + 4)))
    }
}

/// The value at a time in the series that the bytes of a file hold; see
/// [`queried`].
pub fn query_data(stored: &[u8], timestamp: i64) -> (r: Option<i32>)
    ensures
        r == queried(stored@, timestamp),
{
    let mut nf_file: NFFile = NFFile::new(0, 1000, 4, Some(String::new()));
    if !load_nffile(&mut nf_file, stored) {
        return None;
    }
    if !can_address(&nf_file, timestamp) {
        return None;
    }
    match nf_file.query_data(timestamp, 4) {
        None => None,
        Some(bytes) => {
            proof {
                lemma_pow256_values();
                reveal_with_fuel(le_value, 5);
                assert(bytes@.skip(1).skip(1) =~= bytes@.skip(2));
                assert(bytes@.skip(2).skip(1) =~= bytes@.skip(3));
                assert(bytes@.skip(3).skip(1) =~= Seq::<u8>::empty());
            }
            let v: u64 = bytes[0] as u64 + 256 * (bytes[1] as u64 + 256 * (bytes[2] as u64 + 256
                * (bytes[3] as u64)));
            if v >= 0x8000_0000 {
                Some((v as i64 - 0x1_0000_0000) as i32)
            } else {
                Some(v as i32)
            }
        },
    }
}


/// The characters that ASCII bytes write.
pub open spec fn ascii_chars(bytes: Seq<u8>) -> Seq<char> {
    Seq::new(bytes.len(), |i: int| bytes[i] as char)
}

fn digit_text(n: u64) -> (r: &'static str)
    requires
        n < 10,
    ensures
        r@ == seq![((48 + n) as u8) as char],
{
    proof {
        reveal_strlit("0");
        reveal_strlit("1");
        reveal_strlit("2");
        reveal_strlit("3");
        reveal_strlit("4");
        reveal_strlit("5");
        reveal_strlit("6");
        reveal_strlit("7");
        reveal_strlit("8");
        reveal_strlit("9");
    }
    let r: &'static str = if n == 0 {
        "0"
    } else if n == 1 {
        "1"
    } else if n == 2 {
        "2"
    } else if n == 3 {
        "3"
    } else if n == 4 {
        "4"
    } else if n == 5 {
        "5"
    } else if n == 6 {
        "6"
    } else if n == 7 {
        "7"
    } else if n == 8 {
        "8"
    } else {
        "9"
    };
    assert(r@ =~= seq![((48 + n) as u8) as char]);
    r
}

fn append_digits(out: String, n: u64) -> (r: String)
    ensures
        r@ == out@ + ascii_chars(decimal_digits(n as nat)),
    decreases n,
{
    let head: String = if n >= 10 {
        append_digits(out, n / 10)
    } else {
        out
    };
    let r: String = head.concat(digit_text(n % 10));
    assert(r@ =~= out@ + ascii_chars(decimal_digits(n as nat)));
    r
}

/// An integer in decimal digits, as a string.
pub fn decimal_string(i: i64) -> (r: String)
    ensures
        r@ == ascii_chars(integer_text(i)),
{
    if i < 0 {
        proof {
            reveal_strlit("-");
        }
        let r: String = append_digits(String::from_str("-"), (-(i as i128)) as u64);
        assert(r@ =~= ascii_chars(integer_text(i)));
        r
    } else {
        let r: String = append_digits(String::new(), i as u64);
        assert(r@ =~= ascii_chars(integer_text(i)));
        r
    }
}

/// The answer to a query that has found `value` at `timestamp`, or nothing.
pub open spec fn query_answer(timestamp: i64, value: Option<i32>) -> Seq<char> {
    match value {
        Some(v) => "Data at "@ + ascii_chars(integer_text(timestamp)) + ": "@ + ascii_chars(
            integer_text(v as i64),
        ),
        None => "Error: Data not found"@,
    }
}

/// The answer to a query; see [`query_answer`].
pub fn query_response(timestamp: i64, value: Option<i32>) -> (r: String)
    ensures
        r@ == query_answer(timestamp, value),
{
    match value {
        Some(v) => {
            let ts: String = decimal_string(timestamp);
            let text: String = decimal_string(v as i64);
            String::from_str("Data at ").concat(ts.as_str()).concat(": ").concat(text.as_str())
        },
        None => String::from_str("Error: Data not found"),
    }
}

/// The answer to an insertion that was carried out.
pub fn insert_response() -> (r: String)
    ensures
        r@ == "Data inserted successfully"@,
{
    String::from_str("Data inserted successfully")
}

/// Sets a database up for the first time: the tag `temperature` gets the
/// file `file_name`, last changed at `now`, and the bytes of that file are
/// handed back: a series that begins at 0 with a slot of four bytes every
/// thousand, and the value 42 at the time 1000.
pub fn initialize_database(index_manager: &mut IndexManager, file_name: &str, now: u64) -> (r:
    Vec<u8>)
    ensures
        final(index_manager)@ == old(index_manager)@.insert(
            "temperature"@,
            crate::index_manager::index_manager::IndexEntryView {
                uuid: file_name@,
                last_modified: now,
            },
        ),
        r@ == le_bytes(0, 8) + le_bytes(1000, 4) + le_bytes(4, 2) + seq![0u8, 0u8, 0u8, 0u8]
            + value_bytes(42),
{
    index_manager.add_index_entry(
        String::from_str("temperature"),
        String::from_str(file_name),
        now,
    );
    let mut nf_file: NFFile = NFFile::new(0, 1000, 4, Some(String::from_str(file_name)));
    let bytes: Vec<u8> = push_value(42);
    proof {
        assert(nearest_slot(1000 - 0, 1000) == 1);
        assert(nf_file.position(1000) == 4);
    }
    nf_file.add_data(1000, bytes.as_slice());
    let out: Vec<u8> = nf_file.to_bytes();
    proof {
        assert(nf_file.data@ =~= seq![0u8, 0u8, 0u8, 0u8] + value_bytes(42));
        assert(out@ =~= le_bytes(0, 8) + le_bytes(1000, 4) + le_bytes(4, 2) + seq![
            0u8,
            0u8,
            0u8,
            0u8,
        ] + value_bytes(42));
    }
    out
}

} // verus!
