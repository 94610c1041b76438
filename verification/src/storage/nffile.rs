use vstd::prelude::*;
use vstd::slice::slice_subrange;
use vstd::string::StringExecFns;

use crate::interpreter::record::{lemma_pow256_values, pow256};

verus! {

/// Describes a series of records taken at a fixed interval.
#[derive(Debug)]
pub struct Header {
    /// Timestamp of the record stored in slot 0.
    pub start_ts: i64,
    /// Distance between two neighbouring slots, in timestamp units.
    pub interval: u32,
    /// Width of one slot in bytes.
    pub data_length: u16,
}

/// A series in memory, and the name of the file that keeps it. Slot `k`
/// begins `k * data_length` bytes into `data`. A timestamp belongs to the
/// slot that it is nearest to.
#[derive(Debug)]
pub struct NFFile {
    pub header: Header,
    pub data: Vec<u8>,
    pub file_path: String,
}

/// The number of bytes of a header in a file.
pub const HEADER_BYTES: usize = 14;

/// Whether a character is a hexadecimal digit in small letters.
pub open spec fn is_lower_hex(c: char) -> bool {
    ('0' <= c && c <= '9') || ('a' <= c && c <= 'f')
}

/// Whether a text has the form of an identifier with hyphens: 36
/// characters, of which four are hyphens, at the places 8, 13, 18 and 23,
/// and the others hexadecimal digits in small letters.
pub open spec fn is_hyphenated_id(s: Seq<char>) -> bool {
    &&& s.len() == 36
    &&& forall|i: int|
        0 <= i < 36 ==> if i == 8 || i == 13 || i == 18 || i == 23 {
            #[trigger] s[i] == '-'
        } else {
            is_lower_hex(s[i])
        }
}

/// A fresh random identifier as text. The body calls `uuid::Uuid::new_v4`
/// and the `to_string` that the crate gives its identifiers. The contract
/// claims of them only the form of the text: the crate writes an identifier
/// with hyphens in small hexadecimal digits, 36 characters long. Which
/// identifier comes is up to chance, and the call does not return where the
/// system has no random bytes to give.
#[verifier::external_body]
fn random_identifier() -> (r: String)
    ensures
        is_hyphenated_id(r@),
{
    uuid::Uuid::new_v4().to_string()
}

/// The name of the file for a series that was given none: an identifier
/// followed by `.bin`.
pub open spec fn is_default_path(path: Seq<char>) -> bool {
    &&& path.len() == 40
    &&& is_hyphenated_id(path.subrange(0, 36))
    &&& path.subrange(36, 40) == ".bin"@
}

/// The name of a file for a series whose identifier is `stem`.
pub fn default_path(stem: String) -> (r: String)
    ensures
        r@ == stem@ + ".bin"@,
{
    stem.concat(".bin")
}

/// The whole number nearest to `delta / interval`, a half going upwards;
/// zero where that is negative.
pub open spec fn nearest_slot(delta: int, interval: int) -> int {
    if delta + interval / 2 < 0 {
        0
    } else {
        (delta + interval / 2) / interval
    }
}

impl NFFile {
    /// A series without records. Where no name of a file is given, the series
    /// gets one of its own, made of a random identifier.
    pub fn new(start_ts: i64, interval: u32, data_length: u16, file_path: Option<String>) -> (r:
        Self)
        ensures
            r.header.start_ts == start_ts,
            r.header.interval == interval,
            r.header.data_length == data_length,
            r.data@ == Seq::<u8>::empty(),
            match file_path {
                Some(path) => r.file_path@ == path@,
                None => is_default_path(r.file_path@),
            },
    {
        let file_path: String = match file_path {
            Some(path) => path,
            None => {
                let stem: String = random_identifier();
                let path: String = default_path(stem);
                proof {
                    reveal_strlit(".bin");
                    assert(path@.subrange(0, 36) =~= stem@);
                    assert(path@.subrange(36, 40) =~= ".bin"@);
                }
                path
            },
        };
        NFFile { header: Header { start_ts, interval, data_length }, data: Vec::new(), file_path }
    }

    /// Byte offset of the slot that `timestamp` belongs to.
    pub open spec fn position(&self, timestamp: i64) -> int {
        nearest_slot(timestamp - self.header.start_ts, self.header.interval as int) * (
        self.header.data_length as int)
    }

    /// The timestamps whose slot can be addressed: the interval is positive,
    /// the timestamp lies less than half an interval before the start or
    /// anywhere behind it, and `room` bytes from the beginning of the slot lie
    /// within `usize`.
    pub open spec fn addressable(&self, timestamp: i64, room: int) -> bool {
        &&& self.header.interval > 0
        &&& timestamp - self.header.start_ts + self.header.interval / 2 > -self.header.interval
        &&& self.position(timestamp) + room <= usize::MAX
    }

    fn calculate_position(&self, timestamp: i64) -> (r: usize)
        requires
            self.addressable(timestamp, 0),
        ensures
            r == self.position(timestamp),
    {
        let delta: i128 = timestamp as i128 - self.header.start_ts as i128;
        let half: i128 = (self.header.interval / 2) as i128;
        let interval: i128 = self.header.interval as i128;
        let index: i128 = if delta + half < 0 {
            0
        } else {
            (delta + half) / interval
        };
        proof {
            let n = nearest_slot(timestamp - self.header.start_ts, self.header.interval as int);
            let w = self.header.data_length as int;
            let sum = delta + half;
            let step = interval as int;
            assert(sum >= 0 ==> sum / step >= 0) by (nonlinear_arith)
                requires
                    step > 0,
            ;
            assert(n * w >= 0) by (nonlinear_arith)
                requires
                    n >= 0,
                    w >= 0,
            ;
        }
        (index * self.header.data_length as i128) as usize
    }

    /// Stores `value` from the beginning of the slot of `timestamp`, growing
    /// the series with zeros where it ended before the end of the value.
    pub fn add_data(&mut self, timestamp: i64, value: &[u8])
        requires
            old(self).addressable(timestamp, value@.len() as int),
        ensures
            final(self).header == old(self).header,
            final(self).file_path == old(self).file_path,
            final(self).data@ == crate::storage::file::NFFile::stored(
                old(self).data@,
                old(self).position(timestamp),
                old(self).position(timestamp) + value@.len(),
                value@,
            ),
    {
        self.range_write(timestamp, value);
    }

    /// The `size` bytes from the beginning of the slot of `query_timestamp`,
    /// or `None` where the series ends before their end.
    pub fn query_data(&self, query_timestamp: i64, size: usize) -> (r: Option<&[u8]>)
        requires
            self.addressable(query_timestamp, 0),
        ensures
            r.is_some() <==> self.position(query_timestamp) + size <= self.data@.len(),
            r.is_some() ==> r.unwrap()@ == self.data@.subrange(
                self.position(query_timestamp),
                self.position(query_timestamp) + size,
            ),
    {
        let position: usize = self.calculate_position(query_timestamp);
        let len: usize = self.data.len();
        if position > len || size > len - position {
            None
        } else {
            Some(slice_subrange(self.data.as_slice(), position, position + size))
        }
    }

    /// Stores `values`, the bytes of some records one behind the other, from
    /// the beginning of the slot of `start_timestamp`, growing the series
    /// with zeros where it ended before their end.
    pub fn range_write(&mut self, start_timestamp: i64, values: &[u8])
        requires
            old(self).addressable(start_timestamp, values@.len() as int),
        ensures
            final(self).header == old(self).header,
            final(self).file_path == old(self).file_path,
            final(self).data@ == crate::storage::file::NFFile::stored(
                old(self).data@,
                old(self).position(start_timestamp),
                old(self).position(start_timestamp) + values@.len(),
                values@,
            ),
    {
        let position: usize = self.calculate_position(start_timestamp);
        let required: usize = position + values.len();
        if required > self.data.len() {
            self.data.resize(required, 0);
        }
        let ghost padded = self.data@;
        assert(self.data.len() <= usize::MAX);
        let mut i: usize = 0;
        while i < values.len()
            invariant
                i <= values@.len(),
                position + values@.len() <= self.data@.len() <= usize::MAX,
                self.header == old(self).header,
                self.file_path == old(self).file_path,
                self.data@.len() == padded.len(),
                forall|j: int|
                    0 <= j < padded.len() ==> self.data@[j] == if position <= j < position + i {
                        values@[j - position]
                    } else {
                        padded[j]
                    },
            decreases values@.len() - i,
        {
            self.data[position + i] = values[i];
            i += 1;
        }
        assert(self.data@ =~= crate::storage::file::NFFile::stored(
            old(self).data@,
            old(self).position(start_timestamp),
            old(self).position(start_timestamp) + values@.len(),
            values@,
        ));
    }

    /// The number of records of `size` bytes, `count` at most, that the
    /// series holds whole from the place `position` on, one behind the other.
    pub open spec fn readable(&self, position: int, count: int, size: int) -> int
        decreases count,
    {
        if count <= 0 || position > self.data@.len() || size > self.data@.len() - position {
            0
        } else {
            1 + self.readable(position + size, count - 1, size)
        }
    }

    /// The records of `size` bytes each from the beginning of the slot of
    /// `start_timestamp` on: `count` of them, or as many whole ones as the
    /// series holds from there.
    pub fn range_read(&self, start_timestamp: i64, count: usize, size: usize) -> (r: Vec<&[u8]>)
        requires
            self.addressable(start_timestamp, 0),
        ensures
            r@.len() == self.readable(self.position(start_timestamp), count as int, size as int),
            forall|k: int|
                0 <= k < r@.len() ==> (#[trigger] r@[k])@ == self.data@.subrange(
                    self.position(start_timestamp) + k * size,
                    self.position(start_timestamp) + k * size + size,
                ),
    {
        let position: usize = self.calculate_position(start_timestamp);
        let len: usize = self.data.len();
        let mut results: Vec<&[u8]> = Vec::new();
        let mut current: usize = position;
        let mut k: usize = 0;
        proof {
            assert(0 * size == 0) by (nonlinear_arith);
        }
        while k < count && current <= len && size <= len - current
            invariant
                k <= count,
                len == self.data@.len(),
                results@.len() == k,
                current == position + k * size,
                forall|j: int|
                    0 <= j < k ==> (#[trigger] results@[j])@ == self.data@.subrange(
                        position + j * size,
                        position + j * size + size,
                    ),
                k + self.readable(current as int, count - k, size as int) == self.readable(
                    position as int,
                    count as int,
                    size as int,
                ),
            decreases count - k,
        {
            results.push(slice_subrange(self.data.as_slice(), current, current + size));
            proof {
                assert((k + 1) * size == k * size + size) by (nonlinear_arith);
            }
            current = current + size;
            k = k + 1;
        }
        results
    }

    /// The bytes of the series as a file keeps them: the start, the
    /// interval and the width of a slot, each with its least significant byte
    /// first, and the data.
    pub open spec fn file_bytes(&self) -> Seq<u8> {
        le_bytes(
            if self.header.start_ts < 0 {
                self.header.start_ts + pow256(8)
            } else {
                self.header.start_ts as int
            },
            8,
        ) + le_bytes(self.header.interval as int, 4) + le_bytes(self.header.data_length as int, 2)
            + self.data@
    }

    /// The bytes of the series as a file keeps them; see
    /// [`NFFile::file_bytes`].
    pub fn to_bytes(&self) -> (r: Vec<u8>)
        ensures
            r@ == self.file_bytes(),
    {
        let mut out: Vec<u8> = Vec::new();
        proof {
            lemma_pow256_values();
        }
        let start: u64 = if self.header.start_ts < 0 {
            (self.header.start_ts as i128 + 0x1_0000_0000_0000_0000) as u64
        } else {
            self.header.start_ts as u64
        };
        push_le(&mut out, start, 8);
        push_le(&mut out, self.header.interval as u64, 4);
        push_le(&mut out, self.header.data_length as u64, 2);
        out.extend_from_slice(self.data.as_slice());
        assert(out@ =~= self.file_bytes());
        out
    }
}

/// The `w` bytes that write `x`, the least significant first.
pub open spec fn le_bytes(x: int, w: int) -> Seq<u8>
    decreases w,
{
    if w <= 0 {
        Seq::<u8>::empty()
    } else {
        seq![(x % 256) as u8] + le_bytes(x / 256, w - 1)
    }
}

/// The number that the bytes write, the least significant first.
pub open spec fn le_value(s: Seq<u8>) -> int
    decreases s.len(),
{
    if s.len() == 0 {
        0
    } else {
        s[0] + 256 * le_value(s.skip(1))
    }
}

fn push_le(out: &mut Vec<u8>, x: u64, w: usize)
    requires
        w <= 8,
    ensures
        final(out)@ == old(out)@ + le_bytes(x as int, w as int),
    decreases w,
{
    if w > 0 {
        out.push((x % 256) as u8);
        push_le(out, x / 256, w - 1);
    }
    assert(final(out)@ =~= old(out)@ + le_bytes(x as int, w as int));
}

fn read_le(s: &[u8], from: usize, w: usize) -> (r: u64)
    requires
        w <= 8,
        from + w <= s@.len(),
    ensures
        r == le_value(s@.subrange(from as int, from + w)),
        r < pow256(w as int),
    decreases w,
{
    proof {
        lemma_pow256_values();
    }
    assert(s.len() <= usize::MAX);
    if w == 0 {
        0
    } else {
        let rest: u64 = read_le(s, from + 1, w - 1);
        proof {
            let whole = s@.subrange(from as int, from + w);
            assert(whole.skip(1) =~= s@.subrange(from + 1, from + w));
            assert(pow256(w as int) == 256 * pow256(w - 1));
        }
        s[from] as u64 + 256 * rest
    }
}

/// The header that the first fourteen bytes of a file write.
pub open spec fn header_of(bytes: Seq<u8>) -> Header {
    let start = le_value(bytes.subrange(0, 8));
    Header {
        start_ts: (if start >= 0x8000_0000_0000_0000 {
            start - 0x1_0000_0000_0000_0000
        } else {
            start
        }) as i64,
        interval: le_value(bytes.subrange(8, 12)) as u32,
        data_length: le_value(bytes.subrange(12, 14)) as u16,
    }
}

/// Reads the header of a series from the beginning of its file; `None`
/// where the file is shorter than a header.
pub fn read_header(bytes: &[u8]) -> (r: Option<Header>)
    ensures
        r is Some == (bytes@.len() >= HEADER_BYTES),
        r is Some ==> r->0 == header_of(bytes@),
{
    if bytes.len() < HEADER_BYTES {
        return None;
    }
    proof {
        lemma_pow256_values();
    }
    let start: u64 = read_le(bytes, 0, 8);
    let start_ts: i64 = if start >= 0x8000_0000_0000_0000 {
        (start as i128 - 0x1_0000_0000_0000_0000) as i64
    } else {
        start as i64
    };
    Some(
        Header {
            start_ts,
            interval: read_le(bytes, 8, 4) as u32,
            data_length: read_le(bytes, 12, 2) as u16,
        },
    )
}

/// The bytes of a series as a file keeps them; see [`NFFile::file_bytes`].
pub fn flush_nffile(nf_file: &NFFile) -> (r: Vec<u8>)
    ensures
        r@ == nf_file.file_bytes(),
{
    nf_file.to_bytes()
}

/// Replaces the header and the data of a series by what the bytes of a file
/// hold. A file that is shorter than a header is refused, and the series
/// left as it was.
pub fn load_nffile(nf_file: &mut NFFile, bytes: &[u8]) -> (r: bool)
    ensures
        r == (bytes@.len() >= HEADER_BYTES),
        final(nf_file).file_path == old(nf_file).file_path,
        r ==> final(nf_file).header == header_of(bytes@) && final(nf_file).data@ == bytes@.skip(
            HEADER_BYTES as int,
        ),
        !r ==> *final(nf_file) == *old(nf_file),
{
    match read_header(bytes) {
        None => false,
        Some(header) => {
            let mut data: Vec<u8> = Vec::new();
            data.extend_from_slice(slice_subrange(bytes, HEADER_BYTES, bytes.len()));
            assert(data@ =~= bytes@.skip(HEADER_BYTES as int));
            nf_file.header = header;
            nf_file.data = data;
            true
        },
    }
}

} // verus!
