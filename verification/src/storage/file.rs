use vstd::prelude::*;
use vstd::slice::slice_subrange;

verus! {

/// Describes a series of fixed-width records taken at a fixed interval.
#[derive(Debug)]
pub struct Header {
    pub version: u8,
    /// Timestamp of the record stored in slot 0.
    pub start_ts: i64,
    /// Distance between two neighbouring slots, in timestamp units.
    pub interval: u32,
    /// Width of one slot in bytes.
    pub data_length: u16,
}

/// An in-memory series: slot `k` occupies the bytes
/// `k * data_length .. (k + 1) * data_length` of `data`.
#[derive(Debug)]
pub struct NFFile {
    pub header: Header,
    pub data: Vec<u8>,
    /// End of the slot written most recently.
    pub cursor: usize,
}

impl NFFile {
    /// Byte offset of the slot that holds `timestamp`.
    pub open spec fn position(&self, timestamp: i64) -> int {
        ((timestamp - self.header.start_ts) / (self.header.interval as int)) * (
        self.header.data_length as int)
    }

    /// One past the last byte of the slot that holds `timestamp`.
    pub open spec fn slot_end(&self, timestamp: i64) -> int {
        self.position(timestamp) + self.header.data_length
    }

    /// The timestamps whose slot can be addressed: the interval is positive, the
    /// timestamp does not precede the start, and the slot ends within `usize`.
    pub open spec fn addressable(&self, timestamp: i64) -> bool {
        &&& self.header.interval > 0
        &&& timestamp >= self.header.start_ts
        &&& timestamp - self.header.start_ts <= usize::MAX
        &&& self.slot_end(timestamp) <= usize::MAX
    }

    /// The bytes of the series after `value` has been stored at offset `pos` and
    /// the series has been padded with zeros up to `end`.
    pub open spec fn stored(old_data: Seq<u8>, pos: int, end: int, value: Seq<u8>) -> Seq<u8> {
        Seq::new(
            if end > old_data.len() {
                end as nat
            } else {
                old_data.len()
            },
            |i: int|
                if pos <= i < pos + value.len() {
                    value[i - pos]
                } else if i < old_data.len() {
                    old_data[i]
                } else {
                    0u8
                },
        )
    }

    pub fn new(header: Header) -> (r: Self)
        ensures
            r.header == header,
            r.data@ == Seq::<u8>::empty(),
            r.cursor == 0,
    {
        NFFile { header, data: Vec::new(), cursor: 0 }
    }

    fn calculate_position(&self, timestamp: i64) -> (r: usize)
        requires
            self.addressable(timestamp),
        ensures
            r == self.position(timestamp),
    {
        let delta: usize = (timestamp as i128 - self.header.start_ts as i128) as usize;
        let slot: usize = delta / (self.header.interval as usize);
        proof {
            let d = timestamp - self.header.start_ts;
            let n = self.header.interval as int;
            let w = self.header.data_length as int;
            assert(0 <= d / n) by (nonlinear_arith)
                requires
                    0 <= d,
                    0 < n,
            ;
            assert((d / n) * w >= 0) by (nonlinear_arith)
                requires
                    0 <= d / n,
                    0 <= w,
            ;
        }
        slot * (self.header.data_length as usize)
    }

    /// Stores `value` at the slot of `timestamp`, growing the series with zeros
    /// where it was shorter than the end of that slot, and moves the cursor to
    /// the end of the slot.
    pub fn add_data(&mut self, timestamp: i64, value: &[u8])
        requires
            old(self).addressable(timestamp),
            old(self).position(timestamp) + value@.len() <= old(self).slot_end(timestamp)
                || old(self).position(timestamp) + value@.len() <= old(self).data@.len(),
        ensures
            final(self).header == old(self).header,
            final(self).cursor == old(self).slot_end(timestamp),
            final(self).data@ == Self::stored(
                old(self).data@,
                old(self).position(timestamp),
                old(self).slot_end(timestamp),
                value@,
            ),
    {
        let position: usize = self.calculate_position(timestamp);
        let end: usize = position + self.header.data_length as usize;
        if end > self.data.len() {
            self.data.resize(end, 0);
        }
        let ghost padded = self.data@;
        assert(self.data.len() <= usize::MAX);
        let mut i: usize = 0;
        while i < value.len()
            invariant
                i <= value@.len(),
                position + value@.len() <= self.data@.len() <= usize::MAX,
                self.header == old(self).header,
                self.cursor == old(self).cursor,
                self.data@.len() == padded.len(),
                forall|j: int|
                    0 <= j < padded.len() ==> self.data@[j] == if position <= j < position + i {
                        value@[j - position]
                    } else {
                        padded[j]
                    },
            decreases value@.len() - i,
        {
            self.data[position + i] = value[i];
            i += 1;
        }
        self.cursor = end;
        assert(self.data@ =~= Self::stored(
            old(self).data@,
            old(self).position(timestamp),
            old(self).slot_end(timestamp),
            value@,
        ));
    }

    /// The bytes of the slot of `query_timestamp`, or `None` where the series
    /// ends before the end of that slot.
    pub fn query_data(&self, query_timestamp: i64) -> (r: Option<&[u8]>)
        requires
            self.addressable(query_timestamp),
        ensures
            r.is_some() <==> self.slot_end(query_timestamp) <= self.data@.len(),
            r.is_some() ==> r.unwrap()@ == self.data@.subrange(
                self.position(query_timestamp),
                self.slot_end(query_timestamp),
            ),
    {
        let position: usize = self.calculate_position(query_timestamp);
        let end: usize = position + self.header.data_length as usize;
        if end > self.data.len() {
            None
        } else {
            Some(slice_subrange(self.data.as_slice(), position, end))
        }
    }
}

} // verus!
