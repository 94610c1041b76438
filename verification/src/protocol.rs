use vstd::prelude::*;
use vstd::slice::slice_subrange;
use vstd::string::StringExecFns;

use crate::interpreter::definition::find_token_start;
use crate::interpreter::numeric::{
    append_digits, digit_run, digits_end, is_space, read_exponent, skip_spaces,
};
use crate::interpreter::schema::same_bytes;

verus! {

/// What a client asks for.
#[derive(Debug, PartialEq, Eq)]
pub enum Request {
    /// To store a value in the series of a tag.
    Insert { tag: Vec<u8>, timestamp: i64, value: i32 },
    /// To read the value at a time from the series of a tag.
    Query { tag: Vec<u8>, timestamp: i64 },
}

/// What a [`Request`] holds.
pub enum RequestView {
    Insert { tag: Seq<u8>, timestamp: i64, value: i32 },
    Query { tag: Seq<u8>, timestamp: i64 },
}

impl View for Request {
    type V = RequestView;

    open spec fn view(&self) -> RequestView {
        match self {
            Request::Insert { tag, timestamp, value } => RequestView::Insert {
                tag: tag@,
                timestamp: *timestamp,
                value: *value,
            },
            Request::Query { tag, timestamp } => RequestView::Query {
                tag: tag@,
                timestamp: *timestamp,
            },
        }
    }
}

/// Why a text is no request.
#[derive(Clone, Copy, Debug, PartialEq, Eq, Structural)]
pub enum RequestError {
    /// The text has fewer than two words.
    InvalidFormat,
    /// An insertion with fewer than four words.
    InvalidInsertFormat,
    /// A query with fewer than three words.
    InvalidQueryFormat,
    /// The third word is no timestamp.
    InvalidTimestamp,
    /// The fourth word of an insertion is no value.
    InvalidValue,
    /// The first word is neither `INSERT` nor `QUERY`.
    UnknownCommand,
}

/// The end of the word that begins at `i`: the first white space at or
/// after `i`, or the end of the text.
pub open spec fn word_stop(s: Seq<u8>, i: int) -> int
    decreases s.len() - i,
{
    if 0 <= i < s.len() && !is_space(s[i]) {
        word_stop(s, i + 1)
    } else {
        i
    }
}

/// The words of a text from `i` on, each as the places where it begins and
/// ends. White space parts the words.
pub open spec fn words(s: Seq<u8>, i: int) -> Seq<(int, int)>
    decreases s.len() - i,
{
    let a = skip_spaces(s, i);
    let e = word_stop(s, a);
    if i < 0 || a < i || a >= s.len() || e <= a || e > s.len() {
        Seq::<(int, int)>::empty()
    } else {
        seq![(a, e)] + words(s, e)
    }
}

/// The integer that a word writes in decimal digits, with a sign or
/// without; `None` for a word that has no digit, has anything but digits
/// behind its sign, or writes a number beyond the range from `low` to
/// `high`.
pub open spec fn decimal(word: Seq<u8>, low: int, high: int) -> Option<int> {
    let from: int = if word.len() > 0 && (word[0] == 43 || word[0] == 45) {
        1
    } else {
        0
    };
    let d = append_digits(0, word, from, word.len() as int);
    let v = if word.len() > 0 && word[0] == 45 {
        -d
    } else {
        d as int
    };
    if from < word.len() && digit_run(word, from) == word.len() && low <= v <= high {
        Some(v)
    } else {
        None
    }
}

/// The word `INSERT`.
pub open spec fn insert_word() -> Seq<u8> {
    seq![73u8, 78u8, 83u8, 69u8, 82u8, 84u8]
}

/// The word `QUERY`.
pub open spec fn query_word() -> Seq<u8> {
    seq![81u8, 85u8, 69u8, 82u8, 89u8]
}

/// The request that a text writes. Its words are a command, a tag, a
/// timestamp and, for an insertion, a value; what follows them is not read.
pub open spec fn parsed_request(s: Seq<u8>) -> core::result::Result<RequestView, RequestError> {
    let ws = words(s, 0);
    if ws.len() < 2 {
        Err(RequestError::InvalidFormat)
    } else {
        let command = s.subrange(ws[0].0, ws[0].1);
        let tag = s.subrange(ws[1].0, ws[1].1);
        if command == insert_word() {
            if ws.len() < 4 {
                Err(RequestError::InvalidInsertFormat)
            } else {
                match decimal(s.subrange(ws[2].0, ws[2].1), i64::MIN as int, i64::MAX as int) {
                    None => Err(RequestError::InvalidTimestamp),
                    Some(ts) => match decimal(
                        s.subrange(ws[3].0, ws[3].1),
                        i32::MIN as int,
                        i32::MAX as int,
                    ) {
                        None => Err(RequestError::InvalidValue),
                        Some(v) => Ok(
                            RequestView::Insert { tag, timestamp: ts as i64, value: v as i32 },
                        ),
                    },
                }
            }
        } else if command == query_word() {
            if ws.len() < 3 {
                Err(RequestError::InvalidQueryFormat)
            } else {
                match decimal(s.subrange(ws[2].0, ws[2].1), i64::MIN as int, i64::MAX as int) {
                    None => Err(RequestError::InvalidTimestamp),
                    Some(ts) => Ok(RequestView::Query { tag, timestamp: ts as i64 }),
                }
            }
        } else {
            Err(RequestError::UnknownCommand)
        }
    }
}

fn find_word_stop(s: &[u8], i: usize) -> (r: usize)
    requires
        i <= s@.len(),
    ensures
        r == word_stop(s@, i as int),
        i <= r <= s@.len(),
{
    let mut j: usize = i;
    while j < s.len() && !(s[j] == 32 || (9 <= s[j] && s[j] <= 13))
        invariant
            i <= j <= s@.len(),
            word_stop(s@, j as int) == word_stop(s@, i as int),
        decreases s@.len() - j,
    {
        j = j + 1;
    }
    j
}

/// The first words of a text, four at most.
fn first_words(s: &[u8]) -> (r: Vec<(usize, usize)>)
    ensures
        r@.len() <= 4,
        r@.len() <= words(s@, 0).len(),
        r@.len() < 4 ==> r@.len() == words(s@, 0).len(),
        forall|k: int|
            0 <= k < r@.len() ==> (#[trigger] r@[k]).0 == words(s@, 0)[k].0 && r@[k].1 == words(
                s@,
                0,
            )[k].1 && r@[k].0 <= r@[k].1 <= s@.len(),
{
    let len: usize = s.len();
    let mut out: Vec<(usize, usize)> = Vec::new();
    let mut i: usize = 0;
    let ghost all = words(s@, 0);
    let ghost done: Seq<(int, int)> = Seq::empty();
    assert(done + words(s@, 0) =~= all);
    while out.len() < 4
        invariant
            i <= len,
            len == s@.len(),
            all == words(s@, 0),
            done.len() == out@.len(),
            out@.len() <= 4,
            done + words(s@, i as int) == all,
            forall|k: int|
                0 <= k < out@.len() ==> (#[trigger] out@[k]).0 == done[k].0 && out@[k].1 == done[k].1
                    && out@[k].0 <= out@[k].1 <= len,
        decreases 4 - out@.len(),
    {
        let a: usize = find_token_start(s, i);
        if a >= len {
            assert(done + Seq::<(int, int)>::empty() =~= done);
            return out;
        }
        let e: usize = find_word_stop(s, a);
        proof {
            assert(!is_space(s@[a as int])) by {
                lemma_not_space_at_start(s@, i as int);
            }
            lemma_word_stop(s@, a + 1);
            assert(e > a);
            assert(words(s@, i as int) == seq![(a as int, e as int)] + words(s@, e as int));
            assert(done + (seq![(a as int, e as int)] + words(s@, e as int)) =~= done.push(
                (a as int, e as int),
            ) + words(s@, e as int));
            done = done.push((a as int, e as int));
        }
        out.push((a, e));
        i = e;
    }
    out
}

proof fn lemma_word_stop(s: Seq<u8>, j: int)
    requires
        0 <= j <= s.len(),
    ensures
        j <= word_stop(s, j) <= s.len(),
    decreases s.len() - j,
{
    if j < s.len() && !is_space(s[j]) {
        lemma_word_stop(s, j + 1);
    }
}

/// Where white space has been skipped, no white space stands.
proof fn lemma_not_space_at_start(s: Seq<u8>, i: int)
    requires
        0 <= i <= s.len(),
        skip_spaces(s, i) < s.len(),
    ensures
        !is_space(s[skip_spaces(s, i)]),
    decreases s.len() - i,
{
    if i < s.len() && is_space(s[i]) {
        lemma_not_space_at_start(s, i + 1);
    }
}

/// The integer that a word writes; see [`decimal`].
fn parse_decimal(word: &[u8], low: i64, high: i64) -> (r: Option<i64>)
    requires
        low <= 0 <= high,
    ensures
        match r {
            Some(v) => decimal(word@, low as int, high as int) == Some(v as int),
            None => decimal(word@, low as int, high as int) is None,
        },
{
    let len: usize = word.len();
    let negative: bool = len > 0 && word[0] == 45;
    let from: usize = if len > 0 && (word[0] == 43 || word[0] == 45) {
        1
    } else {
        0
    };
    if from >= len {
        return None;
    }
    let to: usize = digits_end(word, from);
    if to != len {
        return None;
    }
    let d: i128 = read_exponent(word, from, to);
    let v: i128 = if negative {
        -d
    } else {
        d
    };
    if low as i128 <= v && v <= high as i128 {
        Some(v as i64)
    } else {
        None
    }
}

/// The request that a text writes; see [`parsed_request`].
pub fn parse_request(request: &[u8]) -> (r: core::result::Result<Request, RequestError>)
    ensures
        match r {
            Ok(req) => parsed_request(request@) == Ok::<RequestView, RequestError>(req@),
            Err(e) => parsed_request(request@) == Err::<RequestView, RequestError>(e),
        },
{
    let parts: Vec<(usize, usize)> = first_words(request);
    if parts.len() < 2 {
        return Err(RequestError::InvalidFormat);
    }
    let command: &[u8] = slice_subrange(request, parts[0].0, parts[0].1);
    let tag: &[u8] = slice_subrange(request, parts[1].0, parts[1].1);
    let insert: Vec<u8> = vec![73u8, 78u8, 83u8, 69u8, 82u8, 84u8];
    let query: Vec<u8> = vec![81u8, 85u8, 69u8, 82u8, 89u8];
    assert(insert@ =~= insert_word());
    assert(query@ =~= query_word());
    if same_bytes(command, insert.as_slice()) {
        if parts.len() < 4 {
            return Err(RequestError::InvalidInsertFormat);
        }
        let timestamp: i64 = match parse_decimal(
            slice_subrange(request, parts[2].0, parts[2].1),
            i64::MIN,
            i64::MAX,
        ) {
            None => {
                return Err(RequestError::InvalidTimestamp);
            },
            Some(ts) => ts,
        };
        let value: i64 = match parse_decimal(
            slice_subrange(request, parts[3].0, parts[3].1),
            -0x8000_0000,
            0x7FFF_FFFF,
        ) {
            None => {
                return Err(RequestError::InvalidValue);
            },
            Some(v) => v,
        };
        let mut owned: Vec<u8> = Vec::new();
        owned.extend_from_slice(tag);
        assert(owned@ =~= tag@);
        Ok(Request::Insert { tag: owned, timestamp, value: value as i32 })
    } else if same_bytes(command, query.as_slice()) {
        if parts.len() < 3 {
            return Err(RequestError::InvalidQueryFormat);
        }
        let timestamp: i64 = match parse_decimal(
            slice_subrange(request, parts[2].0, parts[2].1),
            i64::MIN,
            i64::MAX,
        ) {
            None => {
                return Err(RequestError::InvalidTimestamp);
            },
            Some(ts) => ts,
        };
        let mut owned: Vec<u8> = Vec::new();
        owned.extend_from_slice(tag);
        assert(owned@ =~= tag@);
        Ok(Request::Query { tag: owned, timestamp })
    } else {
        Err(RequestError::UnknownCommand)
    }
}

impl RequestError {
    /// The answer to a client whose text is no request.
    pub open spec fn answer(self) -> Seq<char> {
        match self {
            RequestError::InvalidFormat => "Error: Invalid request format"@,
            RequestError::InvalidInsertFormat => "Error: Invalid INSERT format"@,
            RequestError::InvalidQueryFormat => "Error: Invalid QUERY format"@,
            RequestError::InvalidTimestamp => "Error: Invalid timestamp"@,
            RequestError::InvalidValue => "Error: Invalid value"@,
            RequestError::UnknownCommand => "Error: Unknown command"@,
        }
    }

    /// The answer to a client whose text is no request.
    pub fn message(&self) -> (r: String)
        ensures
            r@ == self.answer(),
    {
        match self {
            RequestError::InvalidFormat => String::from_str("Error: Invalid request format"),
            RequestError::InvalidInsertFormat => String::from_str("Error: Invalid INSERT format"),
            RequestError::InvalidQueryFormat => String::from_str("Error: Invalid QUERY format"),
            RequestError::InvalidTimestamp => String::from_str("Error: Invalid timestamp"),
            RequestError::InvalidValue => String::from_str("Error: Invalid value"),
            RequestError::UnknownCommand => String::from_str("Error: Unknown command"),
        }
    }
}

} // verus!
