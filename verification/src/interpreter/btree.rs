use vstd::prelude::*;
use vstd::slice::slice_subrange;

use crate::interpreter::error::{joined, DatabaseError};
use crate::interpreter::pager::{Pager, PagerView};
use crate::interpreter::record::{be_value, lemma_be_bounds, lemma_pow256_values, read_be};
use crate::interpreter::schema::PageId;
use crate::interpreter::varint::{read_varint, varint};

verus! {

/// The two kinds of tree: a table is keyed by the numbers of its rows, an
/// index by records.
#[derive(Clone, Copy, Debug, PartialEq, Eq, Structural)]
pub enum TreeKind {
    Table,
    Index,
}

/// The tag of a page that is a leaf of a table.
pub const TABLE_LEAF: u8 = 13;

/// The tag of a page that is an inner node of a table.
pub const TABLE_INTERIOR: u8 = 5;

/// The tag of a page that is a leaf of an index.
pub const INDEX_LEAF: u8 = 10;

/// The tag of a page that is an inner node of an index.
pub const INDEX_INTERIOR: u8 = 2;

/// The greatest number of pages from the root of a tree to a leaf.
pub const MAX_DEPTH: u32 = 20;

/// What a cell of a tree hands to a scan: the number of the row, which is
/// zero in an index, and the payload, with what lay on overflow pages.
#[derive(Debug, PartialEq, Eq)]
pub struct Entry {
    pub key: i64,
    pub payload: Vec<u8>,
}

/// What an [`Entry`] holds.
pub struct EntryView {
    pub key: i64,
    pub payload: Seq<u8>,
}

impl View for Entry {
    type V = EntryView;

    open spec fn view(&self) -> EntryView {
        EntryView { key: self.key, payload: self.payload@ }
    }
}

/// What the entries hold.
pub open spec fn entries_view(entries: Seq<Entry>) -> Seq<EntryView> {
    Seq::new(entries.len(), |i: int| entries[i]@)
}

/// Where the header of a page begins: behind the header of the file on the
/// first page, at the beginning of every other.
pub open spec fn header_base(id: int) -> int {
    if id == 1 {
        100
    } else {
        0
    }
}

/// The most bytes of a payload that a cell keeps on its own page.
pub open spec fn local_limit(kind: TreeKind, usable: int) -> int {
    match kind {
        TreeKind::Table => usable - 35,
        TreeKind::Index => (usable - 12) * 64 / 255 - 23,
    }
}

/// The fewest bytes of a payload that a cell with overflow keeps on its own
/// page.
pub open spec fn min_local(usable: int) -> int {
    (usable - 12) * 32 / 255 - 23
}

/// The number of bytes of a payload of `p` bytes that a cell keeps on its
/// own page. A payload within the limit stays whole. Of a longer one the
/// cell keeps so much that the rest fills its overflow pages but the last,
/// if that is within the limit, and the fewest bytes allowed if not.
pub open spec fn local_size(kind: TreeKind, usable: int, p: int) -> int {
    let x = local_limit(kind, usable);
    let m = min_local(usable);
    if p <= x {
        p
    } else {
        let k = m + (p - m) % (usable - 4);
        if k <= x {
            k
        } else {
            m
        }
    }
}

/// The bytes that a chain of overflow pages holds for a payload of which
/// `remaining` bytes are still to come. Each page begins with the number of
/// the next, four bytes, and holds as many bytes of the payload as it has
/// room for. A chain that ends before the payload does is a corruption, and
/// so is one that comes back to a page that it has been at.
pub open spec fn overflow_bytes(
    pv: PagerView,
    id: int,
    remaining: int,
    visited: Seq<PageId>,
) -> core::result::Result<Seq<u8>, DatabaseError>
    decreases remaining,
{
    if remaining <= 0 {
        Ok(Seq::<u8>::empty())
    } else if id == 0 || visited.contains(id as PageId) || pv.usable_size <= 4 {
        Err(DatabaseError::Corruption)
    } else {
        match pv.page(id) {
            Err(DatabaseError::Range) => Err(DatabaseError::Corruption),
            Err(e) => Err(e),
            Ok(page) => {
                let room = pv.usable_size - 4;
                let n = if remaining < room {
                    remaining
                } else {
                    room
                };
                joined(
                    page.subrange(4, 4 + n),
                    overflow_bytes(
                        pv,
                        be_value(page.subrange(0, 4)),
                        remaining - n,
                        visited.push(id as PageId),
                    ),
                )
            },
        }
    }
}

/// The payload of `p` bytes of a cell whose part on the page begins at
/// `start` of the usable `area` of the page. Where the payload is longer
/// than the cell keeps, the number of the first overflow page follows the
/// part on the page. A cell that reaches beyond the area is a corruption.
pub open spec fn cell_payload(
    pv: PagerView,
    kind: TreeKind,
    area: Seq<u8>,
    start: int,
    p: int,
) -> core::result::Result<Seq<u8>, DatabaseError> {
    let local = local_size(kind, pv.usable_size, p);
    if start + local > area.len() {
        Err(DatabaseError::Corruption)
    } else if p == local {
        Ok(area.subrange(start, start + local))
    } else if start + local + 4 > area.len() {
        Err(DatabaseError::Corruption)
    } else {
        joined(
            area.subrange(start, start + local),
            overflow_bytes(
                pv,
                be_value(area.subrange(start + local, start + local + 4)),
                p - local,
                Seq::<PageId>::empty(),
            ),
        )
    }
}

/// An unsigned 64-bit number read as a signed one in two's complement.
pub open spec fn as_signed(v: int) -> int {
    if v >= 0x8000_0000_0000_0000 {
        v - 0x1_0000_0000_0000_0000
    } else {
        v
    }
}

/// What a cell that holds a payload hands to a scan: in a table, a cell of a
/// leaf, which begins with the size of the payload and the number of the
/// row; in an index, any cell, which holds the size of the payload alone.
/// `at` is where the size begins.
pub open spec fn cell_entry(
    pv: PagerView,
    kind: TreeKind,
    area: Seq<u8>,
    at: int,
) -> core::result::Result<EntryView, DatabaseError> {
    if at < 0 || at > area.len() {
        Err(DatabaseError::Corruption)
    } else {
        match varint(area.skip(at)) {
            None => Err(DatabaseError::Corruption),
            Some((p, n)) => match kind {
                TreeKind::Index => match cell_payload(pv, kind, area, at + n, p) {
                    Ok(payload) => Ok(EntryView { key: 0, payload }),
                    Err(e) => Err(e),
                },
                TreeKind::Table => match varint(area.skip(at + n)) {
                    None => Err(DatabaseError::Corruption),
                    Some((key, m)) => match cell_payload(pv, kind, area, at + n + m, p) {
                        Ok(payload) => Ok(EntryView { key: as_signed(key) as i64, payload }),
                        Err(e) => Err(e),
                    },
                },
            },
        }
    }
}


fn contains_id(ids: &Vec<PageId>, id: PageId) -> (r: bool)
    ensures
        r == ids@.contains(id),
{
    let mut i: usize = 0;
    while i < ids.len()
        invariant
            i <= ids@.len(),
            forall|k: int| 0 <= k < i ==> ids@[k] != id,
        decreases ids@.len() - i,
    {
        if ids[i] == id {
            return true;
        }
        i = i + 1;
    }
    false
}

/// Appends to `out` the bytes that a chain of overflow pages holds; see
/// [`overflow_bytes`].
fn read_overflow(pager: &Pager, id: PageId, remaining: u64, out: &mut Vec<u8>) -> (r:
    core::result::Result<(), DatabaseError>)
    requires
        pager@.wf(),
    ensures
        match r {
            Ok(_) => overflow_bytes(pager@, id as int, remaining as int, Seq::<PageId>::empty())
                is Ok && final(out)@ == old(out)@ + overflow_bytes(
                pager@,
                id as int,
                remaining as int,
                Seq::<PageId>::empty(),
            )->Ok_0,
            Err(e) => overflow_bytes(pager@, id as int, remaining as int, Seq::<PageId>::empty())
                == Err::<Seq<u8>, DatabaseError>(e),
        },
{
    let ghost pv = pager@;
    let ghost goal = overflow_bytes(pv, id as int, remaining as int, Seq::<PageId>::empty());
    let ghost acc: Seq<u8> = Seq::<u8>::empty();
    let mut visited: Vec<PageId> = Vec::new();
    let mut cur: PageId = id;
    let mut rem: u64 = remaining;
    let room: u64 = (pager.usable_size() - 4) as u64;
    proof {
        match goal {
            Ok(bytes) => {
                assert(acc + bytes =~= bytes);
            },
            Err(_) => {},
        }
        assert(out@ =~= old(out)@ + acc);
    }
    while rem > 0
        invariant
            pv == pager@,
            pv.wf(),
            room == pv.usable_size - 4,
            goal == overflow_bytes(pv, id as int, remaining as int, Seq::<PageId>::empty()),
            out@ == old(out)@ + acc,
            joined(acc, overflow_bytes(pv, cur as int, rem as int, visited@)) == goal,
        decreases rem,
    {
        if cur == 0 || contains_id(&visited, cur) {
            return Err(DatabaseError::Corruption);
        }
        let page: &[u8] = match pager.get_page(cur) {
            Err(DatabaseError::Range) => {
                return Err(DatabaseError::Corruption);
            },
            Err(e) => {
                return Err(e);
            },
            Ok(p) => p,
        };
        let n: u64 = if rem < room {
            rem
        } else {
            room
        };
        proof {
            lemma_pow256_values();
        }
        let next: u64 = read_be(page, 0, 4);
        let ghost before = acc;
        let ghost piece = page@.subrange(4, 4 + n);
        out.extend_from_slice(slice_subrange(page, 4, 4 + n as usize));
        proof {
            acc = before + piece;
            assert(out@ =~= old(out)@ + acc);
            match overflow_bytes(pv, next as int, rem - n, visited@.push(cur)) {
                Ok(rest) => {
                    assert(before + (piece + rest) =~= acc + rest);
                },
                Err(_) => {},
            }
        }
        visited.push(cur);
        cur = next as PageId;
        rem = rem - n;
    }
    proof {
        assert(acc + Seq::<u8>::empty() =~= acc);
    }
    Ok(())
}

/// The number of bytes of a payload that a cell keeps on its own page; see
/// [`local_size`].
fn local_payload_size(kind: TreeKind, usable: u32, p: u64) -> (r: u64)
    requires
        480 <= usable <= 65536,
    ensures
        r == local_size(kind, usable as int, p as int),
        r <= p,
        r <= usable,
{
    let u: u64 = usable as u64;
    let x: u64 = match kind {
        TreeKind::Table => u - 35,
        TreeKind::Index => (u - 12) * 64 / 255 - 23,
    };
    let m: u64 = (u - 12) * 32 / 255 - 23;
    if p <= x {
        p
    } else {
        let k: u64 = m + (p - m) % (u - 4);
        if k <= x {
            k
        } else {
            m
        }
    }
}

/// The payload of a cell; see [`cell_payload`].
fn read_cell_payload(pager: &Pager, kind: TreeKind, area: &[u8], start: usize, p: u64) -> (r:
    core::result::Result<Vec<u8>, DatabaseError>)
    requires
        pager@.wf(),
        start <= area@.len(),
    ensures
        match r {
            Ok(payload) => cell_payload(pager@, kind, area@, start as int, p as int) == Ok::<
                Seq<u8>,
                DatabaseError,
            >(payload@),
            Err(e) => cell_payload(pager@, kind, area@, start as int, p as int) == Err::<
                Seq<u8>,
                DatabaseError,
            >(e),
        },
{
    let local: u64 = local_payload_size(kind, pager.usable_size(), p);
    let len: usize = area.len();
    if local > (len - start) as u64 {
        return Err(DatabaseError::Corruption);
    }
    let local: usize = local as usize;
    let mut out: Vec<u8> = Vec::new();
    out.extend_from_slice(slice_subrange(area, start, start + local));
    assert(out@ =~= area@.subrange(start as int, start + local));
    if p == local as u64 {
        return Ok(out);
    }
    if len - start - local < 4 {
        return Err(DatabaseError::Corruption);
    }
    proof {
        lemma_pow256_values();
    }
    let first: u64 = read_be(area, start + local, 4);
    match read_overflow(pager, first as PageId, p - local as u64, &mut out) {
        Ok(_) => Ok(out),
        Err(e) => Err(e),
    }
}

/// What a cell that holds a payload hands to a scan; see [`cell_entry`].
pub(crate) fn read_cell_entry(pager: &Pager, kind: TreeKind, area: &[u8], at: usize) -> (r:
    core::result::Result<Entry, DatabaseError>)
    requires
        pager@.wf(),
    ensures
        match r {
            Ok(entry) => cell_entry(pager@, kind, area@, at as int) == Ok::<
                EntryView,
                DatabaseError,
            >(entry@),
            Err(e) => cell_entry(pager@, kind, area@, at as int) == Err::<EntryView, DatabaseError>(
                e,
            ),
        },
{
    if at > area.len() {
        return Err(DatabaseError::Corruption);
    }
    let (p, n) = match read_varint(area, at) {
        None => {
            return Err(DatabaseError::Corruption);
        },
        Some(x) => x,
    };
    match kind {
        TreeKind::Index => match read_cell_payload(pager, kind, area, at + n, p) {
            Ok(payload) => Ok(Entry { key: 0, payload }),
            Err(e) => Err(e),
        },
        TreeKind::Table => {
            let (key, m) = match read_varint(area, at + n) {
                None => {
                    return Err(DatabaseError::Corruption);
                },
                Some(x) => x,
            };
            let key: i64 = if key >= 0x8000_0000_0000_0000 {
                (key as i128 - 0x1_0000_0000_0000_0000) as i64
            } else {
                key as i64
            };
            match read_cell_payload(pager, kind, area, at + n + m, p) {
                Ok(payload) => Ok(Entry { key, payload }),
                Err(e) => Err(e),
            }
        },
    }
}


/// The tag of the leaves of a tree.
pub open spec fn leaf_tag(kind: TreeKind) -> u8 {
    match kind {
        TreeKind::Table => TABLE_LEAF,
        TreeKind::Index => INDEX_LEAF,
    }
}

/// The tag of the inner nodes of a tree.
pub open spec fn interior_tag(kind: TreeKind) -> u8 {
    match kind {
        TreeKind::Table => TABLE_INTERIOR,
        TreeKind::Index => INDEX_INTERIOR,
    }
}

/// What the head of a page says: the usable bytes of the page, whether it
/// is a leaf, the number of its cells, where the array of its cell pointers
/// begins, and its right-most child.
pub struct HeadView {
    pub area: Seq<u8>,
    pub leaf: bool,
    pub n: int,
    pub array: int,
    pub rightmost: int,
}

/// The head of the page `id` of a tree, or why the page is none of the
/// tree: it cannot be read, it has the tag of another kind of page, or the
/// array of its cell pointers reaches beyond its usable bytes.
#[verifier::opaque]
pub open spec fn page_head(pv: PagerView, kind: TreeKind, id: int) -> core::result::Result<
    HeadView,
    DatabaseError,
> {
    match pv.page(id) {
        Err(DatabaseError::Range) => Err(DatabaseError::Corruption),
        Err(e) => Err(e),
        Ok(page) => {
            let area = page.take(pv.usable_size);
            let base = header_base(id);
            let n = be_value(area.subrange(base + 3, base + 5));
            let rightmost = be_value(area.subrange(base + 8, base + 12));
            if base + 12 > area.len() {
                Err(DatabaseError::Corruption)
            } else if area[base] == leaf_tag(kind) {
                if base + 8 + 2 * n > area.len() {
                    Err(DatabaseError::Corruption)
                } else {
                    Ok(HeadView { area, leaf: true, n, array: base + 8, rightmost })
                }
            } else if area[base] == interior_tag(kind) {
                if base + 12 + 2 * n > area.len() {
                    Err(DatabaseError::Corruption)
                } else {
                    Ok(HeadView { area, leaf: false, n, array: base + 12, rightmost })
                }
            } else {
                Err(DatabaseError::Corruption)
            }
        },
    }
}

/// The head of a page as it was read.
pub struct Head<'a> {
    pub area: &'a [u8],
    pub leaf: bool,
    pub n: usize,
    pub array: usize,
    pub rightmost: PageId,
}

impl<'a> View for Head<'a> {
    type V = HeadView;

    open spec fn view(&self) -> HeadView {
        HeadView {
            area: self.area@,
            leaf: self.leaf,
            n: self.n as int,
            array: self.array as int,
            rightmost: self.rightmost as int,
        }
    }
}

/// Reads the head of a page; see [`page_head`].
pub(crate) fn read_head<'a>(pager: &'a Pager, kind: TreeKind, id: PageId) -> (r: core::result::Result<
    Head<'a>,
    DatabaseError,
>)
    ensures
        match r {
            Ok(h) => page_head(pager@, kind, id as int) == Ok::<HeadView, DatabaseError>(h@)
                && h.n <= 65535 && h.array + 2 * h.n <= h.area@.len(),
            Err(e) => page_head(pager@, kind, id as int) == Err::<HeadView, DatabaseError>(e),
        },
{
    proof {
        use_type_invariant(pager);
        lemma_pow256_values();
        reveal(page_head);
    }
    let page: &[u8] = match pager.get_page(id) {
        Err(DatabaseError::Range) => {
            return Err(DatabaseError::Corruption);
        },
        Err(e) => {
            return Err(e);
        },
        Ok(p) => p,
    };
    let area: &[u8] = slice_subrange(page, 0, pager.usable_size() as usize);
    assert(area@ =~= page@.take(pager@.usable_size));
    let base: usize = if id == 1 {
        100
    } else {
        0
    };
    let len: usize = area.len();
    if base + 12 > len {
        return Err(DatabaseError::Corruption);
    }
    let tag: u8 = area[base];
    let n: usize = read_be(area, base + 3, 2) as usize;
    let rightmost: PageId = read_be(area, base + 8, 4) as PageId;
    let leaf: u8 = match kind {
        TreeKind::Table => TABLE_LEAF,
        TreeKind::Index => INDEX_LEAF,
    };
    let interior: u8 = match kind {
        TreeKind::Table => TABLE_INTERIOR,
        TreeKind::Index => INDEX_INTERIOR,
    };
    if tag == leaf {
        if base + 8 + 2 * n > len {
            return Err(DatabaseError::Corruption);
        }
        Ok(Head { area, leaf: true, n, array: base + 8, rightmost })
    } else if tag == interior {
        if base + 12 + 2 * n > len {
            return Err(DatabaseError::Corruption);
        }
        Ok(Head { area, leaf: false, n, array: base + 12, rightmost })
    } else {
        Err(DatabaseError::Corruption)
    }
}

/// The head of a page counts no fewer than no cells.
pub proof fn lemma_head_counts(pv: PagerView, kind: TreeKind, id: int)
    requires
        page_head(pv, kind, id) is Ok,
    ensures
        0 <= page_head(pv, kind, id)->Ok_0.n <= 65535,
{
    reveal(page_head);
    let area = pv.page(id)->Ok_0.take(pv.usable_size);
    let base = header_base(id);
    lemma_be_bounds(area.subrange(base + 3, base + 5));
    lemma_pow256_values();
}

/// Where the cell `i` of a page begins: the two bytes at place `i` of the
/// array of cell pointers, which begins at `array`.
pub open spec fn cell_pointer(area: Seq<u8>, array: int, i: int) -> int {
    be_value(area.subrange(array + 2 * i, array + 2 * i + 2))
}

/// What the cells from `i` on of a leaf hold, in the order of the array of
/// cell pointers.
pub open spec fn leaf_entries(
    pv: PagerView,
    kind: TreeKind,
    area: Seq<u8>,
    array: int,
    n: int,
    i: int,
) -> core::result::Result<Seq<EntryView>, DatabaseError>
    decreases n - i,
{
    if i >= n {
        Ok(Seq::<EntryView>::empty())
    } else {
        match cell_entry(pv, kind, area, cell_pointer(area, array, i)) {
            Err(e) => Err(e),
            Ok(entry) => joined(seq![entry], leaf_entries(pv, kind, area, array, n, i + 1)),
        }
    }
}

/// What the tree below the page `id` holds, from left to right, where the
/// tree is no more than `depth` pages deep.
///
/// The header of a page holds the tag of the page at its beginning, the
/// number of its cells in the two bytes at 3 and, on an inner node, the
/// number of the right-most child in the four bytes at 8; the array of cell
/// pointers follows it. A leaf hands out its cells. An inner node hands out
/// what lies below each child in turn, in an index followed by the cell of
/// its own that stands between that child and the next, and at last what lies
/// below the right-most child. A page of another tag, an array that reaches
/// beyond the usable bytes of the page, a child that is no page of the file
/// and a tree deeper than `depth` are corruptions.
pub open spec fn tree_entries(pv: PagerView, kind: TreeKind, id: int, depth: nat) -> core::result::Result<
    Seq<EntryView>,
    DatabaseError,
>
    decreases depth, 0nat, 0nat,
{
    if depth == 0 {
        Err(DatabaseError::Corruption)
    } else {
        match page_head(pv, kind, id) {
            Err(e) => Err(e),
            Ok(head) => if head.leaf {
                leaf_entries(pv, kind, head.area, head.array, head.n, 0)
            } else {
                interior_entries(
                    pv,
                    kind,
                    head.area,
                    head.array,
                    head.n,
                    0,
                    head.rightmost,
                    (depth - 1) as nat,
                )
            },
        }
    }
}

/// What an inner node hands out from its cell `i` on; see [`tree_entries`].
/// A cell of an inner node begins with the number of its child, four bytes.
pub open spec fn interior_entries(
    pv: PagerView,
    kind: TreeKind,
    area: Seq<u8>,
    array: int,
    n: int,
    i: int,
    rightmost: int,
    depth: nat,
) -> core::result::Result<Seq<EntryView>, DatabaseError>
    decreases depth, 1nat, (if n > i { (n - i) as nat } else { 0nat }),
{
    if i >= n {
        tree_entries(pv, kind, rightmost, depth)
    } else {
        let at = cell_pointer(area, array, i);
        if at + 4 > area.len() {
            Err(DatabaseError::Corruption)
        } else {
            match tree_entries(pv, kind, be_value(area.subrange(at, at + 4)), depth) {
                Err(e) => Err(e),
                Ok(below) => match kind {
                    TreeKind::Table => joined(
                        below,
                        interior_entries(pv, kind, area, array, n, i + 1, rightmost, depth),
                    ),
                    TreeKind::Index => match cell_entry(pv, kind, area, at + 4) {
                        Err(e) => Err(e),
                        Ok(entry) => joined(
                            below.push(entry),
                            interior_entries(pv, kind, area, array, n, i + 1, rightmost, depth),
                        ),
                    },
                },
            }
        }
    }
}


/// Appends to `out` what the cells of a leaf hold; see [`leaf_entries`].
fn scan_leaf(
    pager: &Pager,
    kind: TreeKind,
    area: &[u8],
    array: usize,
    n: usize,
    out: &mut Vec<Entry>,
) -> (r: core::result::Result<(), DatabaseError>)
    requires
        pager@.wf(),
        array + 2 * n <= area@.len(),
    ensures
        match r {
            Ok(_) => leaf_entries(pager@, kind, area@, array as int, n as int, 0) is Ok
                && entries_view(final(out)@) == entries_view(old(out)@) + leaf_entries(
                pager@,
                kind,
                area@,
                array as int,
                n as int,
                0,
            )->Ok_0,
            Err(e) => leaf_entries(pager@, kind, area@, array as int, n as int, 0) == Err::<
                Seq<EntryView>,
                DatabaseError,
            >(e),
        },
{
    let ghost pv = pager@;
    let ghost start = entries_view(out@);
    let ghost goal = leaf_entries(pv, kind, area@, array as int, n as int, 0);
    let ghost acc: Seq<EntryView> = Seq::<EntryView>::empty();
    let mut i: usize = 0;
    let len: usize = area.len();
    proof {
        assert(entries_view(out@) =~= start + acc);
        match goal {
            Ok(es) => {
                assert(acc + es =~= es);
            },
            Err(_) => {},
        }
    }
    while i < n
        invariant
            i <= n,
            pv == pager@,
            pv.wf(),
            array + 2 * n <= len,
            len == area@.len(),
            goal == leaf_entries(pv, kind, area@, array as int, n as int, 0),
            entries_view(out@) == start + acc,
            joined(acc, leaf_entries(pv, kind, area@, array as int, n as int, i as int)) == goal,
        decreases n - i,
    {
        proof {
            lemma_pow256_values();
        }
        let at: usize = read_be(area, array + 2 * i, 2) as usize;
        match read_cell_entry(pager, kind, area, at) {
            Err(e) => {
                return Err(e);
            },
            Ok(entry) => {
                let ghost before = acc;
                let ghost item = entry@;
                let ghost previous = entries_view(out@);
                out.push(entry);
                proof {
                    acc = before.push(item);
                    assert(entries_view(out@) =~= previous.push(item));
                    assert(entries_view(out@) =~= start + acc);
                    match leaf_entries(pv, kind, area@, array as int, n as int, i + 1) {
                        Ok(rest) => {
                            assert(before + (seq![item] + rest) =~= acc + rest);
                        },
                        Err(_) => {},
                    }
                }
            },
        }
        i = i + 1;
    }
    proof {
        assert(acc + Seq::<EntryView>::empty() =~= acc);
    }
    Ok(())
}

/// Appends to `out` what an inner node hands out; see
/// [`interior_entries`].
fn scan_interior(
    pager: &Pager,
    kind: TreeKind,
    area: &[u8],
    array: usize,
    n: usize,
    rightmost: PageId,
    below: u32,
    out: &mut Vec<Entry>,
) -> (r: core::result::Result<(), DatabaseError>)
    requires
        pager@.wf(),
        array + 2 * n <= area@.len(),
    ensures
        match r {
            Ok(_) => interior_entries(
                pager@,
                kind,
                area@,
                array as int,
                n as int,
                0,
                rightmost as int,
                below as nat,
            ) is Ok && entries_view(final(out)@) == entries_view(old(out)@) + interior_entries(
                pager@,
                kind,
                area@,
                array as int,
                n as int,
                0,
                rightmost as int,
                below as nat,
            )->Ok_0,
            Err(e) => interior_entries(
                pager@,
                kind,
                area@,
                array as int,
                n as int,
                0,
                rightmost as int,
                below as nat,
            ) == Err::<Seq<EntryView>, DatabaseError>(e),
        },
    decreases below, 1nat,
{
    let ghost pv = pager@;
    let ghost start = entries_view(out@);
    let ghost goal = interior_entries(
        pv,
        kind,
        area@,
        array as int,
        n as int,
        0,
        rightmost as int,
        below as nat,
    );
    let ghost acc: Seq<EntryView> = Seq::<EntryView>::empty();
    let mut i: usize = 0;
    let len: usize = area.len();
    proof {
        assert(entries_view(out@) =~= start + acc);
        match goal {
            Ok(es) => {
                assert(acc + es =~= es);
            },
            Err(_) => {},
        }
    }
    while i < n
        invariant
            i <= n,
            pv == pager@,
            pv.wf(),
            array + 2 * n <= len,
            len == area@.len(),
            goal == interior_entries(
                pv,
                kind,
                area@,
                array as int,
                n as int,
                0,
                rightmost as int,
                below as nat,
            ),
            entries_view(out@) == start + acc,
            joined(
                acc,
                interior_entries(
                    pv,
                    kind,
                    area@,
                    array as int,
                    n as int,
                    i as int,
                    rightmost as int,
                    below as nat,
                ),
            ) == goal,
        decreases n - i,
    {
        proof {
            lemma_pow256_values();
        }
        let at: usize = read_be(area, array + 2 * i, 2) as usize;
        if at + 4 > len {
            return Err(DatabaseError::Corruption);
        }
        let child: PageId = read_be(area, at, 4) as PageId;
        let ghost before = acc;
        match scan_page(pager, kind, child, below, out) {
            Err(e) => {
                return Err(e);
            },
            Ok(_) => {},
        }
        let ghost sub = tree_entries(pv, kind, child as int, below as nat)->Ok_0;
        let ghost rest = interior_entries(
            pv,
            kind,
            area@,
            array as int,
            n as int,
            i + 1,
            rightmost as int,
            below as nat,
        );
        match kind {
            TreeKind::Table => {
                proof {
                    acc = before + sub;
                    assert(entries_view(out@) =~= start + acc);
                    match rest {
                        Ok(more) => {
                            assert(before + (sub + more) =~= acc + more);
                        },
                        Err(_) => {},
                    }
                }
            },
            TreeKind::Index => {
                match read_cell_entry(pager, kind, area, at + 4) {
                    Err(e) => {
                        return Err(e);
                    },
                    Ok(entry) => {
                        let ghost item = entry@;
                        let ghost middle = entries_view(out@);
                        out.push(entry);
                        proof {
                            acc = before + sub.push(item);
                            assert(entries_view(out@) =~= middle.push(item));
                            assert(entries_view(out@) =~= start + acc);
                            match rest {
                                Ok(more) => {
                                    assert(before + (sub.push(item) + more) =~= acc + more);
                                },
                                Err(_) => {},
                            }
                        }
                    },
                }
            },
        }
        i = i + 1;
    }
    match scan_page(pager, kind, rightmost, below, out) {
        Err(e) => Err(e),
        Ok(_) => {
            proof {
                let last = tree_entries(pv, kind, rightmost as int, below as nat)->Ok_0;
                assert(entries_view(out@) =~= start + (acc + last));
            }
            Ok(())
        },
    }
}

/// Appends to `out` what the tree below the page `id` holds; see
/// [`tree_entries`].
fn scan_page(pager: &Pager, kind: TreeKind, id: PageId, depth: u32, out: &mut Vec<Entry>) -> (r:
    core::result::Result<(), DatabaseError>)
    requires
        pager@.wf(),
    ensures
        match r {
            Ok(_) => tree_entries(pager@, kind, id as int, depth as nat) is Ok && entries_view(
                final(out)@,
            ) == entries_view(old(out)@) + tree_entries(pager@, kind, id as int, depth as nat)->Ok_0,
            Err(e) => tree_entries(pager@, kind, id as int, depth as nat) == Err::<
                Seq<EntryView>,
                DatabaseError,
            >(e),
        },
    decreases depth, 0nat,
{
    if depth == 0 {
        return Err(DatabaseError::Corruption);
    }
    match read_head(pager, kind, id) {
        Err(e) => Err(e),
        Ok(head) => if head.leaf {
            scan_leaf(pager, kind, head.area, head.array, head.n, out)
        } else {
            scan_interior(
                pager,
                kind,
                head.area,
                head.array,
                head.n,
                head.rightmost,
                depth - 1,
                out,
            )
        },
    }
}

/// Whether each entry has a greater key than the one before it.
pub open spec fn ascending(entries: Seq<EntryView>) -> bool {
    forall|i: int| 0 <= i < entries.len() - 1 ==> (#[trigger] entries[i]).key < entries[i + 1].key
}

/// What a scan of the tree that begins at the page `root` yields: what the
/// tree holds from left to right; see [`tree_entries`]. A root that is no
/// page of the file is not found. The rows of a table must come in the order
/// of their numbers, each greater than the one before: a table where they do
/// not is corrupt.
pub open spec fn scanned(pv: PagerView, kind: TreeKind, root: int) -> core::result::Result<
    Seq<EntryView>,
    DatabaseError,
> {
    if root < 1 || root > pv.n_pages {
        Err(DatabaseError::NotFound)
    } else {
        match tree_entries(pv, kind, root, MAX_DEPTH as nat) {
            Err(e) => Err(e),
            Ok(entries) => if kind == TreeKind::Table && !ascending(entries) {
                Err(DatabaseError::Corruption)
            } else {
                Ok(entries)
            },
        }
    }
}

fn is_ascending(entries: &Vec<Entry>) -> (r: bool)
    ensures
        r == ascending(entries_view(entries@)),
{
    if entries.len() < 2 {
        return true;
    }
    let mut i: usize = 0;
    while i < entries.len() - 1
        invariant
            entries@.len() >= 2,
            i <= entries@.len() - 1,
            forall|k: int|
                0 <= k < i ==> (#[trigger] entries_view(entries@)[k]).key < entries_view(
                    entries@,
                )[k + 1].key,
        decreases entries@.len() - i,
    {
        if entries[i].key >= entries[i + 1].key {
            assert(entries_view(entries@)[i as int].key >= entries_view(entries@)[i + 1].key);
            return false;
        }
        i = i + 1;
    }
    true
}

/// Scans the tree that begins at the page `root`; see [`scanned`].
pub fn scan(pager: &Pager, kind: TreeKind, root: PageId) -> (r: core::result::Result<
    Vec<Entry>,
    DatabaseError,
>)
    ensures
        match r {
            Ok(entries) => scanned(pager@, kind, root as int) == Ok::<
                Seq<EntryView>,
                DatabaseError,
            >(entries_view(entries@)),
            Err(e) => scanned(pager@, kind, root as int) == Err::<Seq<EntryView>, DatabaseError>(e),
        },
        kind == TreeKind::Table && r is Ok ==> ascending(entries_view(r->Ok_0@)),
{
    proof {
        use_type_invariant(pager);
    }
    if root < 1 || root > pager.n_pages() {
        return Err(DatabaseError::NotFound);
    }
    let mut out: Vec<Entry> = Vec::new();
    assert(entries_view(out@) =~= Seq::<EntryView>::empty());
    match scan_page(pager, kind, root, MAX_DEPTH, &mut out) {
        Err(e) => Err(e),
        Ok(_) => {
            proof {
                let es = tree_entries(pager@, kind, root as int, MAX_DEPTH as nat)->Ok_0;
                assert(Seq::<EntryView>::empty() + es =~= es);
            }
            let table: bool = match kind {
                TreeKind::Table => true,
                TreeKind::Index => false,
            };
            if table && !is_ascending(&out) {
                Err(DatabaseError::Corruption)
            } else {
                Ok(out)
            }
        },
    }
}

/// In a scan of a table every row comes before every row of a greater
/// number: of any two entries, the earlier has the smaller key.
pub proof fn lemma_scan_order(entries: Seq<EntryView>, i: int, j: int)
    requires
        ascending(entries),
        0 <= i < j < entries.len(),
    ensures
        entries[i].key < entries[j].key,
    decreases j - i,
{
    if i + 1 < j {
        lemma_scan_order(entries, i, j - 1);
        assert(entries[j - 1].key < entries[j - 1 + 1].key);
    } else {
        assert(entries[i].key < entries[i + 1].key);
    }
}


/// The kind of the tree that begins at the page `root`, by the tag of that
/// page. A root that is no page of the file is not found; a page with a tag
/// that the format does not know is corrupt.
pub open spec fn tree_kind(pv: PagerView, root: int) -> core::result::Result<
    TreeKind,
    DatabaseError,
> {
    if root < 1 || root > pv.n_pages {
        Err(DatabaseError::NotFound)
    } else {
        match pv.page(root) {
            Err(e) => Err(e),
            Ok(page) => {
                let tag = page[header_base(root)];
                if tag == TABLE_LEAF || tag == TABLE_INTERIOR {
                    Ok(TreeKind::Table)
                } else if tag == INDEX_LEAF || tag == INDEX_INTERIOR {
                    Ok(TreeKind::Index)
                } else {
                    Err(DatabaseError::Corruption)
                }
            },
        }
    }
}

/// The kind of the tree that begins at the page `root`; see [`tree_kind`].
pub fn open_tree(pager: &Pager, root: PageId) -> (r: core::result::Result<TreeKind, DatabaseError>)
    ensures
        r == tree_kind(pager@, root as int),
{
    proof {
        use_type_invariant(pager);
    }
    if root < 1 || root > pager.n_pages() {
        return Err(DatabaseError::NotFound);
    }
    match pager.get_page(root) {
        Err(e) => Err(e),
        Ok(page) => {
            let base: usize = if root == 1 {
                100
            } else {
                0
            };
            let tag: u8 = page[base];
            if tag == TABLE_LEAF || tag == TABLE_INTERIOR {
                Ok(TreeKind::Table)
            } else if tag == INDEX_LEAF || tag == INDEX_INTERIOR {
                Ok(TreeKind::Index)
            } else {
                Err(DatabaseError::Corruption)
            }
        },
    }
}


/// The key of the cell `i` of a page of a table: the number of a row. A
/// cell of a leaf holds it behind the size of its payload, a cell of an
/// inner node behind the number of its child, four bytes.
pub open spec fn cell_key(area: Seq<u8>, array: int, i: int, leaf: bool) -> core::result::Result<
    i64,
    DatabaseError,
> {
    let at = cell_pointer(area, array, i);
    if leaf {
        if at > area.len() {
            Err(DatabaseError::Corruption)
        } else {
            match varint(area.skip(at)) {
                None => Err(DatabaseError::Corruption),
                Some((_, n)) => match varint(area.skip(at + n)) {
                    None => Err(DatabaseError::Corruption),
                    Some((key, _)) => Ok(as_signed(key) as i64),
                },
            }
        }
    } else {
        if at + 4 > area.len() {
            Err(DatabaseError::Corruption)
        } else {
            match varint(area.skip(at + 4)) {
                None => Err(DatabaseError::Corruption),
                Some((key, _)) => Ok(as_signed(key) as i64),
            }
        }
    }
}

/// The place that a search by halving finds for `key` among the cells from
/// `lo` up to `hi` of a page of a table: where the keys of the cells ascend,
/// the first cell whose key is not below `key`, and `hi` where there is
/// none. The search looks at the cell in the middle and goes on in the half
/// before it or behind it.
pub open spec fn bisected(area: Seq<u8>, array: int, leaf: bool, key: i64, lo: int, hi: int) -> core::result::Result<
    int,
    DatabaseError,
>
    decreases hi - lo,
{
    if lo >= hi {
        Ok(lo)
    } else {
        let mid = lo + (hi - lo) / 2;
        match cell_key(area, array, mid, leaf) {
            Err(e) => Err(e),
            Ok(k) => if k < key {
                bisected(area, array, leaf, key, mid + 1, hi)
            } else {
                bisected(area, array, leaf, key, lo, mid)
            },
        }
    }
}

/// The payload of the row with the number `key` in the table below the
/// page `id`, where the tree is no more than `depth` pages deep; `None`
/// where the search ends at a leaf without that row. On an inner node the
/// search goes down to the child of the cell that halving finds, and to the
/// right-most child where it finds none; on a leaf it takes the cell that
/// halving finds if that has the key.
pub open spec fn row_payload(pv: PagerView, id: int, key: i64, depth: nat) -> core::result::Result<
    Option<Seq<u8>>,
    DatabaseError,
>
    decreases depth,
{
    if depth == 0 {
        Err(DatabaseError::Corruption)
    } else {
        match page_head(pv, TreeKind::Table, id) {
            Err(e) => Err(e),
            Ok(head) => match bisected(head.area, head.array, head.leaf, key, 0, head.n) {
                Err(e) => Err(e),
                Ok(i) => if head.leaf {
                    if i >= head.n {
                        Ok(None)
                    } else {
                        match cell_entry(
                            pv,
                            TreeKind::Table,
                            head.area,
                            cell_pointer(head.area, head.array, i),
                        ) {
                            Err(e) => Err(e),
                            Ok(entry) => if entry.key == key {
                                Ok(Some(entry.payload))
                            } else {
                                Ok(None)
                            },
                        }
                    }
                } else {
                    let at = cell_pointer(head.area, head.array, i);
                    let child = if i >= head.n {
                        head.rightmost
                    } else {
                        be_value(head.area.subrange(at, at + 4))
                    };
                    row_payload(pv, child, key, (depth - 1) as nat)
                },
            },
        }
    }
}

/// The payload of the row with the number `key` in the table that begins
/// at the page `root`; see [`row_payload`]. A root that is no page of the
/// file is not found.
pub open spec fn looked_up(pv: PagerView, root: int, key: i64) -> core::result::Result<
    Option<Seq<u8>>,
    DatabaseError,
> {
    if root < 1 || root > pv.n_pages {
        Err(DatabaseError::NotFound)
    } else {
        row_payload(pv, root, key, MAX_DEPTH as nat)
    }
}

fn read_cell_key(area: &[u8], array: usize, i: usize, leaf: bool) -> (r: core::result::Result<
    i64,
    DatabaseError,
>)
    requires
        array + 2 * i + 2 <= area@.len(),
    ensures
        r == cell_key(area@, array as int, i as int, leaf),
{
    proof {
        lemma_pow256_values();
    }
    let len: usize = area.len();
    let at: usize = read_be(area, array + 2 * i, 2) as usize;
    let from: usize = if leaf {
        if at > len {
            return Err(DatabaseError::Corruption);
        }
        match read_varint(area, at) {
            None => {
                return Err(DatabaseError::Corruption);
            },
            Some((_, n)) => at + n,
        }
    } else {
        if at + 4 > len {
            return Err(DatabaseError::Corruption);
        }
        at + 4
    };
    match read_varint(area, from) {
        None => Err(DatabaseError::Corruption),
        Some((key, _)) => if key >= 0x8000_0000_0000_0000 {
            Ok((key as i128 - 0x1_0000_0000_0000_0000) as i64)
        } else {
            Ok(key as i64)
        },
    }
}

fn bisect(area: &[u8], array: usize, n: usize, leaf: bool, key: i64) -> (r: core::result::Result<
    usize,
    DatabaseError,
>)
    requires
        array + 2 * n <= area@.len(),
    ensures
        match r {
            Ok(i) => bisected(area@, array as int, leaf, key, 0, n as int) == Ok::<
                int,
                DatabaseError,
            >(i as int) && i <= n,
            Err(e) => bisected(area@, array as int, leaf, key, 0, n as int) == Err::<
                int,
                DatabaseError,
            >(e),
        },
{
    let mut lo: usize = 0;
    let mut hi: usize = n;
    while lo < hi
        invariant
            lo <= hi <= n,
            array + 2 * n <= area@.len(),
            bisected(area@, array as int, leaf, key, lo as int, hi as int) == bisected(
                area@,
                array as int,
                leaf,
                key,
                0,
                n as int,
            ),
        decreases hi - lo,
    {
        let mid: usize = lo + (hi - lo) / 2;
        match read_cell_key(area, array, mid, leaf) {
            Err(e) => {
                return Err(e);
            },
            Ok(k) => {
                if k < key {
                    lo = mid + 1;
                } else {
                    hi = mid;
                }
            },
        }
    }
    Ok(lo)
}

fn find_in_page(pager: &Pager, id: PageId, key: i64, depth: u32) -> (r: core::result::Result<
    Option<Vec<u8>>,
    DatabaseError,
>)
    requires
        pager@.wf(),
    ensures
        match r {
            Ok(Some(payload)) => row_payload(pager@, id as int, key, depth as nat) == Ok::<
                Option<Seq<u8>>,
                DatabaseError,
            >(Some(payload@)),
            Ok(None) => row_payload(pager@, id as int, key, depth as nat) == Ok::<
                Option<Seq<u8>>,
                DatabaseError,
            >(None),
            Err(e) => row_payload(pager@, id as int, key, depth as nat) == Err::<
                Option<Seq<u8>>,
                DatabaseError,
            >(e),
        },
    decreases depth,
{
    if depth == 0 {
        return Err(DatabaseError::Corruption);
    }
    let head: Head<'_> = match read_head(pager, TreeKind::Table, id) {
        Err(e) => {
            return Err(e);
        },
        Ok(h) => h,
    };
    proof {
        lemma_pow256_values();
    }
    assert(head.area.len() <= usize::MAX);
    let i: usize = match bisect(head.area, head.array, head.n, head.leaf, key) {
        Err(e) => {
            return Err(e);
        },
        Ok(i) => i,
    };
    if head.leaf {
        if i >= head.n {
            return Ok(None);
        }
        let at: usize = read_be(head.area, head.array + 2 * i, 2) as usize;
        match read_cell_entry(pager, TreeKind::Table, head.area, at) {
            Err(e) => Err(e),
            Ok(entry) => if entry.key == key {
                Ok(Some(entry.payload))
            } else {
                Ok(None)
            },
        }
    } else {
        let child: PageId = if i >= head.n {
            head.rightmost
        } else {
            let at: usize = read_be(head.area, head.array + 2 * i, 2) as usize;
            proof {
                lemma_bisected_reads(head.area@, head.array as int, false, key, 0, head.n as int);
            }
            read_be(head.area, at, 4) as PageId
        };
        find_in_page(pager, child, key, depth - 1)
    }
}

/// A search that ends at a cell has read the key of that cell or of a cell
/// behind it, so the cells that it can end at lie within the page.
proof fn lemma_bisected_reads(area: Seq<u8>, array: int, leaf: bool, key: i64, lo: int, hi: int)
    requires
        0 <= lo <= hi,
        bisected(area, array, leaf, key, lo, hi) is Ok,
        !leaf,
    ensures
        lo <= bisected(area, array, leaf, key, lo, hi)->Ok_0 <= hi,
        bisected(area, array, leaf, key, lo, hi)->Ok_0 < hi ==> cell_pointer(
            area,
            array,
            bisected(area, array, leaf, key, lo, hi)->Ok_0,
        ) + 4 <= area.len(),
    decreases hi - lo,
{
    if lo < hi {
        let mid = lo + (hi - lo) / 2;
        match cell_key(area, array, mid, leaf) {
            Err(_) => {},
            Ok(k) => {
                if k < key {
                    lemma_bisected_reads(area, array, leaf, key, mid + 1, hi);
                } else {
                    lemma_bisected_reads(area, array, leaf, key, lo, mid);
                }
            },
        }
    }
}

/// The payload of the row with the number `key` in the table that begins
/// at the page `root`; see [`looked_up`].
pub fn lookup(pager: &Pager, root: PageId, key: i64) -> (r: core::result::Result<
    Option<Vec<u8>>,
    DatabaseError,
>)
    ensures
        match r {
            Ok(Some(payload)) => looked_up(pager@, root as int, key) == Ok::<
                Option<Seq<u8>>,
                DatabaseError,
            >(Some(payload@)),
            Ok(None) => looked_up(pager@, root as int, key) == Ok::<
                Option<Seq<u8>>,
                DatabaseError,
            >(None),
            Err(e) => looked_up(pager@, root as int, key) == Err::<
                Option<Seq<u8>>,
                DatabaseError,
            >(e),
        },
{
    proof {
        use_type_invariant(pager);
    }
    if root < 1 || root > pager.n_pages() {
        return Err(DatabaseError::NotFound);
    }
    find_in_page(pager, root, key, MAX_DEPTH)
}


/// A chain of overflow pages that can be read hands out as many bytes as
/// were still to come.
pub proof fn lemma_overflow_length(pv: PagerView, id: int, remaining: int, visited: Seq<PageId>)
    requires
        pv.wf(),
        0 <= remaining,
        overflow_bytes(pv, id, remaining, visited) is Ok,
    ensures
        overflow_bytes(pv, id, remaining, visited)->Ok_0.len() == remaining,
    decreases remaining,
{
    if remaining > 0 {
        let page = pv.page(id)->Ok_0;
        let room = pv.usable_size - 4;
        let n = if remaining < room {
            remaining
        } else {
            room
        };
        assert(page.len() == pv.pagesize) by {
            assert(id * pv.pagesize - (id - 1) * pv.pagesize == pv.pagesize) by (nonlinear_arith);
        }
        lemma_overflow_length(
            pv,
            be_value(page.subrange(0, 4)),
            remaining - n,
            visited.push(id as PageId),
        );
    }
}

/// A payload is read whole, wherever it lies: the payload of a cell that
/// can be read has the length that the cell declares, whether the cell
/// keeps all of it on its own page or hands the rest to overflow pages, and
/// it begins with the part that the cell keeps. A record that spans overflow
/// pages is therefore decoded from the same bytes as one that does not.
pub proof fn lemma_payload_is_whole(
    pv: PagerView,
    kind: TreeKind,
    area: Seq<u8>,
    start: int,
    p: int,
)
    requires
        pv.wf(),
        0 <= start,
        0 <= p,
        cell_payload(pv, kind, area, start, p) is Ok,
    ensures
        cell_payload(pv, kind, area, start, p)->Ok_0.len() == p,
        0 <= local_size(kind, pv.usable_size, p) <= p,
        cell_payload(pv, kind, area, start, p)->Ok_0.take(local_size(kind, pv.usable_size, p))
            == area.subrange(start, start + local_size(kind, pv.usable_size, p)),
{
    let local = local_size(kind, pv.usable_size, p);
    let whole = cell_payload(pv, kind, area, start, p)->Ok_0;
    let kept = area.subrange(start, start + local);
    if p != local {
        let first = be_value(area.subrange(start + local, start + local + 4));
        lemma_overflow_length(pv, first, p - local, Seq::<PageId>::empty());
        let rest = overflow_bytes(pv, first, p - local, Seq::<PageId>::empty())->Ok_0;
        assert(whole == kept + rest);
        assert(whole.take(local) =~= kept);
    } else {
        assert(whole.take(local) =~= kept);
    }
}

/// A page that the file ends before cannot be read: every way into the
/// tree that begins at such a page fails with an input error, whatever is
/// asked of it.
pub proof fn lemma_truncated_root(pv: PagerView, kind: TreeKind, root: int, key: i64)
    requires
        pv.wf(),
        1 <= root <= pv.n_pages,
        pv.file.len() < root * pv.pagesize,
    ensures
        pv.page(root) == Err::<Seq<u8>, DatabaseError>(DatabaseError::Io),
        tree_kind(pv, root) == Err::<TreeKind, DatabaseError>(DatabaseError::Io),
        scanned(pv, kind, root) == Err::<Seq<EntryView>, DatabaseError>(DatabaseError::Io),
        looked_up(pv, root, key) == Err::<Option<Seq<u8>>, DatabaseError>(DatabaseError::Io),
{
    reveal(page_head);
    reveal_with_fuel(tree_entries, 2);
    reveal_with_fuel(row_payload, 2);
}

} // verus!
