use vstd::prelude::*;
use vstd::slice::slice_subrange;

use crate::interpreter::error::{joined, DatabaseError};
use crate::interpreter::record::{be_value, lemma_pow256_values, read_be};
use crate::interpreter::schema::PageId;

verus! {

/// The number of bytes of the header with which a database file begins.
pub const DATABASE_HEADER_SIZE: usize = 100;

/// The least size of a page.
pub const MIN_PAGE_SIZE: u32 = 512;

/// The greatest size of a page.
pub const MAX_PAGE_SIZE: u32 = 65536;

/// The least number of bytes of a page that must be left for use.
pub const MIN_USABLE_SIZE: u32 = 480;

/// Whether a number is a size that a page can have: a power of two from 512
/// to 65536.
pub open spec fn valid_page_size(n: int) -> bool {
    n == 512 || n == 1024 || n == 2048 || n == 4096 || n == 8192 || n == 16384 || n == 32768 || n
        == 65536
}

/// The fields of the header of a database file that the engine reads. All
/// are written with the most significant byte first.
#[derive(Clone, Copy, Debug, PartialEq, Eq, Structural)]
pub struct DatabaseHeader {
    /// The two bytes at 16: the size of a page, where 1 stands for 65536.
    pub pagesize_field: u16,
    /// The byte at 20: the number of bytes at the end of each page that are
    /// kept from use.
    pub reserved_field: u8,
    /// The four bytes at 28: the number of pages of the file.
    pub n_pages_field: u32,
    /// The four bytes at 32: the first trunk page of the free list, or 0.
    pub first_freelist_field: u32,
    /// The four bytes at 36: the number of free pages.
    pub n_freelist_field: u32,
}

impl DatabaseHeader {
    /// The header that the first hundred bytes of a file write.
    pub open spec fn parsed(buf: Seq<u8>) -> DatabaseHeader {
        DatabaseHeader {
            pagesize_field: be_value(buf.subrange(16, 18)) as u16,
            reserved_field: buf[20],
            n_pages_field: be_value(buf.subrange(28, 32)) as u32,
            first_freelist_field: be_value(buf.subrange(32, 36)) as u32,
            n_freelist_field: be_value(buf.subrange(36, 40)) as u32,
        }
    }

    /// Reads the header from the first hundred bytes of a file.
    pub fn from(buf: &[u8; 100]) -> (r: DatabaseHeader)
        ensures
            r == Self::parsed(buf@),
    {
        Self::parse(vstd::array::array_as_slice(buf))
    }

    /// Reads the header from the beginning of a file.
    pub fn parse(s: &[u8]) -> (r: DatabaseHeader)
        requires
            s@.len() >= DATABASE_HEADER_SIZE,
        ensures
            r == Self::parsed(s@),
    {
        proof {
            crate::interpreter::record::lemma_pow256_values();
        }
        DatabaseHeader {
            pagesize_field: read_be(s, 16, 2) as u16,
            reserved_field: s[20],
            n_pages_field: read_be(s, 28, 4) as u32,
            first_freelist_field: read_be(s, 32, 4) as u32,
            n_freelist_field: read_be(s, 36, 4) as u32,
        }
    }

    /// The size of a page in bytes.
    pub open spec fn page_size(self) -> int {
        if self.pagesize_field == 1 {
            65536
        } else {
            self.pagesize_field as int
        }
    }

    /// The size of a page in bytes.
    pub fn pagesize(&self) -> (r: u32)
        ensures
            r == self.page_size(),
    {
        if self.pagesize_field == 1 {
            65536
        } else {
            self.pagesize_field as u32
        }
    }

    /// The number of bytes at the end of each page that are kept from use.
    pub fn reserved(&self) -> (r: u8)
        ensures
            r == self.reserved_field,
    {
        self.reserved_field
    }

    /// The number of pages of the file.
    pub fn n_pages(&self) -> (r: u32)
        ensures
            r == self.n_pages_field,
    {
        self.n_pages_field
    }

    /// The first trunk page of the free list, if there is one.
    pub fn first_freelist_trunk_page_id(&self) -> (r: Option<PageId>)
        ensures
            r == if self.first_freelist_field == 0 {
                None
            } else {
                Some(self.first_freelist_field)
            },
    {
        if self.first_freelist_field == 0 {
            None
        } else {
            Some(self.first_freelist_field)
        }
    }

    /// The number of free pages.
    pub fn n_freelist_pages(&self) -> (r: u32)
        ensures
            r == self.n_freelist_field,
    {
        self.n_freelist_field
    }
}

/// Hands out the pages of a database file, which it holds in memory as the
/// bytes of the file.
#[derive(Debug)]
pub struct Pager {
    file: Vec<u8>,
    n_pages: u32,
    pagesize: u32,
    usable_size: u32,
    first_freelist_trunk_page_id: Option<PageId>,
    n_freelist_pages: u32,
}

/// What a [`Pager`] holds.
pub struct PagerView {
    pub file: Seq<u8>,
    pub n_pages: int,
    pub pagesize: int,
    pub usable_size: int,
    pub first_freelist_trunk_page_id: Option<PageId>,
    pub n_freelist_pages: int,
}

impl View for Pager {
    type V = PagerView;

    closed spec fn view(&self) -> PagerView {
        PagerView {
            file: self.file@,
            n_pages: self.n_pages as int,
            pagesize: self.pagesize as int,
            usable_size: self.usable_size as int,
            first_freelist_trunk_page_id: self.first_freelist_trunk_page_id,
            n_freelist_pages: self.n_freelist_pages as int,
        }
    }
}

impl PagerView {
    /// The sizes are such as the format allows: the size of a page is a
    /// power of two from 512 to 65536, and at least 480 bytes of a page, and
    /// no more than the page, are for use.
    pub open spec fn wf(self) -> bool {
        &&& valid_page_size(self.pagesize)
        &&& MIN_USABLE_SIZE <= self.usable_size <= self.pagesize
        &&& 0 <= self.n_pages <= u32::MAX
    }

    /// The bytes of a page. The page `id` lies `(id - 1) * pagesize` bytes
    /// into the file; its number must be from 1 to the number of pages, and
    /// the file must reach to its end.
    pub open spec fn page(self, id: int) -> core::result::Result<Seq<u8>, DatabaseError> {
        if id < 1 || id > self.n_pages {
            Err(DatabaseError::Range)
        } else if id * self.pagesize > self.file.len() {
            Err(DatabaseError::Io)
        } else {
            Ok(self.file.subrange((id - 1) * self.pagesize, id * self.pagesize))
        }
    }
}

fn is_valid_page_size(n: u32) -> (r: bool)
    ensures
        r == valid_page_size(n as int),
{
    n == 512 || n == 1024 || n == 2048 || n == 4096 || n == 8192 || n == 16384 || n == 32768 || n
        == 65536
}

impl Pager {
    /// The sizes of every pager are such as the format allows.
    #[verifier::type_invariant]
    pub open spec fn well_formed(self) -> bool {
        self@.wf()
    }

    /// The number of pages of the file.
    pub fn n_pages(&self) -> (r: u32)
        ensures
            r == self@.n_pages,
    {
        self.n_pages
    }

    /// The size of a page in bytes.
    pub fn pagesize(&self) -> (r: u32)
        ensures
            r == self@.pagesize,
    {
        self.pagesize
    }

    /// The number of bytes of a page that are for use.
    pub fn usable_size(&self) -> (r: u32)
        ensures
            r == self@.usable_size,
            480 <= r <= 65536,
    {
        proof {
            use_type_invariant(self);
        }
        self.usable_size
    }

    /// The first trunk page of the free list, if there is one.
    pub fn first_freelist_trunk_page_id(&self) -> (r: Option<PageId>)
        ensures
            r == self@.first_freelist_trunk_page_id,
    {
        self.first_freelist_trunk_page_id
    }

    /// The number of free pages that the header of the file declares.
    pub fn n_freelist_pages(&self) -> (r: u32)
        ensures
            r == self@.n_freelist_pages,
    {
        self.n_freelist_pages
    }

    /// A pager over the bytes of a file, with the sizes that the header of
    /// the file declares. Sizes that the format does not allow are refused as
    /// a corruption.
    pub fn new(
        file: Vec<u8>,
        n_pages: u32,
        pagesize: u32,
        usable_size: u32,
        first_freelist_trunk_page_id: Option<PageId>,
        n_freelist_pages: u32,
    ) -> (r: core::result::Result<Pager, DatabaseError>)
        ensures
            match r {
                Ok(p) => p@.wf() && p@ == (PagerView {
                    file: file@,
                    n_pages: n_pages as int,
                    pagesize: pagesize as int,
                    usable_size: usable_size as int,
                    first_freelist_trunk_page_id,
                    n_freelist_pages: n_freelist_pages as int,
                }),
                Err(e) => e == DatabaseError::Corruption && !(valid_page_size(pagesize as int)
                    && MIN_USABLE_SIZE <= usable_size <= pagesize),
            },
    {
        if !is_valid_page_size(pagesize) || usable_size < MIN_USABLE_SIZE || usable_size > pagesize {
            return Err(DatabaseError::Corruption);
        }
        Ok(
            Pager {
                file,
                n_pages,
                pagesize,
                usable_size,
                first_freelist_trunk_page_id,
                n_freelist_pages,
            },
        )
    }

    /// The bytes of a page; see [`PagerView::page`].
    pub fn get_page(&self, id: PageId) -> (r: core::result::Result<&[u8], DatabaseError>)
        ensures
            match r {
                Ok(page) => self@.page(id as int) == Ok::<Seq<u8>, DatabaseError>(page@)
                    && page@.len() == self@.pagesize,
                Err(e) => self@.page(id as int) == Err::<Seq<u8>, DatabaseError>(e),
            },
    {
        proof {
            use_type_invariant(self);
        }
        if id < 1 || id > self.n_pages {
            return Err(DatabaseError::Range);
        }
        assert(self.pagesize <= id * self.pagesize <= 0xFFFF_FFFF * 65536) by (nonlinear_arith)
            requires
                1 <= id <= 0xFFFF_FFFF,
                0 <= self.pagesize <= 65536,
        ;
        let end: u64 = id as u64 * self.pagesize as u64;
        if end > self.file.len() as u64 {
            return Err(DatabaseError::Io);
        }
        let start: u64 = end - self.pagesize as u64;
        assert((id - 1) * self.pagesize == id * self.pagesize - self.pagesize)
            by (nonlinear_arith);
        Ok(slice_subrange(self.file.as_slice(), start as usize, end as usize))
    }
}


/// The leaves that a trunk page of the free list names: `n` numbers of
/// pages, four bytes each, from the eighth byte of the page on.
pub open spec fn trunk_leaves(page: Seq<u8>, n: int) -> Seq<PageId> {
    Seq::new(n as nat, |i: int| be_value(page.subrange(8 + 4 * i, 12 + 4 * i)) as PageId)
}

impl PagerView {
    /// The free pages from the trunk page `id` on, where no more than
    /// `budget` are left to come: each trunk page, followed by the leaves
    /// that it names. A trunk page begins with the number of the next, four
    /// bytes, where zero ends the chain, and the number of its leaves, four
    /// bytes. A chain that leads out of the file, names more leaves than a
    /// page has room for, or holds more pages than `budget`, is a
    /// corruption.
    pub open spec fn free_pages_from(self, id: int, budget: int) -> core::result::Result<
        Seq<PageId>,
        DatabaseError,
    >
        decreases budget,
    {
        if id == 0 {
            Ok(Seq::<PageId>::empty())
        } else if budget <= 0 {
            Err(DatabaseError::Corruption)
        } else {
            match self.page(id) {
                Err(DatabaseError::Range) => Err(DatabaseError::Corruption),
                Err(e) => Err(e),
                Ok(page) => {
                    let n = be_value(page.subrange(4, 8));
                    if n < 0 || 8 + 4 * n > self.usable_size || n + 1 > budget {
                        Err(DatabaseError::Corruption)
                    } else {
                        joined(
                            seq![id as PageId] + trunk_leaves(page, n),
                            self.free_pages_from(
                                be_value(page.subrange(0, 4)),
                                budget - 1 - n,
                            ),
                        )
                    }
                },
            }
        }
    }

    /// The free pages of the file, in the order of the free list. The list
    /// must hold as many pages as the header of the file declares: a list
    /// that holds more or fewer is a corruption.
    pub open spec fn free_pages(self) -> core::result::Result<Seq<PageId>, DatabaseError> {
        let first: int = match self.first_freelist_trunk_page_id {
            Some(id) => id as int,
            None => 0,
        };
        match self.free_pages_from(first, self.n_freelist_pages) {
            Err(e) => Err(e),
            Ok(ids) => if ids.len() == self.n_freelist_pages {
                Ok(ids)
            } else {
                Err(DatabaseError::Corruption)
            },
        }
    }
}

impl Pager {
    /// The free pages of the file; see [`PagerView::free_pages`].
    pub fn free_pages(&self) -> (r: core::result::Result<Vec<PageId>, DatabaseError>)
        ensures
            match r {
                Ok(ids) => self@.free_pages() == Ok::<Seq<PageId>, DatabaseError>(ids@),
                Err(e) => self@.free_pages() == Err::<Seq<PageId>, DatabaseError>(e),
            },
    {
        proof {
            use_type_invariant(self);
        }
        let ghost pv = self@;
        let first: PageId = match self.first_freelist_trunk_page_id {
            Some(id) => id,
            None => 0,
        };
        let ghost goal = pv.free_pages_from(first as int, pv.n_freelist_pages);
        let mut out: Vec<PageId> = Vec::new();
        let mut id: PageId = first;
        let mut budget: u32 = self.n_freelist_pages;
        proof {
            match goal {
                Ok(ids) => {
                    assert(out@ + ids =~= ids);
                },
                Err(_) => {},
            }
        }
        while id != 0
            invariant
                pv == self@,
                pv.wf(),
                goal == pv.free_pages_from(first as int, pv.n_freelist_pages),
                first == match pv.first_freelist_trunk_page_id {
                    Some(id) => id,
                    None => 0,
                },
                joined(out@, pv.free_pages_from(id as int, budget as int)) == goal,
            decreases budget,
        {
            if budget == 0 {
                return Err(DatabaseError::Corruption);
            }
            let page: &[u8] = match self.get_page(id) {
                Err(DatabaseError::Range) => {
                    return Err(DatabaseError::Corruption);
                },
                Err(e) => {
                    return Err(e);
                },
                Ok(p) => p,
            };
            proof {
                lemma_pow256_values();
            }
            let next: u64 = read_be(page, 0, 4);
            let n: u64 = read_be(page, 4, 4);
            if 8 + 4 * n > self.usable_size as u64 || n + 1 > budget as u64 {
                return Err(DatabaseError::Corruption);
            }
            let ghost before = out@;
            out.push(id);
            let mut i: usize = 0;
            while i < n as usize
                invariant
                    i <= n,
                    8 + 4 * n <= pv.usable_size <= page@.len(),
                    pv.wf(),
                    out@.len() == before.len() + 1 + i,
                    out@.subrange(0, before.len() as int) == before,
                    out@[before.len() as int] == id,
                    forall|k: int|
                        0 <= k < i ==> out@[before.len() + 1 + k] == trunk_leaves(page@, n as int)[k],
                decreases n - i,
            {
                proof {
                    lemma_pow256_values();
                }
                let leaf: u64 = read_be(page, 8 + 4 * i, 4);
                out.push(leaf as PageId);
                i = i + 1;
            }
            proof {
                let piece = seq![id] + trunk_leaves(page@, n as int);
                assert(out@ =~= before + piece);
                match pv.free_pages_from(next as int, budget - 1 - n) {
                    Ok(rest) => {
                        assert(before + (piece + rest) =~= out@ + rest);
                    },
                    Err(_) => {},
                }
            }
            id = next as PageId;
            budget = (budget as u64 - 1 - n) as u32;
        }
        proof {
            assert(out@ + Seq::<PageId>::empty() =~= out@);
        }
        if out.len() as u64 != self.n_freelist_pages as u64 {
            return Err(DatabaseError::Corruption);
        }
        Ok(out)
    }
}


/// A page that the file ends before cannot be read, and a free list that
/// leads to such a page cannot be walked: both fail with an input error.
pub proof fn lemma_truncated_page(pv: PagerView, id: int, budget: int)
    requires
        pv.wf(),
        1 <= id <= pv.n_pages,
        pv.file.len() < id * pv.pagesize,
        budget > 0,
    ensures
        pv.page(id) == Err::<Seq<u8>, DatabaseError>(DatabaseError::Io),
        pv.free_pages_from(id, budget) == Err::<Seq<PageId>, DatabaseError>(DatabaseError::Io),
{
}

} // verus!
