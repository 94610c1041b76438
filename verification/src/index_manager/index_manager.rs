use vstd::prelude::*;
use vstd::string::StringExecFns;

use crate::interpreter::schema::same_bytes;

verus! {

/// Where the series of a tag is kept: the identifier that names its file,
/// and when it was last changed, in seconds since the beginning of 1970.
#[derive(Debug)]
pub struct IndexEntry {
    pub uuid: String,
    pub last_modified: u64,
}

/// What an [`IndexEntry`] holds.
pub struct IndexEntryView {
    pub uuid: Seq<char>,
    pub last_modified: u64,
}

impl View for IndexEntry {
    type V = IndexEntryView;

    open spec fn view(&self) -> IndexEntryView {
        IndexEntryView { uuid: self.uuid@, last_modified: self.last_modified }
    }
}

/// The index of the series: for each tag that has one, its entry.
#[derive(Debug)]
pub struct IndexManager {
    pub indices: Vec<(String, IndexEntry)>,
}

/// The map that the pairs of a tag and an entry make, a later pair going
/// before an earlier one with the same tag.
pub open spec fn entries_map(entries: Seq<(String, IndexEntry)>) -> Map<Seq<char>, IndexEntryView>
    decreases entries.len(),
{
    if entries.len() == 0 {
        Map::empty()
    } else {
        entries_map(entries.drop_last()).insert(entries.last().0@, entries.last().1@)
    }
}

impl View for IndexManager {
    type V = Map<Seq<char>, IndexEntryView>;

    open spec fn view(&self) -> Map<Seq<char>, IndexEntryView> {
        entries_map(self.indices@)
    }
}

/// Without the pairs of a tag, the map is without the tag.
proof fn lemma_entries_without(
    entries: Seq<(String, IndexEntry)>,
    kept: Seq<(String, IndexEntry)>,
    tag: Seq<char>,
    item: (String, IndexEntry),
)
    requires
        entries_map(kept) == entries_map(entries).remove(tag),
    ensures
        item.0@ == tag ==> entries_map(kept) == entries_map(entries.push(item)).remove(tag),
        item.0@ != tag ==> entries_map(kept.push(item)) == entries_map(entries.push(item)).remove(
            tag,
        ),
{
    assert(entries.push(item).drop_last() =~= entries);
    assert(kept.push(item).drop_last() =~= kept);
    if item.0@ == tag {
        assert(entries_map(kept) =~= entries_map(entries.push(item)).remove(tag));
    } else {
        assert(entries_map(kept.push(item)) =~= entries_map(entries.push(item)).remove(tag));
    }
}

impl IndexManager {
    /// An index without entries.
    pub fn new() -> (r: Self)
        ensures
            r@ == Map::<Seq<char>, IndexEntryView>::empty(),
    {
        IndexManager { indices: Vec::new() }
    }

    /// Gives the tag the entry, in place of the one that it had, if it had
    /// one.
    pub fn add_index_entry(&mut self, tag: String, uuid: String, last_modified: u64)
        ensures
            final(self)@ == old(self)@.insert(tag@, IndexEntryView { uuid: uuid@, last_modified }),
    {
        let ghost before = self.indices@;
        let mut kept: Vec<(String, IndexEntry)> = Vec::new();
        let mut rest: Vec<(String, IndexEntry)> = Vec::new();
        // The pairs are taken from the end, so they are turned round first.
        while self.indices.len() > 0
            invariant
                self.indices@.len() + rest@.len() == before.len(),
                forall|k: int| 0 <= k < self.indices@.len() ==> self.indices@[k] == before[k],
                forall|k: int|
                    0 <= k < rest@.len() ==> #[trigger] rest@[k] == before[before.len() - 1 - k],
            decreases self.indices@.len(),
        {
            let item = self.indices.pop().unwrap();
            rest.push(item);
        }
        let ghost done: Seq<(String, IndexEntry)> = Seq::empty();
        assert(entries_map(kept@) =~= entries_map(done).remove(tag@));
        while rest.len() > 0
            invariant
                done.len() + rest@.len() == before.len(),
                forall|k: int| 0 <= k < done.len() ==> done[k] == before[k],
                forall|k: int|
                    0 <= k < rest@.len() ==> #[trigger] rest@[k] == before[before.len() - 1 - k],
                entries_map(kept@) == entries_map(done).remove(tag@),
            decreases rest@.len(),
        {
            let item = rest.pop().unwrap();
            proof {
                lemma_entries_without(done, kept@, tag@, item);
            }
            let same: bool = item.0 == tag;
            proof {
                done = done.push(item);
            }
            if !same {
                kept.push(item);
            }
        }
        assert(done =~= before);
        let ghost t = tag@;
        let ghost e = IndexEntryView { uuid: uuid@, last_modified };
        let ghost base = kept@;
        kept.push((tag, IndexEntry { uuid, last_modified }));
        proof {
            assert(kept@.drop_last() =~= base);
            assert(entries_map(kept@) =~= entries_map(before).insert(t, e));
        }
        self.indices = kept;
    }

    /// The entry of a tag, if it has one.
    pub fn get_index_entry(&self, tag: &str) -> (r: Option<&IndexEntry>)
        ensures
            match r {
                Some(entry) => self@.contains_key(tag@) && self@[tag@] == entry@,
                None => !self@.contains_key(tag@),
            },
    {
        let wanted: String = String::from_str(tag);
        let mut n: usize = self.indices.len();
        assert(self.indices@.take(n as int) =~= self.indices@);
        while n > 0
            invariant
                n <= self.indices@.len(),
                wanted@ == tag@,
                self@.contains_key(tag@) == entries_map(self.indices@.take(n as int)).contains_key(
                    tag@,
                ),
                self@.contains_key(tag@) ==> self@[tag@] == entries_map(
                    self.indices@.take(n as int),
                )[tag@],
            decreases n,
        {
            let ghost prefix = self.indices@.take(n as int);
            assert(prefix.drop_last() =~= self.indices@.take(n - 1));
            assert(prefix.last() == self.indices@[n - 1]);
            if self.indices[n - 1].0 == wanted {
                return Some(&self.indices[n - 1].1);
            }
            n = n - 1;
        }
        assert(self.indices@.take(0) =~= Seq::<(String, IndexEntry)>::empty());
        None
    }

    /// The name of the file that keeps the series of a tag: the identifier
    /// of its entry followed by `.bin`. `None` for a tag without an entry.
    pub fn file_name(&self, tag: &str) -> (r: Option<String>)
        ensures
            match r {
                Some(name) => self@.contains_key(tag@) && name@ == self@[tag@].uuid + ".bin"@,
                None => !self@.contains_key(tag@),
            },
    {
        match self.get_index_entry(tag) {
            Some(entry) => Some(entry.uuid.clone().concat(".bin")),
            None => None,
        }
    }
}


/// The place of the last pair among the first `n` whose tag is written by
/// the bytes `tag`.
pub open spec fn last_tagged(entries: Seq<(String, IndexEntry)>, tag: Seq<u8>, n: int) -> Option<
    int,
>
    decreases n,
{
    if n <= 0 || n > entries.len() {
        None
    } else if vstd::utf8::encode_utf8(entries[n - 1].0@) == tag {
        Some(n - 1)
    } else {
        last_tagged(entries, tag, n - 1)
    }
}

impl IndexManager {
    /// The entry of the tag that the bytes `tag` write, if it has one: of
    /// the pairs with that tag, the last.
    pub fn find_entry(&self, tag: &[u8]) -> (r: Option<&IndexEntry>)
        ensures
            match r {
                Some(entry) => last_tagged(self.indices@, tag@, self.indices@.len() as int)
                    is Some && *entry == self.indices@[last_tagged(
                    self.indices@,
                    tag@,
                    self.indices@.len() as int,
                )->0].1,
                None => last_tagged(self.indices@, tag@, self.indices@.len() as int) is None,
            },
    {
        let mut n: usize = self.indices.len();
        while n > 0
            invariant
                n <= self.indices@.len(),
                last_tagged(self.indices@, tag@, n as int) == last_tagged(
                    self.indices@,
                    tag@,
                    self.indices@.len() as int,
                ),
            decreases n,
        {
            if same_bytes(self.indices[n - 1].0.as_str().as_bytes(), tag) {
                return Some(&self.indices[n - 1].1);
            }
            n = n - 1;
        }
        None
    }
}

} // verus!
