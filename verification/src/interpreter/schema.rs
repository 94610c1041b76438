use vstd::prelude::*;

use crate::interpreter::collate::{compare_text, folded, lemma_bytes_order_equal, lower, Collation};
use crate::interpreter::definition::{columns_view, parse_columns, table_columns, ColumnView};
use crate::interpreter::error::DatabaseError;
use crate::interpreter::query::{expressions_view, query_result, rows_view, SelectStatement};
use crate::interpreter::record::values_view;
use crate::interpreter::value::{copy_bytes, nullable_view, TypeAffinity, Value, ValueView};

verus! {

/// The number of a page; the first page of a file has the number 1.
pub type PageId = u32;

/// Where a column's value is found in a row.
#[derive(Clone, Copy, Debug, PartialEq, Eq, Structural)]
pub enum ColumnNumber {
    /// The key of the row.
    RowId,
    /// The field of the record at this place, counted from zero.
    Column(usize),
}

/// A column as its table declares it.
#[derive(Debug)]
pub struct Column {
    pub name: Vec<u8>,
    pub type_affinity: TypeAffinity,
    /// The column alone is the primary key of its table.
    pub primary_key: bool,
    pub collation: Collation,
}

/// A table: the page at which its tree begins, and its columns in the order
/// of their declaration.
#[derive(Debug)]
pub struct Table {
    pub root_page_id: PageId,
    pub columns: Vec<Column>,
}

/// Whether two names are the same but for the case of their ASCII letters.
pub open spec fn same_name(a: Seq<u8>, b: Seq<u8>) -> bool {
    folded(a) == folded(b)
}

/// Whether two names are the same; see [`same_name`].
pub fn names_match(a: &[u8], b: &[u8]) -> (r: bool)
    ensures
        r == same_name(a@, b@),
{
    proof {
        lemma_bytes_order_equal(folded(a@), folded(b@));
    }
    compare_text(Collation::NoCase, a, b) == 0
}

/// The word `binary`.
pub open spec fn binary_word() -> Seq<u8> {
    seq![98u8, 105u8, 110u8, 97u8, 114u8, 121u8]
}

/// The word `nocase`.
pub open spec fn nocase_word() -> Seq<u8> {
    seq![110u8, 111u8, 99u8, 97u8, 115u8, 101u8]
}

/// The word `rtrim`.
pub open spec fn rtrim_word() -> Seq<u8> {
    seq![114u8, 116u8, 114u8, 105u8, 109u8]
}

/// The word `rowid`.
pub open spec fn rowid_word() -> Seq<u8> {
    seq![114u8, 111u8, 119u8, 105u8, 100u8]
}

/// The collation of a name, whatever the case of its letters; `None` for a
/// name that is none of a collation.
pub open spec fn collation_named(name: Seq<u8>) -> Option<Collation> {
    if same_name(name, binary_word()) {
        Some(Collation::Binary)
    } else if same_name(name, nocase_word()) {
        Some(Collation::NoCase)
    } else if same_name(name, rtrim_word()) {
        Some(Collation::RTrim)
    } else {
        None
    }
}

/// The collation of a name; see [`collation_named`].
pub fn calc_collation(collation_name: &[u8]) -> (r: Option<Collation>)
    ensures
        r == collation_named(collation_name@),
{
    let binary: Vec<u8> = vec![98u8, 105u8, 110u8, 97u8, 114u8, 121u8];
    let nocase: Vec<u8> = vec![110u8, 111u8, 99u8, 97u8, 115u8, 101u8];
    let rtrim: Vec<u8> = vec![114u8, 116u8, 114u8, 105u8, 109u8];
    assert(binary@ =~= binary_word());
    assert(nocase@ =~= nocase_word());
    assert(rtrim@ =~= rtrim_word());
    if names_match(collation_name, binary.as_slice()) {
        Some(Collation::Binary)
    } else if names_match(collation_name, nocase.as_slice()) {
        Some(Collation::NoCase)
    } else if names_match(collation_name, rtrim.as_slice()) {
        Some(Collation::RTrim)
    } else {
        None
    }
}

/// Whether `word`, written in small letters, stands at place `at` of `text`,
/// whatever the case of the letters there.
pub open spec fn word_at(text: Seq<u8>, word: Seq<u8>, at: int) -> bool {
    &&& 0 <= at
    &&& at + word.len() <= text.len()
    &&& forall|k: int| 0 <= k < word.len() ==> lower(#[trigger] text[at + k]) == word[k]
}

/// Whether `word`, written in small letters, stands anywhere in `text`.
pub open spec fn has_word(text: Seq<u8>, word: Seq<u8>) -> bool {
    exists|at: int| word_at(text, word, at)
}

fn word_stands_at(text: &[u8], word: &[u8], at: usize) -> (r: bool)
    requires
        at + word@.len() <= text@.len(),
    ensures
        r == word_at(text@, word@, at as int),
{
    let mut k: usize = 0;
    assert(text.len() <= usize::MAX);
    while k < word.len()
        invariant
            k <= word@.len(),
            at + word@.len() <= text@.len() <= usize::MAX,
            forall|j: int| 0 <= j < k ==> lower(#[trigger] text@[at + j]) == word@[j],
        decreases word@.len() - k,
    {
        let b: u8 = text[at + k];
        let folded_byte: u8 = if 65 <= b && b <= 90 {
            b + 32
        } else {
            b
        };
        if folded_byte != word[k] {
            assert(lower(text@[at + k]) != word@[k as int]);
            return false;
        }
        k = k + 1;
    }
    true
}

fn contains_word(text: &[u8], word: &[u8]) -> (r: bool)
    ensures
        r == has_word(text@, word@),
{
    if word.len() > text.len() {
        assert(forall|at: int| !word_at(text@, word@, at));
        return false;
    }
    let last: usize = text.len() - word.len();
    let mut at: usize = 0;
    while at <= last
        invariant
            at <= last + 1,
            last == text@.len() - word@.len(),
            word@.len() <= text@.len() <= usize::MAX,
            forall|j: int| 0 <= j < at ==> !word_at(text@, word@, j),
        decreases last + 1 - at,
    {
        if word_stands_at(text, word, at) {
            return true;
        }
        if at == last {
            assert(forall|j: int| !word_at(text@, word@, j));
            return false;
        }
        at = at + 1;
    }
    assert(forall|j: int| !word_at(text@, word@, j));
    false
}

/// The affinity that a declared type gives its column, by the words that
/// stand in it, whatever the case of their letters: `int` makes it an
/// integer; `char`, `clob` or `text` a text; `blob`, or no type at all, a
/// blob; `real`, `floa` or `doub` a real; anything else numeric. The earlier
/// rule wins.
pub open spec fn declared_affinity(t: Seq<u8>) -> TypeAffinity {
    if has_word(t, seq![105u8, 110u8, 116u8]) {
        TypeAffinity::Integer
    } else if has_word(t, seq![99u8, 104u8, 97u8, 114u8]) || has_word(
        t,
        seq![99u8, 108u8, 111u8, 98u8],
    ) || has_word(t, seq![116u8, 101u8, 120u8, 116u8]) {
        TypeAffinity::Text
    } else if t.len() == 0 || has_word(t, seq![98u8, 108u8, 111u8, 98u8]) {
        TypeAffinity::Blob
    } else if has_word(t, seq![114u8, 101u8, 97u8, 108u8]) || has_word(
        t,
        seq![102u8, 108u8, 111u8, 97u8],
    ) || has_word(t, seq![100u8, 111u8, 117u8, 98u8]) {
        TypeAffinity::Real
    } else {
        TypeAffinity::Numeric
    }
}

/// The affinity of a declared type; see [`declared_affinity`].
pub fn calc_type_affinity(declared_type: &[u8]) -> (r: TypeAffinity)
    ensures
        r == declared_affinity(declared_type@),
{
    let int_word: Vec<u8> = vec![105u8, 110u8, 116u8];
    let char_word: Vec<u8> = vec![99u8, 104u8, 97u8, 114u8];
    let clob_word: Vec<u8> = vec![99u8, 108u8, 111u8, 98u8];
    let text_word: Vec<u8> = vec![116u8, 101u8, 120u8, 116u8];
    let blob_word: Vec<u8> = vec![98u8, 108u8, 111u8, 98u8];
    let real_word: Vec<u8> = vec![114u8, 101u8, 97u8, 108u8];
    let floa_word: Vec<u8> = vec![102u8, 108u8, 111u8, 97u8];
    let doub_word: Vec<u8> = vec![100u8, 111u8, 117u8, 98u8];
    assert(int_word@ =~= seq![105u8, 110u8, 116u8]);
    assert(char_word@ =~= seq![99u8, 104u8, 97u8, 114u8]);
    assert(clob_word@ =~= seq![99u8, 108u8, 111u8, 98u8]);
    assert(text_word@ =~= seq![116u8, 101u8, 120u8, 116u8]);
    assert(blob_word@ =~= seq![98u8, 108u8, 111u8, 98u8]);
    assert(real_word@ =~= seq![114u8, 101u8, 97u8, 108u8]);
    assert(floa_word@ =~= seq![102u8, 108u8, 111u8, 97u8]);
    assert(doub_word@ =~= seq![100u8, 111u8, 117u8, 98u8]);
    if contains_word(declared_type, int_word.as_slice()) {
        TypeAffinity::Integer
    } else if contains_word(declared_type, char_word.as_slice()) || contains_word(
        declared_type,
        clob_word.as_slice(),
    ) || contains_word(declared_type, text_word.as_slice()) {
        TypeAffinity::Text
    } else if declared_type.len() == 0 || contains_word(declared_type, blob_word.as_slice()) {
        TypeAffinity::Blob
    } else if contains_word(declared_type, real_word.as_slice()) || contains_word(
        declared_type,
        floa_word.as_slice(),
    ) || contains_word(declared_type, doub_word.as_slice()) {
        TypeAffinity::Real
    } else {
        TypeAffinity::Numeric
    }
}

/// How an expression reaches a column: where its value lies, its affinity
/// and its collation.
pub type ColumnInfo = (ColumnNumber, TypeAffinity, Collation);

/// How the column at place `i` is reached. An integer column that alone is
/// the primary key is the key of the row under another name.
pub open spec fn column_info(columns: Seq<Column>, i: int) -> ColumnInfo {
    let column = columns[i];
    if column.primary_key && column.type_affinity == TypeAffinity::Integer {
        (ColumnNumber::RowId, column.type_affinity, column.collation)
    } else {
        (ColumnNumber::Column(i as usize), column.type_affinity, column.collation)
    }
}

/// The place of the first column from `from` on that has the name.
pub open spec fn first_named(columns: Seq<Column>, name: Seq<u8>, from: int) -> Option<int>
    decreases columns.len() - from,
{
    if from < 0 || from >= columns.len() {
        None
    } else if same_name(columns[from].name@, name) {
        Some(from)
    } else {
        first_named(columns, name, from + 1)
    }
}

impl Table {
    /// How the column of a name is reached: the first column of that name,
    /// whatever the case of its letters; the key of the row for the name
    /// `rowid` where no column has it; `None` for any other name.
    pub open spec fn column_named(&self, name: Seq<u8>) -> Option<ColumnInfo> {
        match first_named(self.columns@, name, 0) {
            Some(i) => Some(column_info(self.columns@, i)),
            None => if same_name(name, rowid_word()) {
                Some((ColumnNumber::RowId, TypeAffinity::Integer, Collation::Binary))
            } else {
                None
            },
        }
    }

    /// How the column of a name is reached; see [`Table::column_named`].
    pub fn get_column(&self, name: &[u8]) -> (r: Option<ColumnInfo>)
        ensures
            r == self.column_named(name@),
    {
        let mut i: usize = 0;
        while i < self.columns.len()
            invariant
                i <= self.columns@.len(),
                first_named(self.columns@, name@, i as int) == first_named(self.columns@, name@, 0),
            decreases self.columns@.len() - i,
        {
            if names_match(self.columns[i].name.as_slice(), name) {
                let column: &Column = &self.columns[i];
                if column.primary_key && matches!(column.type_affinity, TypeAffinity::Integer) {
                    return Some((ColumnNumber::RowId, column.type_affinity, column.collation));
                } else {
                    return Some((ColumnNumber::Column(i), column.type_affinity, column.collation));
                }
            }
            i = i + 1;
        }
        let rowid: Vec<u8> = vec![114u8, 111u8, 119u8, 105u8, 100u8];
        assert(rowid@ =~= rowid_word());
        if names_match(name, rowid.as_slice()) {
            Some((ColumnNumber::RowId, TypeAffinity::Integer, Collation::Binary))
        } else {
            None
        }
    }

    /// How each column is reached, in the order of declaration.
    pub fn get_all_columns(&self) -> (r: Vec<ColumnInfo>)
        ensures
            r@.len() == self.columns@.len(),
            forall|i: int| 0 <= i < r@.len() ==> r@[i] == column_info(self.columns@, i),
    {
        let mut out: Vec<ColumnInfo> = Vec::new();
        let mut i: usize = 0;
        while i < self.columns.len()
            invariant
                i <= self.columns@.len(),
                out@.len() == i,
                forall|k: int| 0 <= k < i ==> out@[k] == column_info(self.columns@, k),
            decreases self.columns@.len() - i,
        {
            let column: &Column = &self.columns[i];
            if column.primary_key && matches!(column.type_affinity, TypeAffinity::Integer) {
                out.push((ColumnNumber::RowId, column.type_affinity, column.collation));
            } else {
                out.push((ColumnNumber::Column(i), column.type_affinity, column.collation));
            }
            i = i + 1;
        }
        out
    }
}


/// An index: the page at which its tree begins, and the table that it is
/// an index of.
#[derive(Debug)]
pub struct Index {
    pub root_page_id: PageId,
    pub table_name: Vec<u8>,
}

/// The tables and the indexes of a database, each under its name.
#[derive(Debug)]
pub struct Schema {
    pub tables: Vec<(Vec<u8>, Table)>,
    pub indexes: Vec<(Vec<u8>, Index)>,
}

/// What a [`Table`] holds.
pub struct TableView {
    pub root_page_id: PageId,
    pub columns: Seq<ColumnView>,
}

/// What an [`Index`] holds.
pub struct IndexView {
    pub root_page_id: PageId,
    pub table_name: Seq<u8>,
}

/// What a [`Schema`] holds.
pub struct SchemaView {
    pub tables: Seq<(Seq<u8>, TableView)>,
    pub indexes: Seq<(Seq<u8>, IndexView)>,
}

impl View for Table {
    type V = TableView;

    open spec fn view(&self) -> TableView {
        TableView { root_page_id: self.root_page_id, columns: columns_view(self.columns@) }
    }
}

impl View for Index {
    type V = IndexView;

    open spec fn view(&self) -> IndexView {
        IndexView { root_page_id: self.root_page_id, table_name: self.table_name@ }
    }
}

impl View for Schema {
    type V = SchemaView;

    open spec fn view(&self) -> SchemaView {
        SchemaView {
            tables: Seq::new(self.tables@.len(), |i: int| (self.tables@[i].0@, self.tables@[i].1@)),
            indexes: Seq::new(
                self.indexes@.len(),
                |i: int| (self.indexes@[i].0@, self.indexes@[i].1@),
            ),
        }
    }
}

/// The word `table`.
pub open spec fn table_word() -> Seq<u8> {
    seq![116u8, 97u8, 98u8, 108u8, 101u8]
}

/// The word `index`.
pub open spec fn index_word() -> Seq<u8> {
    seq![105u8, 110u8, 100u8, 101u8, 120u8]
}

/// The name of the table that holds the schema: `sqlite_schema`.
pub open spec fn schema_name() -> Seq<u8> {
    seq![
        115u8,
        113u8,
        108u8,
        105u8,
        116u8,
        101u8,
        95u8,
        115u8,
        99u8,
        104u8,
        101u8,
        109u8,
        97u8,
    ]
}

/// A column of the schema table: a text, or an integer, compared byte by
/// byte, and no key.
pub open spec fn schema_column(name: Seq<u8>, type_affinity: TypeAffinity) -> ColumnView {
    ColumnView { name, type_affinity, primary_key: false, collation: Collation::Binary }
}

/// What the schema table holds: it begins at the first page and has the
/// columns `type`, `name`, `tbl_name`, `rootpage` and `sql`.
pub open spec fn schema_table_view() -> TableView {
    TableView {
        root_page_id: 1,
        columns: seq![
            schema_column(seq![116u8, 121u8, 112u8, 101u8], TypeAffinity::Text),
            schema_column(seq![110u8, 97u8, 109u8, 101u8], TypeAffinity::Text),
            schema_column(
                seq![116u8, 98u8, 108u8, 95u8, 110u8, 97u8, 109u8, 101u8],
                TypeAffinity::Text,
            ),
            schema_column(
                seq![114u8, 111u8, 111u8, 116u8, 112u8, 97u8, 103u8, 101u8],
                TypeAffinity::Integer,
            ),
            schema_column(seq![115u8, 113u8, 108u8], TypeAffinity::Text),
        ],
    }
}

/// The text of a value; `None` for a value that is no text.
pub open spec fn text_of(v: Option<ValueView>) -> Option<Seq<u8>> {
    match v {
        Some(ValueView::Text(t)) => Some(t),
        _ => None,
    }
}

/// The number of a page that a value holds; `None` for a value that is no
/// integer from zero to the greatest number of a page.
pub open spec fn page_of(v: Option<ValueView>) -> Option<PageId> {
    match v {
        Some(ValueView::Integer(i)) => if 0 <= i <= u32::MAX {
            Some(i as u32)
        } else {
            None
        },
        _ => None,
    }
}

/// The schema `sv` with what a row of the schema table says added to it.
/// The row holds the kind of a thing, its name, the name of its table, the
/// number of its first page and the text of its definition. A table comes
/// to the tables with the columns that its definition declares (see
/// [`table_columns`]), an index to the indexes; a thing of another kind
/// changes nothing. A row of a table or an index that does not hold those
/// five in their storage classes is a corruption.
pub open spec fn with_row(sv: SchemaView, row: Seq<Option<ValueView>>) -> core::result::Result<
    SchemaView,
    DatabaseError,
> {
    if row.len() < 5 {
        Err(DatabaseError::Corruption)
    } else if text_of(row[0]) == Some(table_word()) || text_of(row[0]) == Some(index_word()) {
        match (text_of(row[1]), text_of(row[2]), page_of(row[3])) {
            (Some(name), Some(table_name), Some(root)) => if text_of(row[0]) == Some(
                table_word(),
            ) {
                let sql = match text_of(row[4]) {
                    Some(t) => t,
                    None => Seq::<u8>::empty(),
                };
                Ok(
                    SchemaView {
                        tables: sv.tables.push(
                            (name, TableView { root_page_id: root, columns: table_columns(sql) }),
                        ),
                        indexes: sv.indexes,
                    },
                )
            } else {
                Ok(
                    SchemaView {
                        tables: sv.tables,
                        indexes: sv.indexes.push(
                            (name, IndexView { root_page_id: root, table_name }),
                        ),
                    },
                )
            },
            _ => Err(DatabaseError::Corruption),
        }
    } else {
        Ok(sv)
    }
}

/// The schema `start` with what the first `n` rows say added to it, row by
/// row; the first row that is corrupt ends it.
pub open spec fn with_rows(start: SchemaView, rows: Seq<Seq<Option<ValueView>>>, n: int) -> core::result::Result<
    SchemaView,
    DatabaseError,
>
    decreases n,
{
    if n <= 0 {
        Ok(start)
    } else {
        match with_rows(start, rows, n - 1) {
            Err(e) => Err(e),
            Ok(sv) => with_row(sv, rows[n - 1]),
        }
    }
}

proof fn lemma_with_rows_fails(
    start: SchemaView,
    rows: Seq<Seq<Option<ValueView>>>,
    i: int,
    n: int,
)
    requires
        0 <= i <= n,
        with_rows(start, rows, i) is Err,
    ensures
        with_rows(start, rows, n) == with_rows(start, rows, i),
    decreases n - i,
{
    if i < n {
        lemma_with_rows_fails(start, rows, i, n - 1);
    }
}

/// Whether two texts are the same, byte for byte.
pub fn same_bytes(a: &[u8], b: &[u8]) -> (r: bool)
    ensures
        r == (a@ == b@),
{
    proof {
        lemma_bytes_order_equal(a@, b@);
    }
    compare_text(Collation::Binary, a, b) == 0
}

/// The place of the last entry of the first `n` that has the name.
pub open spec fn last_named<T>(entries: Seq<(Seq<u8>, T)>, name: Seq<u8>, n: int) -> Option<int>
    decreases n,
{
    if n <= 0 || n > entries.len() {
        None
    } else if entries[n - 1].0 == name {
        Some(n - 1)
    } else {
        last_named(entries, name, n - 1)
    }
}

fn text_value(v: &Option<Value>) -> (r: Option<Vec<u8>>)
    ensures
        match r {
            Some(t) => text_of(nullable_view(*v)) == Some(t@),
            None => text_of(nullable_view(*v)) is None,
        },
{
    match v {
        Some(Value::Text(t)) => Some(copy_bytes(t)),
        _ => None,
    }
}

fn page_value(v: &Option<Value>) -> (r: Option<PageId>)
    ensures
        r == page_of(nullable_view(*v)),
{
    match v {
        Some(Value::Integer(i)) => if 0 <= *i && *i <= 0xFFFF_FFFF {
            Some(*i as u32)
        } else {
            None
        },
        _ => None,
    }
}

impl Schema {
    /// The table that holds the schema itself: it begins at the first page
    /// and has the columns `type`, `name`, `tbl_name`, `rootpage` and `sql`.
    pub fn schema_table() -> (r: Table)
        ensures
            r@ == schema_table_view(),
    {
        let mut columns: Vec<Column> = Vec::new();
        columns.push(
            Column {
                name: vec![116u8, 121u8, 112u8, 101u8],
                type_affinity: TypeAffinity::Text,
                primary_key: false,
                collation: Collation::Binary,
            },
        );
        columns.push(
            Column {
                name: vec![110u8, 97u8, 109u8, 101u8],
                type_affinity: TypeAffinity::Text,
                primary_key: false,
                collation: Collation::Binary,
            },
        );
        columns.push(
            Column {
                name: vec![116u8, 98u8, 108u8, 95u8, 110u8, 97u8, 109u8, 101u8],
                type_affinity: TypeAffinity::Text,
                primary_key: false,
                collation: Collation::Binary,
            },
        );
        columns.push(
            Column {
                name: vec![114u8, 111u8, 111u8, 116u8, 112u8, 97u8, 103u8, 101u8],
                type_affinity: TypeAffinity::Integer,
                primary_key: false,
                collation: Collation::Binary,
            },
        );
        columns.push(
            Column {
                name: vec![115u8, 113u8, 108u8],
                type_affinity: TypeAffinity::Text,
                primary_key: false,
                collation: Collation::Binary,
            },
        );
        let r = Table { root_page_id: 1, columns };
        assert(r@.columns =~= schema_table_view().columns);
        r
    }

    /// The schema that the rows of the schema table make, begun with the
    /// schema table itself under the name `sqlite_schema`; see
    /// [`with_rows`].
    pub fn from_rows(rows: &Vec<Vec<Option<Value>>>, schema_table: Table) -> (r:
        core::result::Result<Schema, DatabaseError>)
        ensures
            match r {
                Ok(schema) => with_rows(
                    SchemaView {
                        tables: seq![(schema_name(), schema_table@)],
                        indexes: Seq::<(Seq<u8>, IndexView)>::empty(),
                    },
                    rows_view(rows@),
                    rows@.len() as int,
                ) == Ok::<SchemaView, DatabaseError>(schema@),
                Err(e) => with_rows(
                    SchemaView {
                        tables: seq![(schema_name(), schema_table@)],
                        indexes: Seq::<(Seq<u8>, IndexView)>::empty(),
                    },
                    rows_view(rows@),
                    rows@.len() as int,
                ) == Err::<SchemaView, DatabaseError>(e),
            },
    {
        let ghost start = SchemaView {
            tables: seq![(schema_name(), schema_table@)],
            indexes: Seq::<(Seq<u8>, IndexView)>::empty(),
        };
        let ghost all = rows_view(rows@);
        let name: Vec<u8> = vec![
            115u8,
            113u8,
            108u8,
            105u8,
            116u8,
            101u8,
            95u8,
            115u8,
            99u8,
            104u8,
            101u8,
            109u8,
            97u8,
        ];
        assert(name@ =~= schema_name());
        let mut schema: Schema = Schema { tables: Vec::new(), indexes: Vec::new() };
        schema.tables.push((name, schema_table));
        assert(schema@.tables =~= start.tables);
        assert(schema@.indexes =~= start.indexes);
        let table: Vec<u8> = vec![116u8, 97u8, 98u8, 108u8, 101u8];
        let index: Vec<u8> = vec![105u8, 110u8, 100u8, 101u8, 120u8];
        assert(table@ =~= table_word());
        assert(index@ =~= index_word());
        let mut i: usize = 0;
        while i < rows.len()
            invariant
                i <= rows@.len(),
                all == rows_view(rows@),
                start == (SchemaView {
                    tables: seq![(schema_name(), schema_table@)],
                    indexes: Seq::<(Seq<u8>, IndexView)>::empty(),
                }),
                table@ == table_word(),
                index@ == index_word(),
                with_rows(start, all, i as int) == Ok::<SchemaView, DatabaseError>(schema@),
            decreases rows@.len() - i,
        {
            let row: &Vec<Option<Value>> = &rows[i];
            let ghost rv = values_view(row@);
            let ghost before = schema@;
            assert(all[i as int] == rv);
            proof {
                if with_row(before, rv) is Err {
                    lemma_with_rows_fails(start, all, i + 1, rows@.len() as int);
                }
            }
            if row.len() < 5 {
                return Err(DatabaseError::Corruption);
            }
            assert(rv[0] == nullable_view(row@[0]));
            assert(rv[1] == nullable_view(row@[1]));
            assert(rv[2] == nullable_view(row@[2]));
            assert(rv[3] == nullable_view(row@[3]));
            assert(rv[4] == nullable_view(row@[4]));
            let kind: Option<Vec<u8>> = text_value(&row[0]);
            let is_table: bool = match &kind {
                Some(k) => same_bytes(k.as_slice(), table.as_slice()),
                None => false,
            };
            let is_index: bool = match &kind {
                Some(k) => same_bytes(k.as_slice(), index.as_slice()),
                None => false,
            };
            if is_table || is_index {
                match (text_value(&row[1]), text_value(&row[2]), page_value(&row[3])) {
                    (Some(name), Some(table_name), Some(root)) => {
                        if is_table {
                            let sql: Vec<u8> = match text_value(&row[4]) {
                                Some(t) => t,
                                None => Vec::new(),
                            };
                            let columns: Vec<Column> = parse_columns(sql.as_slice());
                            schema.tables.push((name, Table { root_page_id: root, columns }));
                            assert(schema@.tables =~= before.tables.push(
                                (
                                    name@,
                                    TableView {
                                        root_page_id: root,
                                        columns: table_columns(sql@),
                                    },
                                ),
                            ));
                            assert(schema@.indexes =~= before.indexes);
                        } else {
                            schema.indexes.push((name, Index { root_page_id: root, table_name }));
                            assert(schema@.indexes =~= before.indexes.push(
                                (name@, IndexView { root_page_id: root, table_name: table_name@ }),
                            ));
                            assert(schema@.tables =~= before.tables);
                        }
                    },
                    _ => {
                        return Err(DatabaseError::Corruption);
                    },
                }
            }
            i = i + 1;
        }
        Ok(schema)
    }

    /// Reads the schema of a database: runs the query, which is to yield
    /// the rows of the schema table with their five columns, and makes the
    /// schema of its rows; see [`Schema::from_rows`].
    pub fn generate(stmt: SelectStatement<'_>, schema_table: Table) -> (r: core::result::Result<
        Schema,
        DatabaseError,
    >)
        ensures
            match query_result(
                stmt.conn.pager@,
                stmt.root_page_id as int,
                expressions_view(stmt.columns@),
                stmt.filter@,
            ) {
                Err(e) => r == Err::<Schema, DatabaseError>(e),
                Ok(rows) => match r {
                    Ok(schema) => with_rows(
                        SchemaView {
                            tables: seq![(schema_name(), schema_table@)],
                            indexes: Seq::<(Seq<u8>, IndexView)>::empty(),
                        },
                        rows,
                        rows.len() as int,
                    ) == Ok::<SchemaView, DatabaseError>(schema@),
                    Err(e) => with_rows(
                        SchemaView {
                            tables: seq![(schema_name(), schema_table@)],
                            indexes: Seq::<(Seq<u8>, IndexView)>::empty(),
                        },
                        rows,
                        rows.len() as int,
                    ) == Err::<SchemaView, DatabaseError>(e),
                },
            },
    {
        match stmt.execute() {
            Err(e) => Err(e),
            Ok(rows) => Self::from_rows(&rows, schema_table),
        }
    }

    /// The table of a name, the name taken byte for byte; where several have
    /// the name, the last. `None` where the schema has no such table.
    pub fn get_table(&self, table: &[u8]) -> (r: Option<&Table>)
        ensures
            match r {
                Some(t) => last_named(self@.tables, table@, self@.tables.len() as int) is Some
                    && 0 <= last_named(self@.tables, table@, self@.tables.len() as int)->0
                    < self.tables@.len() && *t == self.tables@[last_named(
                    self@.tables,
                    table@,
                    self@.tables.len() as int,
                )->0].1,
                None => last_named(self@.tables, table@, self@.tables.len() as int) is None,
            },
    {
        let mut n: usize = self.tables.len();
        while n > 0
            invariant
                n <= self.tables@.len(),
                last_named(self@.tables, table@, n as int) == last_named(
                    self@.tables,
                    table@,
                    self@.tables.len() as int,
                ),
            decreases n,
        {
            if same_bytes(self.tables[n - 1].0.as_slice(), table) {
                return Some(&self.tables[n - 1].1);
            }
            n = n - 1;
        }
        None
    }

    /// The index of a name, the name taken byte for byte; where several have
    /// the name, the last. `None` where the schema has no such index.
    pub fn get_index(&self, index: &[u8]) -> (r: Option<&Index>)
        ensures
            match r {
                Some(t) => last_named(self@.indexes, index@, self@.indexes.len() as int) is Some
                    && 0 <= last_named(self@.indexes, index@, self@.indexes.len() as int)->0
                    < self.indexes@.len() && *t == self.indexes@[last_named(
                    self@.indexes,
                    index@,
                    self@.indexes.len() as int,
                )->0].1,
                None => last_named(self@.indexes, index@, self@.indexes.len() as int) is None,
            },
    {
        let mut n: usize = self.indexes.len();
        while n > 0
            invariant
                n <= self.indexes@.len(),
                last_named(self@.indexes, index@, n as int) == last_named(
                    self@.indexes,
                    index@,
                    self@.indexes.len() as int,
                ),
            decreases n,
        {
            if same_bytes(self.indexes[n - 1].0.as_slice(), index) {
                return Some(&self.indexes[n - 1].1);
            }
            n = n - 1;
        }
        None
    }
}

} // verus!
