use vstd::prelude::*;

use crate::interpreter::binary64::{lemma_units_ordered, magnitude, SIGN_BIT};
use crate::interpreter::btree::{
    ascending, entries_view, lemma_truncated_root, open_tree, scan, scanned, tree_entries,
    tree_kind, Entry, EntryView, TreeKind, MAX_DEPTH,
};
use crate::interpreter::cursor::{work, Cursor};
use crate::interpreter::connection::Connection;
use crate::interpreter::error::{expression_failure, joined, record_failure, DatabaseError};
use crate::interpreter::expression::{
    expression_view, row_model, DataContext, Expression, ExpressionView, RowModel,
};
use crate::interpreter::pager::PagerView;
use crate::interpreter::record::{decode, decoded, values_view};
use crate::interpreter::schema::{ColumnNumber, PageId};
use crate::interpreter::value::{nullable_view, Value, ValueView};

verus! {

/// A row of a table or an entry of an index: its number and the values of
/// its record.
#[derive(Debug)]
pub struct Row {
    pub rowid: i64,
    pub values: Vec<Option<Value>>,
}

/// What a row with the number `rowid` and the `values` holds at a column:
/// its number as an integer; the value at the place of the column, and NULL
/// where the record ends before that place.
pub open spec fn record_value(
    rowid: i64,
    values: Seq<Option<ValueView>>,
    column: ColumnNumber,
) -> core::result::Result<Option<ValueView>, Seq<char>> {
    match column {
        ColumnNumber::RowId => Ok(Some(ValueView::Integer(rowid))),
        ColumnNumber::Column(i) => Ok(
            if i < values.len() {
                values[i as int]
            } else {
                None
            },
        ),
    }
}

/// The model of a row with the number `rowid` and the `values`.
pub open spec fn record_model(rowid: i64, values: Seq<Option<ValueView>>) -> RowModel {
    Map::total(|c: ColumnNumber| record_value(rowid, values, c))
}

impl DataContext for Row {
    open spec fn column_value(&self, column_idx: ColumnNumber) -> core::result::Result<
        Option<ValueView>,
        Seq<char>,
    > {
        record_value(self.rowid, values_view(self.values@), column_idx)
    }

    fn get_column_value(&self, column_idx: &ColumnNumber) -> (r: core::result::Result<
        Option<Value>,
        String,
    >) {
        match column_idx {
            ColumnNumber::RowId => Ok(Some(Value::Integer(self.rowid))),
            ColumnNumber::Column(i) => {
                if *i < self.values.len() {
                    match &self.values[*i] {
                        Some(v) => Ok(Some(v.duplicate())),
                        None => Ok(None),
                    }
                } else {
                    Ok(None)
                }
            },
        }
    }
}

/// How the rows of a query are found.
#[derive(Clone, Copy, Debug, PartialEq, Eq, Structural)]
pub enum QueryPlan {
    /// Every entry of the tree is read, from the first to the last.
    FullScan,
}

/// Whether a row passes a filter that yields `v`: the value is not NULL and,
/// taken as a number, not zero. A text or a blob counts as the number that it
/// begins with, and as zero where it begins with none.
pub open spec fn passes(v: Option<ValueView>) -> bool {
    match v {
        None => false,
        Some(x) => match x.with_numeric_affinity() {
            ValueView::Integer(i) => i != 0,
            ValueView::Real(r) => r.scaled() != 0,
            _ => false,
        },
    }
}

fn is_true(v: Option<Value>) -> (r: bool)
    ensures
        r == passes(nullable_view(v)),
{
    match v {
        None => false,
        Some(x) => match x.apply_numeric_affinity() {
            Value::Integer(i) => i != 0,
            Value::Real(d) => {
                let bits: u64 = d.to_bits();
                proof {
                    lemma_units_ordered(0, magnitude(bits));
                }
                bits != 0 && bits != SIGN_BIT
            },
            _ => false,
        },
    }
}

/// The values that the expressions from place `i` on yield for a row.
pub open spec fn projected(columns: Seq<ExpressionView>, row: RowModel, i: int) -> core::result::Result<
    Seq<Option<ValueView>>,
    DatabaseError,
>
    decreases columns.len() - i,
{
    if i >= columns.len() || i < 0 {
        Ok(Seq::<Option<ValueView>>::empty())
    } else {
        match columns[i].evaluation(Some(row)) {
            Err(e) => Err(expression_failure(e)),
            Ok(o) => joined(seq![o.0], projected(columns, row, i + 1)),
        }
    }
}

/// The rows that a query yields of the entries from place `i` on. The
/// record of each entry is decoded and the filter evaluated for it; where
/// the row passes, the expressions are evaluated in turn and their values
/// make a row of the result. The first failure ends the query.
pub open spec fn selected(
    entries: Seq<EntryView>,
    columns: Seq<ExpressionView>,
    filter: ExpressionView,
    i: int,
) -> core::result::Result<Seq<Seq<Option<ValueView>>>, DatabaseError>
    decreases entries.len() - i,
{
    if i >= entries.len() || i < 0 {
        Ok(Seq::<Seq<Option<ValueView>>>::empty())
    } else {
        match decoded(entries[i].payload) {
            Err(e) => Err(record_failure(e)),
            Ok(values) => {
                let row = record_model(entries[i].key, values);
                match filter.evaluation(Some(row)) {
                    Err(e) => Err(expression_failure(e)),
                    Ok(o) => if passes(o.0) {
                        match projected(columns, row, 0) {
                            Err(e) => Err(e),
                            Ok(out) => joined(seq![out], selected(entries, columns, filter, i + 1)),
                        }
                    } else {
                        selected(entries, columns, filter, i + 1)
                    },
                }
            },
        }
    }
}

/// What the expressions hold.
pub open spec fn expressions_view(columns: Seq<Expression>) -> Seq<ExpressionView> {
    Seq::new(columns.len(), |i: int| expression_view(columns[i]))
}

/// What the rows of a result hold.
pub open spec fn rows_view(rows: Seq<Vec<Option<Value>>>) -> Seq<Seq<Option<ValueView>>> {
    Seq::new(rows.len(), |i: int| values_view(rows[i]@))
}

/// What a query yields: the tree that begins at `root`, a table or an index
/// by the tag of that page, is scanned from its first entry to its last (see
/// [`scanned`]), and the rows are selected of its entries (see [`selected`]).
pub open spec fn query_result(
    pv: PagerView,
    root: int,
    columns: Seq<ExpressionView>,
    filter: ExpressionView,
) -> core::result::Result<Seq<Seq<Option<ValueView>>>, DatabaseError> {
    match tree_kind(pv, root) {
        Err(e) => Err(e),
        Ok(kind) => match scanned(pv, kind, root) {
            Err(e) => Err(e),
            Ok(entries) => selected(entries, columns, filter, 0),
        },
    }
}

/// A query: the rows of one tree that pass a filter, each as the values of
/// some expressions.
#[derive(Debug)]
pub struct SelectStatement<'a> {
    pub conn: &'a Connection,
    pub root_page_id: PageId,
    pub columns: Vec<Expression>,
    pub filter: Expression,
    pub plan: QueryPlan,
}

fn project(columns: &Vec<Expression>, row: &Row) -> (r: core::result::Result<
    Vec<Option<Value>>,
    DatabaseError,
>)
    ensures
        match r {
            Ok(out) => projected(
                expressions_view(columns@),
                record_model(row.rowid, values_view(row.values@)),
                0,
            ) == Ok::<Seq<Option<ValueView>>, DatabaseError>(values_view(out@)),
            Err(e) => projected(
                expressions_view(columns@),
                record_model(row.rowid, values_view(row.values@)),
                0,
            ) == Err::<Seq<Option<ValueView>>, DatabaseError>(e),
        },
{
    let ghost cs = expressions_view(columns@);
    let ghost model = record_model(row.rowid, values_view(row.values@));
    let ghost goal = projected(cs, model, 0);
    let mut out: Vec<Option<Value>> = Vec::new();
    let mut i: usize = 0;
    proof {
        assert(row_model(Some(row)) == Some(model)) by {
            assert(row_model(Some(row))->0 =~= model);
        }
        assert(values_view(out@) =~= Seq::<Option<ValueView>>::empty());
        match goal {
            Ok(vs) => {
                assert(values_view(out@) + vs =~= vs);
            },
            Err(_) => {},
        }
    }
    while i < columns.len()
        invariant
            i <= columns@.len(),
            cs == expressions_view(columns@),
            model == record_model(row.rowid, values_view(row.values@)),
            row_model(Some(row)) == Some(model),
            goal == projected(cs, model, 0),
            joined(values_view(out@), projected(cs, model, i as int)) == goal,
        decreases columns@.len() - i,
    {
        match columns[i].execute(Some(row)) {
            Err(e) => {
                return Err(DatabaseError::from_expression(&e));
            },
            Ok((value, _, _)) => {
                let ghost before = values_view(out@);
                let ghost item = nullable_view(value);
                out.push(value);
                proof {
                    assert(values_view(out@) =~= before.push(item));
                    match projected(cs, model, i + 1) {
                        Ok(rest) => {
                            assert(before + (seq![item] + rest) =~= values_view(out@) + rest);
                        },
                        Err(_) => {},
                    }
                }
            },
        }
        i = i + 1;
    }
    proof {
        assert(values_view(out@) + Seq::<Option<ValueView>>::empty() =~= values_view(out@));
    }
    Ok(out)
}

/// The rows that a query yields of the entries; see [`selected`].
pub fn select_rows(entries: &Vec<Entry>, columns: &Vec<Expression>, filter: &Expression) -> (r:
    core::result::Result<Vec<Vec<Option<Value>>>, DatabaseError>)
    ensures
        match r {
            Ok(rows) => selected(
                entries_view(entries@),
                expressions_view(columns@),
                filter@,
                0,
            ) == Ok::<Seq<Seq<Option<ValueView>>>, DatabaseError>(rows_view(rows@)),
            Err(e) => selected(entries_view(entries@), expressions_view(columns@), filter@, 0)
                == Err::<Seq<Seq<Option<ValueView>>>, DatabaseError>(e),
        },
{
    let ghost es = entries_view(entries@);
    let ghost cs = expressions_view(columns@);
    let ghost goal = selected(es, cs, filter@, 0);
    let mut out: Vec<Vec<Option<Value>>> = Vec::new();
    let mut i: usize = 0;
    proof {
        assert(rows_view(out@) =~= Seq::<Seq<Option<ValueView>>>::empty());
        match goal {
            Ok(rs) => {
                assert(rows_view(out@) + rs =~= rs);
            },
            Err(_) => {},
        }
    }
    while i < entries.len()
        invariant
            i <= entries@.len(),
            es == entries_view(entries@),
            cs == expressions_view(columns@),
            goal == selected(es, cs, filter@, 0),
            joined(rows_view(out@), selected(es, cs, filter@, i as int)) == goal,
        decreases entries@.len() - i,
    {
        let entry: &Entry = &entries[i];
        assert(es[i as int] == entry@);
        let values: Vec<Option<Value>> = match decode(entry.payload.as_slice()) {
            Err(e) => {
                return Err(DatabaseError::from_record(e));
            },
            Ok(v) => v,
        };
        let row: Row = Row { rowid: entry.key, values };
        let ghost model = record_model(row.rowid, values_view(row.values@));
        proof {
            assert(row_model(Some(&row)) == Some(model)) by {
                assert(row_model(Some(&row))->0 =~= model);
            }
        }
        match filter.execute(Some(&row)) {
            Err(e) => {
                return Err(DatabaseError::from_expression(&e));
            },
            Ok((value, _, _)) => {
                if is_true(value) {
                    match project(columns, &row) {
                        Err(e) => {
                            return Err(e);
                        },
                        Ok(projection) => {
                            let ghost before = rows_view(out@);
                            let ghost item = values_view(projection@);
                            out.push(projection);
                            proof {
                                assert(rows_view(out@) =~= before.push(item));
                                match selected(es, cs, filter@, i + 1) {
                                    Ok(rest) => {
                                        assert(before + (seq![item] + rest) =~= rows_view(out@)
                                            + rest);
                                    },
                                    Err(_) => {},
                                }
                            }
                        },
                    }
                }
            },
        }
        i = i + 1;
    }
    proof {
        assert(rows_view(out@) + Seq::<Seq<Option<ValueView>>>::empty() =~= rows_view(out@));
    }
    Ok(out)
}

impl<'a> SelectStatement<'a> {
    pub fn new(
        conn: &'a Connection,
        root_page_id: PageId,
        columns: Vec<Expression>,
        filter: Expression,
        plan: QueryPlan,
    ) -> (r: Self)
        ensures
            r.conn == conn,
            r.root_page_id == root_page_id,
            r.columns == columns,
            r.filter == filter,
            r.plan == plan,
    {
        SelectStatement { conn, root_page_id, columns, filter, plan }
    }

    /// The rows of the query, in the order of the tree; see
    /// [`query_result`].
    pub fn execute(&self) -> (r: core::result::Result<Vec<Vec<Option<Value>>>, DatabaseError>)
        ensures
            match r {
                Ok(rows) => query_result(
                    self.conn.pager@,
                    self.root_page_id as int,
                    expressions_view(self.columns@),
                    self.filter@,
                ) == Ok::<Seq<Seq<Option<ValueView>>>, DatabaseError>(rows_view(rows@)),
                Err(e) => query_result(
                    self.conn.pager@,
                    self.root_page_id as int,
                    expressions_view(self.columns@),
                    self.filter@,
                ) == Err::<Seq<Seq<Option<ValueView>>>, DatabaseError>(e),
            },
    {
        let kind: TreeKind = match open_tree(&self.conn.pager, self.root_page_id) {
            Err(e) => {
                return Err(e);
            },
            Ok(k) => k,
        };
        let entries: Vec<Entry> = match scan(&self.conn.pager, kind, self.root_page_id) {
            Err(e) => {
                return Err(e);
            },
            Ok(es) => es,
        };
        select_rows(&entries, &self.columns, &self.filter)
    }
}


/// A query of a tree whose first page the file ends before fails with an
/// input error, whatever it asks for.
pub proof fn lemma_truncated_query(
    pv: PagerView,
    root: int,
    columns: Seq<ExpressionView>,
    filter: ExpressionView,
)
    requires
        pv.wf(),
        1 <= root <= pv.n_pages,
        pv.file.len() < root * pv.pagesize,
    ensures
        query_result(pv, root, columns, filter) == Err::<
            Seq<Seq<Option<ValueView>>>,
            DatabaseError,
        >(DatabaseError::Io),
{
    lemma_truncated_root(pv, TreeKind::Table, root, 0);
}


/// Whether what a walk still hands out comes in ascending order behind the
/// key that it handed out last. A walk that fails is not held to any order.
pub open spec fn ascending_after(
    last: Option<i64>,
    r: core::result::Result<Seq<EntryView>, DatabaseError>,
) -> bool {
    match r {
        Err(_) => true,
        Ok(es) => ascending(es) && (last is Some && es.len() > 0 ==> last->0 < es[0].key),
    }
}

proof fn lemma_selected_shift(
    entries: Seq<EntryView>,
    columns: Seq<ExpressionView>,
    filter: ExpressionView,
    i: int,
)
    requires
        0 <= i,
        entries.len() > 0,
    ensures
        selected(entries, columns, filter, i + 1) == selected(entries.skip(1), columns, filter, i),
    decreases entries.len() - i,
{
    if i + 1 < entries.len() {
        assert(entries.skip(1)[i] == entries[i + 1]);
        lemma_selected_shift(entries, columns, filter, i + 1);
    }
}

/// The rows of some entries are those of the first entry, if it passes,
/// followed by those of the others.
proof fn lemma_selected_head(
    entry: EntryView,
    others: Seq<EntryView>,
    columns: Seq<ExpressionView>,
    filter: ExpressionView,
)
    ensures
        selected(seq![entry] + others, columns, filter, 0) == match decoded(entry.payload) {
            Err(e) => Err::<Seq<Seq<Option<ValueView>>>, DatabaseError>(record_failure(e)),
            Ok(values) => {
                let row = record_model(entry.key, values);
                match filter.evaluation(Some(row)) {
                    Err(e) => Err(expression_failure(e)),
                    Ok(o) => if passes(o.0) {
                        match projected(columns, row, 0) {
                            Err(e) => Err(e),
                            Ok(out) => joined(seq![out], selected(others, columns, filter, 0)),
                        }
                    } else {
                        selected(others, columns, filter, 0)
                    },
                }
            },
        },
{
    let all = seq![entry] + others;
    assert(all[0] == entry);
    assert(all.skip(1) =~= others);
    lemma_selected_shift(all, columns, filter, 0);
}

/// The rows of a query, handed out one at a time as the walk through the
/// tree reaches them.
#[derive(Debug)]
pub struct Rows<'a> {
    pub cursor: Cursor<'a>,
    pub columns: Vec<Expression>,
    pub filter: Expression,
}

impl<'a> Rows<'a> {
    pub open spec fn wf(&self) -> bool {
        self.cursor.wf()
    }

    /// The rows that are still to come: those that are selected of the
    /// entries that the walk still hands out; see [`selected`].
    pub open spec fn rest(&self) -> core::result::Result<
        Seq<Seq<Option<ValueView>>>,
        DatabaseError,
    > {
        match self.cursor.rest() {
            Err(e) => Err(e),
            Ok(es) => selected(es, expressions_view(self.columns@), self.filter@, 0),
        }
    }

    /// The next row of the query, or `None` at its end. The rows that were
    /// to come are this row followed by those that are to come now. The
    /// query fails where a row cannot be had, and where the rows of a table
    /// do not come in the order of their numbers. A query whose walk is not
    /// well formed, as none is that was begun and left alone, hands out
    /// nothing.
    pub fn next(&mut self) -> (r: core::result::Result<Option<Vec<Option<Value>>>, DatabaseError>)
        ensures
            final(self).columns == old(self).columns,
            final(self).filter == old(self).filter,
            final(self).cursor.pager == old(self).cursor.pager,
            final(self).cursor.kind == old(self).cursor.kind,
            !old(self).wf() ==> r is Err,
            old(self).wf() ==> final(self).wf() && match r {
                Ok(Some(row)) => old(self).rest() == joined(
                    seq![values_view(row@)],
                    final(self).rest(),
                ),
                Ok(None) => old(self).rest() == Ok::<Seq<Seq<Option<ValueView>>>, DatabaseError>(
                    Seq::<Seq<Option<ValueView>>>::empty(),
                ),
                Err(_) => old(self).rest() is Err || (old(self).cursor.kind == TreeKind::Table
                    && !ascending_after(old(self).cursor.last_key, old(self).cursor.rest())),
            },
    {
        loop
            invariant
                old(self).wf() ==> self.wf(),
                old(self).wf() ==> self.rest() == old(self).rest(),
                !old(self).wf() ==> !self.wf(),
                self.columns == old(self).columns,
                self.filter == old(self).filter,
                self.cursor.pager == old(self).cursor.pager,
                self.cursor.kind == old(self).cursor.kind,
                ascending_after(old(self).cursor.last_key, old(self).cursor.rest())
                    ==> ascending_after(self.cursor.last_key, self.cursor.rest()),
            decreases work(self.cursor.stack@),
        {
            let ghost before = self.cursor.rest();
            let ghost last = self.cursor.last_key;
            let ghost cs = expressions_view(self.columns@);
            let entry: Entry = match self.cursor.next() {
                Err(e) => {
                    return Err(e);
                },
                Ok(None) => {
                    return Ok(None);
                },
                Ok(Some(entry)) => entry,
            };
            let ghost after = self.cursor.rest();
            proof {
                match after {
                    Ok(tail) => {
                        lemma_selected_head(entry@, tail, cs, self.filter@);
                        let all = seq![entry@] + tail;
                        if ascending_after(last, before) {
                            assert(all[0] == entry@);
                            assert forall|i: int| 0 <= i < tail.len() - 1 implies (#[trigger] tail[i]).key
                                < tail[i + 1].key by {
                                assert(all[i + 1] == tail[i]);
                                assert(all[i + 2] == tail[i + 1]);
                            }
                            if tail.len() > 0 {
                                assert(all[1] == tail[0]);
                                assert(all[0int].key < all[0int + 1].key);
                            }
                        }
                    },
                    Err(_) => {},
                }
            }
            let values: Vec<Option<Value>> = match decode(entry.payload.as_slice()) {
                Err(e) => {
                    return Err(DatabaseError::from_record(e));
                },
                Ok(v) => v,
            };
            let row: Row = Row { rowid: entry.key, values };
            let ghost model = record_model(row.rowid, values_view(row.values@));
            proof {
                assert(row_model(Some(&row)) == Some(model)) by {
                    assert(row_model(Some(&row))->0 =~= model);
                }
            }
            match self.filter.execute(Some(&row)) {
                Err(e) => {
                    return Err(DatabaseError::from_expression(&e));
                },
                Ok((value, _, _)) => {
                    if is_true(value) {
                        match project(&self.columns, &row) {
                            Err(e) => {
                                return Err(e);
                            },
                            Ok(projection) => {
                                return Ok(Some(projection));
                            },
                        }
                    }
                },
            }
        }
    }
}

impl<'a> SelectStatement<'a> {
    /// The query at its beginning, ready to hand out its rows one at a time:
    /// a walk at the beginning of the tree, which has all of the tree before
    /// it; see [`tree_kind`] and [`tree_entries`].
    pub fn rows(self) -> (r: core::result::Result<Rows<'a>, DatabaseError>)
        ensures
            match r {
                Ok(rows) => {
                    &&& rows.wf()
                    &&& rows.columns == self.columns
                    &&& rows.filter == self.filter
                    &&& rows.cursor.pager == &self.conn.pager
                    &&& rows.cursor.last_key is None
                    &&& tree_kind(self.conn.pager@, self.root_page_id as int) == Ok::<
                        TreeKind,
                        DatabaseError,
                    >(rows.cursor.kind)
                    &&& rows.cursor.rest() == tree_entries(
                        self.conn.pager@,
                        rows.cursor.kind,
                        self.root_page_id as int,
                        MAX_DEPTH as nat,
                    )
                },
                Err(e) => tree_kind(self.conn.pager@, self.root_page_id as int) == Err::<
                    TreeKind,
                    DatabaseError,
                >(e),
            },
    {
        match Cursor::open(&self.conn.pager, self.root_page_id) {
            Err(e) => Err(e),
            Ok(cursor) => Ok(Rows { cursor, columns: self.columns, filter: self.filter }),
        }
    }
}

} // verus!
