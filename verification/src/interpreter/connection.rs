use vstd::prelude::*;

use crate::interpreter::collate::Collation;
use crate::interpreter::error::{expression_failure, joined, DatabaseError};
use crate::interpreter::expression::{compiled, expression_view, Expression, ExpressionView};
use crate::interpreter::parser::Expr;
use crate::interpreter::query::{
    expressions_view, query_result, rows_view, QueryPlan, SelectStatement,
};
use crate::interpreter::schema::{
    column_info, last_named, schema_name, schema_table_view, with_rows, ColumnInfo, ColumnNumber,
    IndexView, PageId, Schema, SchemaView, Table,
};
use crate::interpreter::value::{TypeAffinity, Value, ValueView};
use crate::interpreter::pager::{
    valid_page_size, DatabaseHeader, Pager, PagerView, DATABASE_HEADER_SIZE, MIN_USABLE_SIZE,
};

verus! {

/// An open database: the pages of its file.
#[derive(Debug)]
pub struct Connection {
    pub pager: Pager,
}

/// What opening a file yields. The file must hold its header, a hundred
/// bytes; the size of a page that the header declares must be one that the
/// format allows, and must leave at least 480 bytes of a page for use.
pub open spec fn opened(file: Seq<u8>) -> core::result::Result<PagerView, DatabaseError> {
    let header = DatabaseHeader::parsed(file);
    let pagesize = header.page_size();
    if file.len() < DATABASE_HEADER_SIZE {
        Err(DatabaseError::Io)
    } else if !valid_page_size(pagesize) || pagesize - header.reserved_field < MIN_USABLE_SIZE {
        Err(DatabaseError::Corruption)
    } else {
        Ok(
            PagerView {
                file,
                n_pages: header.n_pages_field as int,
                pagesize,
                usable_size: pagesize - header.reserved_field,
                first_freelist_trunk_page_id: if header.first_freelist_field == 0 {
                    None
                } else {
                    Some(header.first_freelist_field)
                },
                n_freelist_pages: header.n_freelist_field as int,
            },
        )
    }
}

impl Connection {
    /// Opens the database whose file holds the bytes `file`; see
    /// [`opened`].
    pub fn open(file: Vec<u8>) -> (r: core::result::Result<Connection, DatabaseError>)
        ensures
            match r {
                Ok(conn) => opened(file@) == Ok::<PagerView, DatabaseError>(conn.pager@),
                Err(e) => opened(file@) == Err::<PagerView, DatabaseError>(e),
            },
    {
        if file.len() < DATABASE_HEADER_SIZE {
            return Err(DatabaseError::Io);
        }
        let header: DatabaseHeader = DatabaseHeader::parse(file.as_slice());
        let pagesize: u32 = header.pagesize();
        let reserved: u32 = header.reserved() as u32;
        if pagesize < reserved + MIN_USABLE_SIZE {
            return Err(DatabaseError::Corruption);
        }
        match Pager::new(
            file,
            header.n_pages(),
            pagesize,
            pagesize - reserved,
            header.first_freelist_trunk_page_id(),
            header.n_freelist_pages(),
        ) {
            Ok(pager) => Ok(Connection { pager }),
            Err(e) => Err(e),
        }
    }
}


/// The expressions that read the five columns of the schema table.
pub open spec fn schema_expressions() -> Seq<ExpressionView> {
    Seq::new(
        5,
        |i: int|
            ExpressionView::Column(
                (
                    ColumnNumber::Column(i as usize),
                    if i == 3 {
                        TypeAffinity::Integer
                    } else {
                        TypeAffinity::Text
                    },
                    Collation::Binary,
                ),
            ),
    )
}

/// The schema of a database: every row of its schema table, which begins
/// at the first page, is read, and the schema made of the rows; see
/// [`query_result`] and [`with_rows`].
pub open spec fn schema_of(pv: PagerView) -> core::result::Result<SchemaView, DatabaseError> {
    match query_result(
        pv,
        1,
        schema_expressions(),
        ExpressionView::Const(ValueView::Integer(1)),
    ) {
        Err(e) => Err(e),
        Ok(rows) => with_rows(
            SchemaView {
                tables: seq![(schema_name(), schema_table_view())],
                indexes: Seq::<(Seq<u8>, IndexView)>::empty(),
            },
            rows,
            rows.len() as int,
        ),
    }
}

impl Connection {
    /// Reads the schema of the database; see [`schema_of`].
    pub fn load_schema(&self) -> (r: core::result::Result<Schema, DatabaseError>)
        ensures
            match r {
                Ok(schema) => schema_of(self.pager@) == Ok::<SchemaView, DatabaseError>(schema@),
                Err(e) => schema_of(self.pager@) == Err::<SchemaView, DatabaseError>(e),
            },
    {
        let schema_table: Table = Schema::schema_table();
        let infos: Vec<ColumnInfo> = schema_table.get_all_columns();
        let mut columns: Vec<Expression> = Vec::new();
        let mut i: usize = 0;
        proof {
            let declared = schema_table_view().columns;
            assert(schema_table@.columns.len() == 5);
            assert(schema_table.columns@.len() == 5);
            assert forall|k: int| 0 <= k < 5 implies #[trigger] infos@[k] == (
                ColumnNumber::Column(k as usize),
                if k == 3 {
                    TypeAffinity::Integer
                } else {
                    TypeAffinity::Text
                },
                Collation::Binary,
            ) by {
                assert(schema_table@.columns[k] == declared[k]);
                assert(infos@[k] == column_info(schema_table.columns@, k));
                assert(declared[0].type_affinity == TypeAffinity::Text);
                assert(declared[1].type_affinity == TypeAffinity::Text);
                assert(declared[2].type_affinity == TypeAffinity::Text);
                assert(declared[3].type_affinity == TypeAffinity::Integer);
                assert(declared[4].type_affinity == TypeAffinity::Text);
                assert(!declared[0].primary_key && !declared[1].primary_key
                    && !declared[2].primary_key && !declared[3].primary_key
                    && !declared[4].primary_key);
                assert(declared[0].collation == Collation::Binary && declared[1].collation
                    == Collation::Binary && declared[2].collation == Collation::Binary
                    && declared[3].collation == Collation::Binary && declared[4].collation
                    == Collation::Binary);
            }
        }
        while i < infos.len()
            invariant
                i <= infos@.len(),
                infos@.len() == 5,
                columns@.len() == i,
                forall|k: int|
                    0 <= k < 5 ==> #[trigger] infos@[k] == (
                        ColumnNumber::Column(k as usize),
                        if k == 3 {
                            TypeAffinity::Integer
                        } else {
                            TypeAffinity::Text
                        },
                        Collation::Binary,
                    ),
                forall|k: int|
                    0 <= k < i ==> expression_view(#[trigger] columns@[k]) == schema_expressions()[k],
            decreases infos@.len() - i,
        {
            assert(infos@[i as int].0 == ColumnNumber::Column(i));
            columns.push(Expression::Column(infos[i]));
            i = i + 1;
        }
        assert(expressions_view(columns@) =~= schema_expressions());
        let filter: Expression = Expression::one();
        let stmt = SelectStatement::new(
            self,
            schema_table.root_page_id,
            columns,
            filter,
            QueryPlan::FullScan,
        );
        Schema::generate(stmt, schema_table)
    }
}


/// The expressions that parsed expressions become when their names are
/// bound to the columns of `table`, in their order; the first that cannot be
/// bound ends it. See [`compiled`].
pub open spec fn bound(exprs: Seq<Expr>, table: Option<&Table>) -> core::result::Result<
    Seq<ExpressionView>,
    DatabaseError,
>
    decreases exprs.len(),
{
    if exprs.len() == 0 {
        Ok(Seq::<ExpressionView>::empty())
    } else {
        match compiled(exprs[0], table) {
            Err(e) => Err(expression_failure(e)),
            Ok(v) => joined(seq![v], bound(exprs.skip(1), table)),
        }
    }
}

fn bind_all(exprs: Vec<Expr>, table: Option<&Table>) -> (r: core::result::Result<
    Vec<Expression>,
    DatabaseError,
>)
    ensures
        match r {
            Ok(out) => bound(exprs@, table) == Ok::<Seq<ExpressionView>, DatabaseError>(
                expressions_view(out@),
            ),
            Err(e) => bound(exprs@, table) == Err::<Seq<ExpressionView>, DatabaseError>(e),
        },
{
    let ghost goal = bound(exprs@, table);
    let mut rest: Vec<Expr> = exprs;
    let mut out: Vec<Expression> = Vec::new();
    proof {
        assert(expressions_view(out@) =~= Seq::<ExpressionView>::empty());
        match goal {
            Ok(vs) => {
                assert(expressions_view(out@) + vs =~= vs);
            },
            Err(_) => {},
        }
    }
    while rest.len() > 0
        invariant
            goal == bound(exprs@, table),
            joined(expressions_view(out@), bound(rest@, table)) == goal,
        decreases rest@.len(),
    {
        let ghost before = expressions_view(out@);
        let ghost remaining = rest@;
        let expr: Expr = rest.remove(0);
        assert(rest@ =~= remaining.skip(1));
        match Expression::from(expr, table) {
            Err(e) => {
                return Err(DatabaseError::from_expression(&e));
            },
            Ok(bound_expr) => {
                let ghost item = bound_expr@;
                out.push(bound_expr);
                proof {
                    assert(expressions_view(out@) =~= before.push(item));
                    match bound(rest@, table) {
                        Ok(more) => {
                            assert(before + (seq![item] + more) =~= expressions_view(out@) + more);
                        },
                        Err(_) => {},
                    }
                }
            },
        }
    }
    proof {
        assert(expressions_view(out@) + Seq::<ExpressionView>::empty() =~= expressions_view(
            out@,
        ));
    }
    Ok(out)
}

/// The table or the index of a name in a schema: the table, if there is
/// one of the name, and the page at which its tree begins; else the page at
/// which the tree of the index of the name begins; `None` where the name is
/// neither.
pub open spec fn target_of(schema: &Schema, name: Seq<u8>) -> Option<(Option<&Table>, PageId)> {
    let table = last_named(schema@.tables, name, schema@.tables.len() as int);
    let index = last_named(schema@.indexes, name, schema@.indexes.len() as int);
    if table is Some {
        Some((Some(&schema.tables@[table->0].1), schema.tables@[table->0].1.root_page_id))
    } else if index is Some {
        Some((None, schema.indexes@[index->0].1.root_page_id))
    } else {
        None
    }
}

/// The query that a query by name comes to: the page at which the tree of
/// the table or the index begins, and the expressions bound to the columns
/// of the table, or to no columns for an index: first those of the result,
/// then the filter. A name that is neither a table nor an index is not
/// found.
pub open spec fn prepared(schema: &Schema, name: Seq<u8>, columns: Seq<Expr>, filter: Expr) -> core::result::Result<
    (PageId, Seq<ExpressionView>, ExpressionView),
    DatabaseError,
> {
    match target_of(schema, name) {
        None => Err(DatabaseError::NotFound),
        Some((target, root)) => match bound(columns, target) {
            Err(e) => Err(e),
            Ok(cs) => match compiled(filter, target) {
                Err(e) => Err(expression_failure(e)),
                Ok(f) => Ok((root, cs, f)),
            },
        },
    }
}

/// What a query by name yields: the query is prepared (see [`prepared`])
/// and the tree of the table or the index queried (see [`query_result`]).
pub open spec fn select_result(
    pv: PagerView,
    schema: &Schema,
    name: Seq<u8>,
    columns: Seq<Expr>,
    filter: Expr,
) -> core::result::Result<Seq<Seq<Option<ValueView>>>, DatabaseError> {
    match prepared(schema, name, columns, filter) {
        Err(e) => Err(e),
        Ok((root, cs, f)) => query_result(pv, root as int, cs, f),
    }
}

impl Connection {
    /// Prepares the query of the table or the index of a name; see
    /// [`prepared`].
    pub fn prepare<'a>(
        &'a self,
        schema: &Schema,
        name: &[u8],
        columns: Vec<Expr>,
        filter: Expr,
    ) -> (r: core::result::Result<SelectStatement<'a>, DatabaseError>)
        ensures
            match r {
                Ok(stmt) => stmt.conn == self && prepared(schema, name@, columns@, filter) == Ok::<
                    (PageId, Seq<ExpressionView>, ExpressionView),
                    DatabaseError,
                >((stmt.root_page_id, expressions_view(stmt.columns@), stmt.filter@)),
                Err(e) => prepared(schema, name@, columns@, filter) == Err::<
                    (PageId, Seq<ExpressionView>, ExpressionView),
                    DatabaseError,
                >(e),
            },
    {
        let (target, root): (Option<&Table>, PageId) = match schema.get_table(name) {
            Some(t) => (Some(t), t.root_page_id),
            None => match schema.get_index(name) {
                Some(ix) => (None, ix.root_page_id),
                None => {
                    return Err(DatabaseError::NotFound);
                },
            },
        };
        let bound_columns: Vec<Expression> = match bind_all(columns, target) {
            Err(e) => {
                return Err(e);
            },
            Ok(cs) => cs,
        };
        let bound_filter: Expression = match Expression::from(filter, target) {
            Err(e) => {
                return Err(DatabaseError::from_expression(&e));
            },
            Ok(f) => f,
        };
        Ok(SelectStatement::new(self, root, bound_columns, bound_filter, QueryPlan::FullScan))
    }

    /// The rows of the table or the index of a name that pass the filter,
    /// each as the values of the expressions; see [`select_result`].
    pub fn select(&self, schema: &Schema, name: &[u8], columns: Vec<Expr>, filter: Expr) -> (r:
        core::result::Result<Vec<Vec<Option<Value>>>, DatabaseError>)
        ensures
            match r {
                Ok(rows) => select_result(self.pager@, schema, name@, columns@, filter) == Ok::<
                    Seq<Seq<Option<ValueView>>>,
                    DatabaseError,
                >(rows_view(rows@)),
                Err(e) => select_result(self.pager@, schema, name@, columns@, filter) == Err::<
                    Seq<Seq<Option<ValueView>>>,
                    DatabaseError,
                >(e),
            },
    {
        match self.prepare(schema, name, columns, filter) {
            Err(e) => Err(e),
            Ok(stmt) => stmt.execute(),
        }
    }
}

} // verus!
