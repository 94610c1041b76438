use vstd::prelude::*;
use vstd::string::StringExecFns;

use crate::interpreter::binary64::{Real, SIGN_BIT};
use crate::interpreter::collate::{compare_values, value_order, Collation, DEFAULT_COLLATION};
use crate::interpreter::parser::{
    decode_hex, dequote, dequoted, hex_decoded, BinaryOp, CompareOp, Expr, UnaryOp,
};
use crate::interpreter::schema::{
    calc_collation, calc_type_affinity, collation_named, declared_affinity, ColumnInfo,
    ColumnNumber, Table,
};
use crate::interpreter::value::{
    copy_bytes, nullable_view, ConstantValue, TypeAffinity, Value, ValueView,
};

verus! {

/// Why an expression could not be built or evaluated.
#[derive(Debug)]
pub enum Error {
    /// The expression names a collation that does not exist.
    CollationNotFound,
    /// The expression names a column that its table does not have.
    ColumnNotFound,
    /// The expression reads a column, and there is no table or no row to
    /// read it from.
    NoTableContext,
    /// The row could not hand out the value of a column; the text says why.
    FailGetColumn(String),
}

/// What an [`Error`] holds.
pub enum ErrorView {
    CollationNotFound,
    ColumnNotFound,
    NoTableContext,
    FailGetColumn(Seq<char>),
}

impl View for Error {
    type V = ErrorView;

    open spec fn view(&self) -> ErrorView {
        match self {
            Error::CollationNotFound => ErrorView::CollationNotFound,
            Error::ColumnNotFound => ErrorView::ColumnNotFound,
            Error::NoTableContext => ErrorView::NoTableContext,
            Error::FailGetColumn(e) => ErrorView::FailGetColumn(e@),
        }
    }
}

impl Error {
    /// The error in words.
    pub open spec fn description(self) -> Seq<char> {
        match self {
            Error::CollationNotFound => "collation not found"@,
            Error::ColumnNotFound => "column not found"@,
            Error::NoTableContext => "no table context"@,
            Error::FailGetColumn(e) => "fail to get column: "@ + e@,
        }
    }

    /// The error in words.
    pub fn message(&self) -> (r: String)
        ensures
            r@ == self.description(),
    {
        match self {
            Error::CollationNotFound => String::from_str("collation not found"),
            Error::ColumnNotFound => String::from_str("column not found"),
            Error::NoTableContext => String::from_str("no table context"),
            Error::FailGetColumn(e) => String::from_str("fail to get column: ").concat(e.as_str()),
        }
    }
}

/// Where the collation of an expression comes from.
#[derive(Debug, PartialEq, Eq, Clone, Copy, Structural)]
pub enum CollateOrigin {
    /// From the declaration of the column that the expression reads.
    Column,
    /// From a `COLLATE` in the expression itself.
    Expression,
}

/// A collation together with its origin.
pub type Collated = (Collation, CollateOrigin);

/// What evaluating an expression yields: the value, NULL being `None`; the
/// affinity of the expression, if it has one; its collation, if it has one.
pub type Execution = (Option<Value>, Option<TypeAffinity>, Option<Collated>);

/// What an [`Execution`] holds.
pub type Outcome = (Option<ValueView>, Option<TypeAffinity>, Option<Collated>);

/// A collation that the expression itself names is kept; one that comes from
/// a column is dropped.
pub open spec fn expression_collation(collation: Option<Collated>) -> Option<Collated> {
    match collation {
        Some((_, CollateOrigin::Expression)) => collation,
        _ => None,
    }
}

fn filter_expression_collation(collation: Option<Collated>) -> (r: Option<Collated>)
    ensures
        r == expression_collation(collation),
{
    match collation {
        Some((_, CollateOrigin::Expression)) => collation,
        _ => None,
    }
}

/// A row as the evaluation of a column sees it: it hands out the value at a
/// column.
pub trait DataContext {
    /// What the row holds at a column, NULL being `None`; or why the value
    /// cannot be had. A row that does not say what it holds is taken to
    /// hold something, which it hands out each time it is asked.
    open spec fn column_value(&self, column_idx: ColumnNumber) -> core::result::Result<
        Option<ValueView>,
        Seq<char>,
    > {
        arbitrary()
    }

    fn get_column_value(&self, column_idx: &ColumnNumber) -> (r: core::result::Result<
        Option<Value>,
        String,
    >)
        ensures
            fetched_view(r) == self.column_value(*column_idx),
    ;
}

/// What a row holds at each column: the model of a row for evaluation.
pub type RowModel = Map<ColumnNumber, core::result::Result<Option<ValueView>, Seq<char>>>;

/// The model of a row, if there is a row.
pub open spec fn row_model<D: DataContext>(row: Option<&D>) -> Option<RowModel> {
    match row {
        Some(r) => Some(Map::total(|c: ColumnNumber| r.column_value(c))),
        None => None,
    }
}

/// What a fetched value holds.
pub open spec fn fetched_view(r: core::result::Result<Option<Value>, String>) -> core::result::Result<
    Option<ValueView>,
    Seq<char>,
> {
    match r {
        Ok(v) => Ok(nullable_view(v)),
        Err(e) => Err(e@),
    }
}

/// An expression bound to the columns of a table, ready to be evaluated row
/// by row.
#[derive(Debug)]
pub enum Expression {
    Column(ColumnInfo),
    UnaryOperator { operator: UnaryOp, expr: Box<Expression> },
    Collate { expr: Box<Expression>, collation: Collation },
    BinaryOperator { operator: BinaryOp, left: Box<Expression>, right: Box<Expression> },
    Cast { expr: Box<Expression>, type_affinity: TypeAffinity },
    Null,
    Const(ConstantValue),
}

/// What an [`Expression`] holds.
pub enum ExpressionView {
    Column(ColumnInfo),
    UnaryOperator { operator: UnaryOp, expr: Box<ExpressionView> },
    Collate { expr: Box<ExpressionView>, collation: Collation },
    BinaryOperator { operator: BinaryOp, left: Box<ExpressionView>, right: Box<ExpressionView> },
    Cast { expr: Box<ExpressionView>, type_affinity: TypeAffinity },
    Null,
    Const(ValueView),
}

/// What an expression holds.
pub open spec fn expression_view(e: Expression) -> ExpressionView
    decreases e,
{
    match e {
        Expression::Column(info) => ExpressionView::Column(info),
        Expression::UnaryOperator { operator, expr } => ExpressionView::UnaryOperator {
            operator,
            expr: Box::new(expression_view(*expr)),
        },
        Expression::Collate { expr, collation } => ExpressionView::Collate {
            expr: Box::new(expression_view(*expr)),
            collation,
        },
        Expression::BinaryOperator { operator, left, right } => ExpressionView::BinaryOperator {
            operator,
            left: Box::new(expression_view(*left)),
            right: Box::new(expression_view(*right)),
        },
        Expression::Cast { expr, type_affinity } => ExpressionView::Cast {
            expr: Box::new(expression_view(*expr)),
            type_affinity,
        },
        Expression::Null => ExpressionView::Null,
        Expression::Const(value) => ExpressionView::Const(value@),
    }
}

impl View for Expression {
    type V = ExpressionView;

    open spec fn view(&self) -> ExpressionView {
        expression_view(*self)
    }
}

/// The bit complement of a value: the complement of the integer that the
/// value counts as.
pub open spec fn complemented(v: ValueView) -> ValueView {
    ValueView::Integer((-v.integer_value() - 1) as i64)
}

/// The negation of a value. The least integer, which has no negative, stays
/// what it is. A text or a blob is not read as a number: its negation is the
/// integer zero.
pub open spec fn negated(v: ValueView) -> ValueView {
    match v {
        ValueView::Integer(i) => ValueView::Integer(
            if i == i64::MIN {
                i
            } else {
                (-i) as i64
            },
        ),
        ValueView::Real(d) => ValueView::Real(
            Real {
                bits: if d.bits >= SIGN_BIT {
                    (d.bits - SIGN_BIT) as u64
                } else {
                    (d.bits + SIGN_BIT) as u64
                },
            },
        ),
        ValueView::Text(_) | ValueView::Blob(_) => ValueView::Integer(0),
    }
}

/// The collation of a comparison or concatenation, from those of its two
/// sides. One that an expression names goes before one that comes from a
/// column; between two of one origin, the left goes before the right.
pub open spec fn resolved_collation(left: Option<Collated>, right: Option<Collated>) -> Option<
    Collated,
> {
    match (left, right) {
        (None, _) => right,
        (Some((_, CollateOrigin::Column)), Some((_, CollateOrigin::Expression))) => right,
        _ => left,
    }
}

/// Whether an affinity is one of numbers.
pub open spec fn numeric_like(affinity: Option<TypeAffinity>) -> bool {
    affinity == Some(TypeAffinity::Integer) || affinity == Some(TypeAffinity::Real) || affinity
        == Some(TypeAffinity::Numeric)
}

/// The two sides of a comparison after the conversions that their
/// affinities ask for. Where one side has an affinity of numbers and the
/// other has not, the other is converted towards a number. Where one side
/// has the affinity of text and the other has none, the other is converted
/// towards text. Elsewhere both stay what they are.
pub open spec fn converted(
    left: ValueView,
    left_affinity: Option<TypeAffinity>,
    right: ValueView,
    right_affinity: Option<TypeAffinity>,
) -> (ValueView, ValueView) {
    if numeric_like(left_affinity) && !numeric_like(right_affinity) {
        (left, right.with_numeric_affinity())
    } else if !numeric_like(left_affinity) && numeric_like(right_affinity) {
        (left.with_numeric_affinity(), right)
    } else if left_affinity == Some(TypeAffinity::Text) && right_affinity is None {
        (left, right.with_text_affinity())
    } else if left_affinity is None && right_affinity == Some(TypeAffinity::Text) {
        (left.with_text_affinity(), right)
    } else {
        (left, right)
    }
}

/// Whether a comparison holds of two values in the given order.
pub open spec fn holds(operator: CompareOp, order: int) -> bool {
    match operator {
        CompareOp::Eq => order == 0,
        CompareOp::Ne => order != 0,
        CompareOp::Lt => order < 0,
        CompareOp::Le => order <= 0,
        CompareOp::Gt => order > 0,
        CompareOp::Ge => order >= 0,
    }
}

/// The collation that a comparison uses.
pub open spec fn comparing_collation(collation: Option<Collated>) -> Collation {
    match collation {
        Some((c, _)) => c,
        None => DEFAULT_COLLATION,
    }
}

/// What a binary operator yields of the outcomes of its two sides. With
/// NULL on either side it yields NULL, without affinity or collation. A
/// comparison yields the integer 1 where it holds and 0 where it does not; a
/// concatenation yields the text of the left side followed by that of the
/// right. Neither has an affinity; each keeps the collation of its sides
/// only where an expression names it.
pub open spec fn combined(operator: BinaryOp, left: Outcome, right: Outcome) -> Outcome {
    match (left.0, right.0) {
        (Some(l), Some(r)) => {
            let collation = resolved_collation(left.2, right.2);
            match operator {
                BinaryOp::Compare(op) => {
                    let (a, b) = converted(l, left.1, r, right.1);
                    let order = value_order(a, b, comparing_collation(collation));
                    (
                        Some(
                            ValueView::Integer(
                                if holds(op, order) {
                                    1
                                } else {
                                    0
                                },
                            ),
                        ),
                        None,
                        expression_collation(collation),
                    )
                },
                BinaryOp::Concat => (
                    Some(ValueView::Text(l.text_bytes() + r.text_bytes())),
                    None,
                    expression_collation(collation),
                ),
            }
        },
        _ => (None, None, None),
    }
}

impl ExpressionView {
    /// What the expression yields for a row.
    ///
    /// A column yields what the row holds there, with the affinity and the
    /// collation of the column; without a row it fails. A unary operator
    /// keeps NULL and has no affinity. `COLLATE` replaces the collation and
    /// keeps value and affinity. A cast forces the value into its storage
    /// class, which becomes the affinity. A failure of the left side of a
    /// binary operator goes before one of the right.
    pub open spec fn evaluation(self, row: Option<RowModel>) -> core::result::Result<
        Outcome,
        ErrorView,
    >
        decreases self,
    {
        match self {
            ExpressionView::Column((idx, affinity, collation)) => match row {
                Some(row) => match row[idx] {
                    Ok(v) => Ok((v, Some(affinity), Some((collation, CollateOrigin::Column)))),
                    Err(e) => Err(ErrorView::FailGetColumn(e)),
                },
                None => Err(ErrorView::NoTableContext),
            },
            ExpressionView::UnaryOperator { operator, expr } => match expr.evaluation(row) {
                Ok((value, _, collation)) => Ok(
                    (
                        match (value, operator) {
                            (None, _) => None,
                            (Some(v), UnaryOp::BitNot) => Some(complemented(v)),
                            (Some(v), UnaryOp::Minus) => Some(negated(v)),
                        },
                        None,
                        expression_collation(collation),
                    ),
                ),
                Err(e) => Err(e),
            },
            ExpressionView::Collate { expr, collation } => match expr.evaluation(row) {
                Ok((value, affinity, _)) => Ok(
                    (value, affinity, Some((collation, CollateOrigin::Expression))),
                ),
                Err(e) => Err(e),
            },
            ExpressionView::BinaryOperator { operator, left, right } => match left.evaluation(
                row,
            ) {
                Ok(l) => match right.evaluation(row) {
                    Ok(r) => Ok(combined(operator, l, r)),
                    Err(e) => Err(e),
                },
                Err(e) => Err(e),
            },
            ExpressionView::Cast { expr, type_affinity } => match expr.evaluation(row) {
                Ok((value, _, collation)) => Ok(
                    (
                        match value {
                            Some(v) => Some(v.cast(type_affinity)),
                            None => None,
                        },
                        Some(type_affinity),
                        expression_collation(collation),
                    ),
                ),
                Err(e) => Err(e),
            },
            ExpressionView::Null => Ok((None, None, None)),
            ExpressionView::Const(value) => Ok((Some(value), None, None)),
        }
    }
}

/// What the result of an evaluation holds.
pub open spec fn execution_view(r: core::result::Result<Execution, Error>) -> core::result::Result<
    Outcome,
    ErrorView,
> {
    match r {
        Ok((value, affinity, collation)) => Ok((nullable_view(value), affinity, collation)),
        Err(e) => Err(e@),
    }
}


/// The expression that a parsed expression becomes when its names are bound
/// to the columns of `table`.
///
/// A literal becomes a constant: a text without its quotes, a blob as the
/// bytes that its digits write. A column is looked up in the table by its
/// name without quotes; without a table the binding fails, and so it does
/// for a name that the table does not have. `COLLATE` must name a collation;
/// a cast takes the affinity of its declared type. A failure in an operand
/// goes before one of the operator itself, and one in the left operand
/// before one in the right.
pub open spec fn compiled(expr: Expr, table: Option<&Table>) -> core::result::Result<
    ExpressionView,
    ErrorView,
>
    decreases expr,
{
    match expr {
        Expr::Null => Ok(ExpressionView::Null),
        Expr::Integer(i) => Ok(ExpressionView::Const(ValueView::Integer(i))),
        Expr::Real(f) => Ok(ExpressionView::Const(ValueView::Real(f))),
        Expr::Text(text) => Ok(ExpressionView::Const(ValueView::Text(dequoted(text@)))),
        Expr::Blob(hex) => Ok(ExpressionView::Const(ValueView::Blob(hex_decoded(hex@)))),
        Expr::UnaryOperator { operator, expr } => match compiled(*expr, table) {
            Ok(e) => Ok(ExpressionView::UnaryOperator { operator, expr: Box::new(e) }),
            Err(e) => Err(e),
        },
        Expr::Collate { expr, collation_name } => match compiled(*expr, table) {
            Ok(e) => match collation_named(dequoted(collation_name@)) {
                Some(collation) => Ok(ExpressionView::Collate { expr: Box::new(e), collation }),
                None => Err(ErrorView::CollationNotFound),
            },
            Err(e) => Err(e),
        },
        Expr::BinaryOperator { operator, left, right } => match compiled(*left, table) {
            Ok(l) => match compiled(*right, table) {
                Ok(r) => Ok(
                    ExpressionView::BinaryOperator {
                        operator,
                        left: Box::new(l),
                        right: Box::new(r),
                    },
                ),
                Err(e) => Err(e),
            },
            Err(e) => Err(e),
        },
        Expr::Column(name) => match table {
            Some(t) => match t.column_named(dequoted(name@)) {
                Some(info) => Ok(ExpressionView::Column(info)),
                None => Err(ErrorView::ColumnNotFound),
            },
            None => Err(ErrorView::NoTableContext),
        },
        Expr::Cast { expr, declared_type } => match compiled(*expr, table) {
            Ok(e) => Ok(
                ExpressionView::Cast {
                    expr: Box::new(e),
                    type_affinity: declared_affinity(declared_type@),
                },
            ),
            Err(e) => Err(e),
        },
    }
}

/// What the result of a binding holds.
pub open spec fn binding_view(r: core::result::Result<Expression, Error>) -> core::result::Result<
    ExpressionView,
    ErrorView,
> {
    match r {
        Ok(e) => Ok(e@),
        Err(e) => Err(e@),
    }
}

fn complement(v: &Value) -> (r: Value)
    ensures
        r@ == complemented(v@),
{
    Value::Integer(-1 - v.as_integer())
}

fn negate(v: Value) -> (r: Value)
    ensures
        r@ == negated(v@),
{
    match v {
        Value::Integer(i) => Value::Integer(
            if i == i64::MIN {
                i
            } else {
                -i
            },
        ),
        Value::Real(d) => {
            let n = d.negate();
            assert(n.bits == if d.bits >= SIGN_BIT {
                d.bits - SIGN_BIT
            } else {
                d.bits + SIGN_BIT
            });
            Value::Real(n)
        },
        Value::Text(_) => Value::Integer(0),
        Value::Blob(_) => Value::Integer(0),
    }
}

fn is_numeric_like(affinity: &Option<TypeAffinity>) -> (r: bool)
    ensures
        r == numeric_like(*affinity),
{
    match affinity {
        Some(TypeAffinity::Integer) => true,
        Some(TypeAffinity::Real) => true,
        Some(TypeAffinity::Numeric) => true,
        _ => false,
    }
}

fn is_text(affinity: &Option<TypeAffinity>) -> (r: bool)
    ensures
        r == (*affinity == Some(TypeAffinity::Text)),
{
    match affinity {
        Some(TypeAffinity::Text) => true,
        _ => false,
    }
}

fn resolve_collation(left: Option<Collated>, right: Option<Collated>) -> (r: Option<Collated>)
    ensures
        r == resolved_collation(left, right),
{
    match (left, right) {
        (None, _) => right,
        (Some((_, CollateOrigin::Column)), Some((_, CollateOrigin::Expression))) => right,
        _ => left,
    }
}

/// What a binary operator yields of the outcomes of its two sides; see
/// [`combined`].
pub fn combine(operator: BinaryOp, left: Execution, right: Execution) -> (r: Execution)
    ensures
        (nullable_view(r.0), r.1, r.2) == combined(
            operator,
            (nullable_view(left.0), left.1, left.2),
            (nullable_view(right.0), right.1, right.2),
        ),
{
    let (left_value, left_affinity, left_collation) = left;
    let (right_value, right_affinity, right_collation) = right;
    let (mut left_value, mut right_value) = match (left_value, right_value) {
        (Some(l), Some(r)) => (l, r),
        _ => {
            return (None, None, None);
        },
    };
    let collation = resolve_collation(left_collation, right_collation);
    let next_collation = filter_expression_collation(collation);
    match operator {
        BinaryOp::Compare(compare_op) => {
            let left_numeric = is_numeric_like(&left_affinity);
            let right_numeric = is_numeric_like(&right_affinity);
            if left_numeric && !right_numeric {
                right_value = right_value.apply_numeric_affinity();
            } else if !left_numeric && right_numeric {
                left_value = left_value.apply_numeric_affinity();
            } else if is_text(&left_affinity) && right_affinity.is_none() {
                right_value = right_value.apply_text_affinity();
            } else if left_affinity.is_none() && is_text(&right_affinity) {
                left_value = left_value.apply_text_affinity();
            }
            let used: Collation = match collation {
                Some((c, _)) => c,
                None => DEFAULT_COLLATION,
            };
            let order: i8 = compare_values(&left_value, &right_value, used);
            let result: bool = match compare_op {
                CompareOp::Eq => order == 0,
                CompareOp::Ne => order != 0,
                CompareOp::Lt => order < 0,
                CompareOp::Le => order <= 0,
                CompareOp::Gt => order > 0,
                CompareOp::Ge => order >= 0,
            };
            if result {
                (Some(Value::Integer(1)), None, next_collation)
            } else {
                (Some(Value::Integer(0)), None, next_collation)
            }
        },
        BinaryOp::Concat => {
            let mut buffer: Vec<u8> = left_value.force_text_buffer();
            let right_buffer: Vec<u8> = right_value.force_text_buffer();
            let ghost before = buffer@;
            buffer.extend_from_slice(right_buffer.as_slice());
            assert(buffer@ =~= before + right_buffer@);
            (Some(Value::Text(buffer)), None, next_collation)
        },
    }
}

impl Clone for Expression {
    fn clone(&self) -> (r: Self)
        ensures
            r@ == self@,
        decreases self,
    {
        match self {
            Expression::Column(info) => Expression::Column(*info),
            Expression::UnaryOperator { operator, expr } => Expression::UnaryOperator {
                operator: *operator,
                expr: Box::new((**expr).clone()),
            },
            Expression::Collate { expr, collation } => Expression::Collate {
                expr: Box::new((**expr).clone()),
                collation: *collation,
            },
            Expression::BinaryOperator { operator, left, right } => Expression::BinaryOperator {
                operator: *operator,
                left: Box::new((**left).clone()),
                right: Box::new((**right).clone()),
            },
            Expression::Cast { expr, type_affinity } => Expression::Cast {
                expr: Box::new((**expr).clone()),
                type_affinity: *type_affinity,
            },
            Expression::Null => Expression::Null,
            Expression::Const(value) => Expression::Const(
                match value {
                    ConstantValue::Integer(i) => ConstantValue::Integer(*i),
                    ConstantValue::Real(r) => ConstantValue::Real(*r),
                    ConstantValue::Text(t) => ConstantValue::Text(
                        copy_bytes(t),
                    ),
                    ConstantValue::Blob(b) => ConstantValue::Blob(
                        copy_bytes(b),
                    ),
                },
            ),
        }
    }
}

impl Expression {
    /// The constant one: the filter that lets every row pass.
    #[inline]
    pub fn one() -> (r: Self)
        ensures
            r@ == ExpressionView::Const(ValueView::Integer(1)),
    {
        Expression::Const(ConstantValue::Integer(1))
    }

    /// Binds a parsed expression to the columns of `table`; see
    /// [`compiled`].
    pub fn from(expr: Expr, table: Option<&Table>) -> (r: core::result::Result<Self, Error>)
        ensures
            binding_view(r) == compiled(expr, table),
        decreases expr,
    {
        match expr {
            Expr::Null => Ok(Expression::Null),
            Expr::Integer(i) => Ok(Expression::Const(ConstantValue::Integer(i))),
            Expr::Real(f) => Ok(Expression::Const(ConstantValue::Real(f))),
            Expr::Text(text) => Ok(
                Expression::Const(ConstantValue::Text(dequote(text.as_slice()))),
            ),
            Expr::Blob(hex) => Ok(
                Expression::Const(ConstantValue::Blob(decode_hex(hex.as_slice()))),
            ),
            Expr::UnaryOperator { operator, expr } => match Self::from(*expr, table) {
                Ok(e) => Ok(Expression::UnaryOperator { operator, expr: Box::new(e) }),
                Err(e) => Err(e),
            },
            Expr::Collate { expr, collation_name } => match Self::from(*expr, table) {
                Ok(e) => {
                    let name: Vec<u8> = dequote(collation_name.as_slice());
                    match calc_collation(name.as_slice()) {
                        Some(collation) => Ok(
                            Expression::Collate { expr: Box::new(e), collation },
                        ),
                        None => Err(Error::CollationNotFound),
                    }
                },
                Err(e) => Err(e),
            },
            Expr::BinaryOperator { operator, left, right } => match Self::from(*left, table) {
                Ok(l) => match Self::from(*right, table) {
                    Ok(r) => Ok(
                        Expression::BinaryOperator {
                            operator,
                            left: Box::new(l),
                            right: Box::new(r),
                        },
                    ),
                    Err(e) => Err(e),
                },
                Err(e) => Err(e),
            },
            Expr::Column(column_name) => {
                if let Some(table) = table {
                    let column_name: Vec<u8> = dequote(column_name.as_slice());
                    match table.get_column(column_name.as_slice()) {
                        Some(info) => Ok(Expression::Column(info)),
                        None => Err(Error::ColumnNotFound),
                    }
                } else {
                    Err(Error::NoTableContext)
                }
            },
            Expr::Cast { expr, declared_type } => match Self::from(*expr, table) {
                Ok(e) => Ok(
                    Expression::Cast {
                        expr: Box::new(e),
                        type_affinity: calc_type_affinity(declared_type.as_slice()),
                    },
                ),
                Err(e) => Err(e),
            },
        }
    }

    /// Evaluates the expression for a row; see
    /// [`ExpressionView::evaluation`].
    pub fn execute<D: DataContext>(&self, row: Option<&D>) -> (r: core::result::Result<
        Execution,
        Error,
    >)
        ensures
            execution_view(r) == self@.evaluation(row_model(row)),
        decreases self,
    {
        match self {
            Expression::Column((idx, affinity, collation)) => {
                if let Some(row) = row {
                    match row.get_column_value(idx) {
                        Ok(value) => Ok(
                            (value, Some(*affinity), Some((*collation, CollateOrigin::Column))),
                        ),
                        Err(e) => Err(Error::FailGetColumn(e)),
                    }
                } else {
                    Err(Error::NoTableContext)
                }
            },
            Expression::UnaryOperator { operator, expr } => {
                match expr.execute(row) {
                    Ok((value, _, collation)) => {
                        let value: Option<Value> = match value {
                            None => None,
                            Some(v) => match operator {
                                UnaryOp::BitNot => Some(complement(&v)),
                                UnaryOp::Minus => Some(negate(v)),
                            },
                        };
                        Ok((value, None, filter_expression_collation(collation)))
                    },
                    Err(e) => Err(e),
                }
            },
            Expression::Collate { expr, collation } => {
                match expr.execute(row) {
                    Ok((value, affinity, _)) => Ok(
                        (value, affinity, Some((*collation, CollateOrigin::Expression))),
                    ),
                    Err(e) => Err(e),
                }
            },
            Expression::BinaryOperator { operator, left, right } => {
                match left.execute(row) {
                    Ok(l) => match right.execute(row) {
                        Ok(r) => Ok(combine(*operator, l, r)),
                        Err(e) => Err(e),
                    },
                    Err(e) => Err(e),
                }
            },
            Expression::Cast { expr, type_affinity } => {
                match expr.execute(row) {
                    Ok((value, _, collation)) => {
                        let value: Option<Value> = match value {
                            Some(v) => Some(v.force_apply_type_affinity(*type_affinity)),
                            None => None,
                        };
                        Ok((value, Some(*type_affinity), filter_expression_collation(collation)))
                    },
                    Err(e) => Err(e),
                }
            },
            Expression::Null => Ok((None, None, None)),
            Expression::Const(value) => Ok((Some(value.as_value()), None, None)),
        }
    }
}


/// NULL goes through every binary operator: where both sides of a
/// comparison or a concatenation can be evaluated and either of them yields
/// NULL, the operator yields NULL, neither true nor false, and without
/// affinity or collation.
pub proof fn lemma_null_propagates(
    operator: BinaryOp,
    left: ExpressionView,
    right: ExpressionView,
    row: Option<RowModel>,
)
    requires
        left.evaluation(row) is Ok,
        right.evaluation(row) is Ok,
        left.evaluation(row)->Ok_0.0 is None || right.evaluation(row)->Ok_0.0 is None,
    ensures
        (ExpressionView::BinaryOperator {
            operator,
            left: Box::new(left),
            right: Box::new(right),
        }).evaluation(row) == Ok::<Outcome, ErrorView>((None, None, None)),
{
}

} // verus!
