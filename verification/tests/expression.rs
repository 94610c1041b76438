use nexusdb::interpreter::binary64::Real;
use nexusdb::interpreter::collate::Collation;
use nexusdb::interpreter::expression::CollateOrigin;
use nexusdb::interpreter::expression::DataContext;
use nexusdb::interpreter::expression::Error;
use nexusdb::interpreter::expression::Expression;
use nexusdb::interpreter::parser::BinaryOp;
use nexusdb::interpreter::parser::CompareOp;
use nexusdb::interpreter::parser::Expr;
use nexusdb::interpreter::parser::UnaryOp;
use nexusdb::interpreter::query::Row;
use nexusdb::interpreter::schema::Column;
use nexusdb::interpreter::schema::ColumnNumber;
use nexusdb::interpreter::schema::Table;
use nexusdb::interpreter::value::ConstantValue;
use nexusdb::interpreter::value::TypeAffinity;
use nexusdb::interpreter::value::Value;

fn text(s: &str) -> Value {
    Value::Text(s.as_bytes().to_vec())
}

fn number(f: f64) -> Value {
    Value::Real(Real::from_bits(f.to_bits()))
}

fn constant(v: Value) -> Expression {
    Expression::Const(match v {
        Value::Integer(i) => ConstantValue::Integer(i),
        Value::Real(r) => ConstantValue::Real(r),
        Value::Text(t) => ConstantValue::Text(t),
        Value::Blob(b) => ConstantValue::Blob(b),
    })
}

fn compare(op: CompareOp, left: Expression, right: Expression) -> Expression {
    Expression::BinaryOperator {
        operator: BinaryOp::Compare(op),
        left: Box::new(left),
        right: Box::new(right),
    }
}

fn concat(left: Expression, right: Expression) -> Expression {
    Expression::BinaryOperator {
        operator: BinaryOp::Concat,
        left: Box::new(left),
        right: Box::new(right),
    }
}

fn collate(expr: Expression, collation: Collation) -> Expression {
    Expression::Collate { expr: Box::new(expr), collation }
}

fn cast(expr: Expression, type_affinity: TypeAffinity) -> Expression {
    Expression::Cast { expr: Box::new(expr), type_affinity }
}

fn column(i: usize, affinity: TypeAffinity, collation: Collation) -> Expression {
    Expression::Column((ColumnNumber::Column(i), affinity, collation))
}

fn value_of(e: &Expression) -> Option<Value> {
    e.execute::<Row>(None).unwrap().0
}

fn value_in(e: &Expression, row: &Row) -> Option<Value> {
    e.execute(Some(row)).unwrap().0
}

fn row(values: Vec<Option<Value>>) -> Row {
    Row { rowid: 7, values }
}

#[test]
fn nocase_is_equal_and_binary_is_not() {
    let nocase = compare(
        CompareOp::Eq,
        collate(constant(text("ABC")), Collation::NoCase),
        constant(text("abc")),
    );
    assert_eq!(value_of(&nocase), Some(Value::Integer(1)));
    let binary = compare(CompareOp::Eq, constant(text("ABC")), constant(text("abc")));
    assert_eq!(value_of(&binary), Some(Value::Integer(0)));
    let rtrim = compare(
        CompareOp::Eq,
        constant(text("abc  ")),
        collate(constant(text("abc")), Collation::RTrim),
    );
    assert_eq!(value_of(&rtrim), Some(Value::Integer(1)));
}

#[test]
fn text_is_compared_as_a_number_against_an_integer_column() {
    let r = row(vec![Some(text("5")), Some(Value::Integer(5))]);
    let with_affinity = compare(
        CompareOp::Eq,
        constant(text("5")),
        column(1, TypeAffinity::Integer, Collation::Binary),
    );
    assert_eq!(value_in(&with_affinity, &r), Some(Value::Integer(1)));
    let other_side = compare(
        CompareOp::Eq,
        column(1, TypeAffinity::Integer, Collation::Binary),
        constant(text("5.0abc")),
    );
    assert_eq!(value_in(&other_side, &r), Some(Value::Integer(1)));
    let without = compare(CompareOp::Eq, constant(text("5")), constant(Value::Integer(5)));
    assert_eq!(value_of(&without), Some(Value::Integer(0)));
    let text_column = compare(
        CompareOp::Eq,
        column(0, TypeAffinity::Text, Collation::Binary),
        constant(Value::Integer(5)),
    );
    assert_eq!(value_in(&text_column, &r), Some(Value::Integer(1)));
}

#[test]
fn null_goes_through_binary_operators() {
    for op in [CompareOp::Eq, CompareOp::Ne, CompareOp::Lt, CompareOp::Le, CompareOp::Gt, CompareOp::Ge] {
        let left = compare(op, Expression::Null, constant(Value::Integer(1)));
        assert_eq!(left.execute::<Row>(None).unwrap(), (None, None, None));
        let right = compare(op, constant(text("a")), Expression::Null);
        assert_eq!(right.execute::<Row>(None).unwrap(), (None, None, None));
    }
    let both = compare(CompareOp::Eq, Expression::Null, Expression::Null);
    assert_eq!(both.execute::<Row>(None).unwrap(), (None, None, None));
    let joined = concat(collate(constant(text("a")), Collation::NoCase), Expression::Null);
    assert_eq!(joined.execute::<Row>(None).unwrap(), (None, None, None));
}

#[test]
fn concatenation_joins_the_texts_of_both_sides() {
    assert_eq!(value_of(&concat(constant(text("a")), constant(text("b")))), Some(text("ab")));
    assert_eq!(
        value_of(&concat(constant(Value::Integer(1)), constant(Value::Integer(2)))),
        Some(text("12"))
    );
    assert_eq!(
        value_of(&concat(constant(number(1.5)), constant(Value::Blob(vec![0x78, 0x79])))),
        Some(text("1.5xy"))
    );
    assert_eq!(
        value_of(&concat(constant(Value::Integer(-3)), constant(number(100.0)))),
        Some(text("-3100.0"))
    );
}

#[test]
fn comparison_operators_give_one_or_zero() {
    let cases = [
        (CompareOp::Eq, 1, 2, 0),
        (CompareOp::Ne, 1, 2, 1),
        (CompareOp::Lt, 1, 2, 1),
        (CompareOp::Le, 2, 2, 1),
        (CompareOp::Gt, 1, 2, 0),
        (CompareOp::Ge, 1, 2, 0),
        (CompareOp::Ge, 2, 2, 1),
        (CompareOp::Lt, 2, 2, 0),
    ];
    for (op, a, b, expected) in cases {
        let e = compare(op, constant(Value::Integer(a)), constant(Value::Integer(b)));
        assert_eq!(e.execute::<Row>(None).unwrap(), (Some(Value::Integer(expected)), None, None));
    }
    let mixed = compare(CompareOp::Lt, constant(Value::Integer(1)), constant(number(1.5)));
    assert_eq!(value_of(&mixed), Some(Value::Integer(1)));
    let classes = compare(CompareOp::Lt, constant(text("")), constant(Value::Blob(vec![])));
    assert_eq!(value_of(&classes), Some(Value::Integer(1)));
    let number_first = compare(CompareOp::Lt, constant(number(1e300)), constant(text("0")));
    assert_eq!(value_of(&number_first), Some(Value::Integer(1)));
}

#[test]
fn unary_operators() {
    let not = |v: Value| {
        value_of(&Expression::UnaryOperator { operator: UnaryOp::BitNot, expr: Box::new(constant(v)) })
    };
    let minus = |v: Value| {
        value_of(&Expression::UnaryOperator { operator: UnaryOp::Minus, expr: Box::new(constant(v)) })
    };
    assert_eq!(not(Value::Integer(0)), Some(Value::Integer(-1)));
    assert_eq!(not(Value::Integer(5)), Some(Value::Integer(-6)));
    assert_eq!(not(Value::Integer(i64::MIN)), Some(Value::Integer(i64::MAX)));
    assert_eq!(not(number(2.9)), Some(Value::Integer(-3)));
    assert_eq!(not(text("12abc")), Some(Value::Integer(-13)));
    assert_eq!(minus(Value::Integer(5)), Some(Value::Integer(-5)));
    assert_eq!(minus(Value::Integer(i64::MIN)), Some(Value::Integer(i64::MIN)));
    assert_eq!(minus(number(1.5)), Some(number(-1.5)));
    assert_eq!(minus(text("12")), Some(Value::Integer(0)));
    assert_eq!(minus(Value::Blob(vec![1])), Some(Value::Integer(0)));
    let null = Expression::UnaryOperator { operator: UnaryOp::Minus, expr: Box::new(Expression::Null) };
    assert_eq!(null.execute::<Row>(None).unwrap(), (None, None, None));
}

#[test]
fn casts_force_the_storage_class() {
    let to = |v: Value, a: TypeAffinity| cast(constant(v), a).execute::<Row>(None).unwrap();
    assert_eq!(
        to(text("12.9abc"), TypeAffinity::Integer),
        (Some(Value::Integer(12)), Some(TypeAffinity::Integer), None)
    );
    assert_eq!(to(text("abc"), TypeAffinity::Integer).0, Some(Value::Integer(0)));
    assert_eq!(to(number(-2.9), TypeAffinity::Integer).0, Some(Value::Integer(-2)));
    assert_eq!(to(text("abc"), TypeAffinity::Real).0, Some(number(0.0)));
    assert_eq!(to(text("1.25e2x"), TypeAffinity::Real).0, Some(number(125.0)));
    assert_eq!(to(Value::Integer(3), TypeAffinity::Real).0, Some(number(3.0)));
    assert_eq!(to(Value::Integer(-45), TypeAffinity::Text).0, Some(text("-45")));
    assert_eq!(to(number(0.5), TypeAffinity::Text).0, Some(text("0.5")));
    assert_eq!(to(Value::Blob(vec![0x61]), TypeAffinity::Text).0, Some(text("a")));
    assert_eq!(to(text("ab"), TypeAffinity::Blob).0, Some(Value::Blob(vec![0x61, 0x62])));
    assert_eq!(to(Value::Integer(12), TypeAffinity::Blob).0, Some(Value::Blob(vec![0x31, 0x32])));
    assert_eq!(to(text("12"), TypeAffinity::Numeric).0, Some(Value::Integer(12)));
    assert_eq!(to(text("12.0"), TypeAffinity::Numeric).0, Some(Value::Integer(12)));
    assert_eq!(to(text("12.5"), TypeAffinity::Numeric).0, Some(number(12.5)));
    assert_eq!(to(text("x"), TypeAffinity::Numeric).0, Some(Value::Integer(0)));
    assert_eq!(to(number(1e300), TypeAffinity::Numeric).0, Some(number(1e300)));
    assert_eq!(to(number(-7.0), TypeAffinity::Numeric).0, Some(Value::Integer(-7)));
    let null = cast(Expression::Null, TypeAffinity::Text);
    assert_eq!(null.execute::<Row>(None).unwrap(), (None, Some(TypeAffinity::Text), None));
}

#[test]
fn collation_of_an_expression_goes_before_that_of_a_column() {
    let r = row(vec![Some(text("ABC")), Some(text("abc"))]);
    let columns_only = compare(
        CompareOp::Eq,
        column(0, TypeAffinity::Text, Collation::Binary),
        column(1, TypeAffinity::Text, Collation::NoCase),
    );
    assert_eq!(
        columns_only.execute(Some(&r)).unwrap(),
        (Some(Value::Integer(0)), None, None)
    );
    let left_column_wins = compare(
        CompareOp::Eq,
        column(0, TypeAffinity::Text, Collation::NoCase),
        column(1, TypeAffinity::Text, Collation::Binary),
    );
    assert_eq!(value_in(&left_column_wins, &r), Some(Value::Integer(1)));
    let expression_right = compare(
        CompareOp::Eq,
        column(0, TypeAffinity::Text, Collation::Binary),
        collate(column(1, TypeAffinity::Text, Collation::Binary), Collation::NoCase),
    );
    assert_eq!(
        expression_right.execute(Some(&r)).unwrap(),
        (Some(Value::Integer(1)), None, Some((Collation::NoCase, CollateOrigin::Expression)))
    );
    let left_expression_wins = compare(
        CompareOp::Eq,
        collate(column(0, TypeAffinity::Text, Collation::Binary), Collation::Binary),
        collate(column(1, TypeAffinity::Text, Collation::Binary), Collation::NoCase),
    );
    assert_eq!(
        left_expression_wins.execute(Some(&r)).unwrap(),
        (Some(Value::Integer(0)), None, Some((Collation::Binary, CollateOrigin::Expression)))
    );
}

#[test]
fn column_reads_the_row() {
    let r = row(vec![Some(text("x")), None]);
    let first = column(0, TypeAffinity::Text, Collation::RTrim);
    assert_eq!(
        first.execute(Some(&r)).unwrap(),
        (Some(text("x")), Some(TypeAffinity::Text), Some((Collation::RTrim, CollateOrigin::Column)))
    );
    let second = column(1, TypeAffinity::Blob, Collation::Binary);
    assert_eq!(value_in(&second, &r), None);
    let beyond = column(9, TypeAffinity::Blob, Collation::Binary);
    assert_eq!(value_in(&beyond, &r), None);
    let key = Expression::Column((ColumnNumber::RowId, TypeAffinity::Integer, Collation::Binary));
    assert_eq!(value_in(&key, &r), Some(Value::Integer(7)));
    assert!(matches!(first.execute::<Row>(None), Err(Error::NoTableContext)));
    let kept = collate(column(0, TypeAffinity::Text, Collation::RTrim), Collation::NoCase);
    assert_eq!(
        kept.execute(Some(&r)).unwrap(),
        (
            Some(text("x")),
            Some(TypeAffinity::Text),
            Some((Collation::NoCase, CollateOrigin::Expression))
        )
    );
}

struct Failing;

impl DataContext for Failing {
    fn get_column_value(&self, _column_idx: &ColumnNumber) -> Result<Option<Value>, String> {
        Err("broken".to_string())
    }
}

#[test]
fn a_failing_row_fails_the_evaluation() {
    let e = compare(
        CompareOp::Eq,
        constant(Value::Integer(1)),
        column(0, TypeAffinity::Integer, Collation::Binary),
    );
    match e.execute(Some(&Failing)) {
        Err(err) => {
            assert!(matches!(&err, Error::FailGetColumn(m) if m == "broken"));
            assert_eq!(err.message(), "fail to get column: broken");
        }
        Ok(_) => panic!("the row cannot be read"),
    }
    assert_eq!(Error::CollationNotFound.message(), "collation not found");
    assert_eq!(Error::ColumnNotFound.message(), "column not found");
    assert_eq!(Error::NoTableContext.message(), "no table context");
}

fn table() -> Table {
    Table {
        root_page_id: 2,
        columns: vec![
            Column {
                name: b"id".to_vec(),
                type_affinity: TypeAffinity::Integer,
                primary_key: true,
                collation: Collation::Binary,
            },
            Column {
                name: b"Name".to_vec(),
                type_affinity: TypeAffinity::Text,
                primary_key: false,
                collation: Collation::NoCase,
            },
        ],
    }
}

#[test]
fn from_binds_names_and_literals() {
    let t = table();
    let e = Expression::from(Expr::Column(b"\"name\"".to_vec()), Some(&t)).unwrap();
    assert!(matches!(
        e,
        Expression::Column((ColumnNumber::Column(1), TypeAffinity::Text, Collation::NoCase))
    ));
    let id = Expression::from(Expr::Column(b"ID".to_vec()), Some(&t)).unwrap();
    assert!(matches!(
        id,
        Expression::Column((ColumnNumber::RowId, TypeAffinity::Integer, Collation::Binary))
    ));
    let rowid = Expression::from(Expr::Column(b"rowid".to_vec()), Some(&t)).unwrap();
    assert!(matches!(rowid, Expression::Column((ColumnNumber::RowId, _, _))));
    assert!(matches!(
        Expression::from(Expr::Column(b"age".to_vec()), Some(&t)),
        Err(Error::ColumnNotFound)
    ));
    assert!(matches!(
        Expression::from(Expr::Column(b"id".to_vec()), None),
        Err(Error::NoTableContext)
    ));
    let quoted = Expression::from(Expr::Text(b"'it''s'".to_vec()), None).unwrap();
    assert_eq!(value_of(&quoted), Some(text("it's")));
    let blob = Expression::from(Expr::Blob(b"00fFa1".to_vec()), None).unwrap();
    assert_eq!(value_of(&blob), Some(Value::Blob(vec![0x00, 0xff, 0xa1])));
    let null = Expression::from(Expr::Null, None).unwrap();
    assert_eq!(value_of(&null), None);
    let real = Expression::from(Expr::Real(Real::from_bits(2.5f64.to_bits())), None).unwrap();
    assert_eq!(value_of(&real), Some(number(2.5)));
    assert_eq!(value_of(&Expression::one()), Some(Value::Integer(1)));
}

#[test]
fn from_binds_operators() {
    let collated = Expr::Collate {
        expr: Box::new(Expr::Text(b"'A'".to_vec())),
        collation_name: b"NoCase".to_vec(),
    };
    let e = Expression::from(
        Expr::BinaryOperator {
            operator: BinaryOp::Compare(CompareOp::Eq),
            left: Box::new(collated),
            right: Box::new(Expr::Text(b"'a'".to_vec())),
        },
        None,
    )
    .unwrap();
    assert_eq!(
        e.execute::<Row>(None).unwrap(),
        (Some(Value::Integer(1)), None, Some((Collation::NoCase, CollateOrigin::Expression)))
    );
    let unknown = Expr::Collate {
        expr: Box::new(Expr::Integer(1)),
        collation_name: b"german".to_vec(),
    };
    assert!(matches!(Expression::from(unknown, None), Err(Error::CollationNotFound)));
    let inner_first = Expr::Collate {
        expr: Box::new(Expr::Column(b"x".to_vec())),
        collation_name: b"german".to_vec(),
    };
    assert!(matches!(Expression::from(inner_first, None), Err(Error::NoTableContext)));
    let casted = Expression::from(
        Expr::Cast { expr: Box::new(Expr::Text(b"'42x'".to_vec())), declared_type: b"BIGINT".to_vec() },
        None,
    )
    .unwrap();
    assert_eq!(
        casted.execute::<Row>(None).unwrap(),
        (Some(Value::Integer(42)), Some(TypeAffinity::Integer), None)
    );
    let negated = Expression::from(
        Expr::UnaryOperator { operator: UnaryOp::Minus, expr: Box::new(Expr::Integer(4)) },
        None,
    )
    .unwrap();
    assert_eq!(value_of(&negated), Some(Value::Integer(-4)));
}
