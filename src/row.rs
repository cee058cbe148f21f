//! Rows of datums, their order under a list of column orders, and filters.

use vstd::prelude::*;
use std::cmp::Ordering;

verus! {

/// A typed scalar value.
#[derive(Clone, Copy, Debug, PartialEq, Eq, Structural)]
pub enum Datum {
    Null,
    False,
    True,
    Int64(i64),
}

/// A row: a sequence of datums.
pub type Row = Vec<Datum>;

/// Position of a datum's variant in the order of datums.
pub open spec fn datum_rank(d: Datum) -> int {
    match d {
        Datum::Null => 0,
        Datum::False => 1,
        Datum::True => 2,
        Datum::Int64(_) => 3,
    }
}

/// Datums order by variant first, integers by value.
pub open spec fn datum_cmp(a: Datum, b: Datum) -> Ordering {
    if datum_rank(a) < datum_rank(b) {
        Ordering::Less
    } else if datum_rank(a) > datum_rank(b) {
        Ordering::Greater
    } else {
        match (a, b) {
            (Datum::Int64(x), Datum::Int64(y)) => if x < y {
                Ordering::Less
            } else if x == y {
                Ordering::Equal
            } else {
                Ordering::Greater
            },
            _ => Ordering::Equal,
        }
    }
}

/// The datum in column `col` of `row`; a column past the end reads as `Null`.
pub open spec fn datum_at(row: Seq<Datum>, col: int) -> Datum {
    if 0 <= col < row.len() {
        row[col]
    } else {
        Datum::Null
    }
}

pub open spec fn reversed(o: Ordering) -> Ordering {
    match o {
        Ordering::Less => Ordering::Greater,
        Ordering::Equal => Ordering::Equal,
        Ordering::Greater => Ordering::Less,
    }
}

/// One key of an ordering: a column, ascending or descending.
#[derive(Clone, Copy, Debug, PartialEq, Eq, Structural)]
pub struct ColumnOrder {
    pub column: usize,
    pub desc: bool,
}

/// Comparison of two rows under one column order.
pub open spec fn column_cmp(o: ColumnOrder, a: Seq<Datum>, b: Seq<Datum>) -> Ordering {
    let c = datum_cmp(datum_at(a, o.column as int), datum_at(b, o.column as int));
    if o.desc {
        reversed(c)
    } else {
        c
    }
}

/// Lexicographic comparison of two rows under a list of column orders: the
/// first column order that tells them apart decides.
pub open spec fn columns_cmp(order: Seq<ColumnOrder>, a: Seq<Datum>, b: Seq<Datum>) -> Ordering
    decreases order.len(),
{
    if order.len() == 0 {
        Ordering::Equal
    } else if column_cmp(order[0], a, b) != Ordering::Equal {
        column_cmp(order[0], a, b)
    } else {
        columns_cmp(order.drop_first(), a, b)
    }
}

/// Swapping the rows reverses their comparison.
pub proof fn lemma_columns_cmp_antisymmetric(order: Seq<ColumnOrder>, a: Seq<Datum>, b: Seq<Datum>)
    ensures
        columns_cmp(order, b, a) == reversed(columns_cmp(order, a, b)),
    decreases order.len(),
{
    if order.len() > 0 {
        lemma_columns_cmp_antisymmetric(order.drop_first(), a, b);
    }
}

/// "Not greater" under a list of column orders is transitive.
pub proof fn lemma_columns_le_transitive(
    order: Seq<ColumnOrder>,
    a: Seq<Datum>,
    b: Seq<Datum>,
    c: Seq<Datum>,
)
    requires
        columns_cmp(order, a, b) != Ordering::Greater,
        columns_cmp(order, b, c) != Ordering::Greater,
    ensures
        columns_cmp(order, a, c) != Ordering::Greater,
    decreases order.len(),
{
    if order.len() > 0 {
        if column_cmp(order[0], a, b) == Ordering::Equal && column_cmp(order[0], b, c)
            == Ordering::Equal {
            lemma_columns_le_transitive(order.drop_first(), a, b, c);
        }
    }
}

/// The datum in column `col` of `row`, `Null` past the end.
pub fn get_datum(row: &Row, col: usize) -> (d: Datum)
    ensures
        d == datum_at(row@, col as int),
{
    if col < row.len() {
        row[col]
    } else {
        Datum::Null
    }
}

fn rank(d: Datum) -> (r: u8)
    ensures
        r as int == datum_rank(d),
{
    match d {
        Datum::Null => 0,
        Datum::False => 1,
        Datum::True => 2,
        Datum::Int64(_) => 3,
    }
}

/// Compares two datums.
pub fn compare_datums(a: Datum, b: Datum) -> (r: Ordering)
    ensures
        r == datum_cmp(a, b),
{
    let ra = rank(a);
    let rb = rank(b);
    if ra < rb {
        Ordering::Less
    } else if ra > rb {
        Ordering::Greater
    } else {
        match (a, b) {
            (Datum::Int64(x), Datum::Int64(y)) => if x < y {
                Ordering::Less
            } else if x == y {
                Ordering::Equal
            } else {
                Ordering::Greater
            },
            _ => Ordering::Equal,
        }
    }
}

/// Compares two rows under a list of column orders.
pub fn compare_columns(order: &Vec<ColumnOrder>, left: &Row, right: &Row) -> (r: Ordering)
    ensures
        r == columns_cmp(order@, left@, right@),
{
    let mut i: usize = 0;
    assert(order@.subrange(0, order@.len() as int) =~= order@);
    while i < order.len()
        invariant
            i <= order@.len(),
            columns_cmp(order@, left@, right@) == columns_cmp(
                order@.subrange(i as int, order@.len() as int),
                left@,
                right@,
            ),
        decreases order@.len() - i,
    {
        let o = order[i];
        let c = compare_datums(get_datum(left, o.column), get_datum(right, o.column));
        let c = if o.desc {
            match c {
                Ordering::Less => Ordering::Greater,
                Ordering::Equal => Ordering::Equal,
                Ordering::Greater => Ordering::Less,
            }
        } else {
            c
        };
        assert(order@.subrange(i as int, order@.len() as int).drop_first() =~= order@.subrange(
            i + 1,
            order@.len() as int,
        ));
        if !matches!(c, Ordering::Equal) {
            return c;
        }
        i = i + 1;
    }
    assert(order@.subrange(i as int, order@.len() as int) =~= Seq::<ColumnOrder>::empty());
    Ordering::Equal
}

/// How a predicate compares a column with a literal.
#[derive(Clone, Copy, Debug, PartialEq, Eq, Structural)]
pub enum CompareOp {
    Eq,
    NotEq,
    Lt,
    Le,
    Gt,
    Ge,
}

/// A filter predicate: `row[column] op literal`.
#[derive(Clone, Copy, Debug, PartialEq, Eq, Structural)]
pub struct Predicate {
    pub column: usize,
    pub op: CompareOp,
    pub literal: Datum,
}

pub open spec fn predicate_holds(p: Predicate, row: Seq<Datum>) -> bool {
    let c = datum_cmp(datum_at(row, p.column as int), p.literal);
    match p.op {
        CompareOp::Eq => c == Ordering::Equal,
        CompareOp::NotEq => c != Ordering::Equal,
        CompareOp::Lt => c == Ordering::Less,
        CompareOp::Le => c != Ordering::Greater,
        CompareOp::Gt => c == Ordering::Greater,
        CompareOp::Ge => c != Ordering::Less,
    }
}

/// Every predicate of `filter` holds of `row`.
pub open spec fn filter_holds(filter: Seq<Predicate>, row: Seq<Datum>) -> bool {
    forall|i: int| 0 <= i < filter.len() ==> predicate_holds(#[trigger] filter[i], row)
}

/// Evaluates one predicate on a row.
pub fn eval_predicate(p: &Predicate, row: &Row) -> (r: bool)
    ensures
        r == predicate_holds(*p, row@),
{
    let c = compare_datums(get_datum(row, p.column), p.literal);
    match p.op {
        CompareOp::Eq => matches!(c, Ordering::Equal),
        CompareOp::NotEq => !matches!(c, Ordering::Equal),
        CompareOp::Lt => matches!(c, Ordering::Less),
        CompareOp::Le => !matches!(c, Ordering::Greater),
        CompareOp::Gt => matches!(c, Ordering::Greater),
        CompareOp::Ge => !matches!(c, Ordering::Less),
    }
}

/// Whether every predicate of `filter` holds of `row`.
pub fn passes_filter(filter: &Vec<Predicate>, row: &Row) -> (r: bool)
    ensures
        r == filter_holds(filter@, row@),
{
    let mut i: usize = 0;
    while i < filter.len()
        invariant
            i <= filter@.len(),
            forall|k: int| 0 <= k < i ==> predicate_holds(#[trigger] filter@[k], row@),
        decreases filter@.len() - i,
    {
        if !eval_predicate(&filter[i], row) {
            return false;
        }
        i = i + 1;
    }
    true
}

/// A copy of a row, datum for datum.
pub fn copy_row(row: &Row) -> (r: Row)
    ensures
        r@ == row@,
{
    let mut r: Row = Vec::new();
    let mut i: usize = 0;
    while i < row.len()
        invariant
            i <= row@.len(),
            r@ == row@.subrange(0, i as int),
        decreases row@.len() - i,
    {
        r.push(row[i]);
        i = i + 1;
    }
    assert(r@ =~= row@);
    r
}

} // verus!
