//! The parts of a JSONPath.

use std::borrow::Cow;
use std::cmp::Ordering;
use vstd::prelude::*;
use vstd::utf8::encode_utf8;

use crate::number::number_order;
use crate::number::Number;

verus! {

/// A whole JSONPath.
#[derive(Debug)]
pub struct JsonPath<'a> {
    /// The parts of the path, from left to right.
    pub paths: Vec<Path<'a>>,
}

/// A part of a path.
#[derive(Debug)]
pub enum Path<'a> {
    /// `$`: the whole document.
    Root,
    /// `@`: the value that a filter is looking at.
    Current,
    /// `.*`: all values of an object.
    DotWildcard,
    /// `[*]`: all values of an array.
    BracketWildcard,
    /// `:name`: the value of an object under a name.
    ColonField(Cow<'a, str>),
    /// `.name`: the value of an object under a name.
    DotField(Cow<'a, str>),
    /// `["name"]`: the value of an object under a name.
    ObjectField(Cow<'a, str>),
    /// `[0, 2, last, 3 to 5]`: values of an array by their places.
    ArrayIndices(Vec<ArrayIndex>),
    /// `?(..)`: what passes a filter.
    FilterExpr(Box<Expr<'a>>),
    /// A filter that is a path of its own.
    Predicate(Box<Expr<'a>>),
}

/// A place in an array.
#[derive(Clone, Copy, Debug)]
pub enum Index {
    /// Counted from the start.
    Index(i32),
    /// Counted from the last value, which is zero.
    LastIndex(i32),
}

/// A selection of places in an array.
#[derive(Clone, Copy, Debug)]
pub enum ArrayIndex {
    /// A single place.
    Index(Index),
    /// All places from the first to the second, both included.
    Slice((Index, Index)),
}

/// An operator between two expressions.
#[derive(Clone, Copy, Debug, PartialEq, Eq)]
pub enum BinaryOperator {
    /// `&&`
    And,
    /// `||`
    Or,
    /// `==`
    Eq,
    /// `!=`
    NotEq,
    /// `<`
    Lt,
    /// `<=`
    Lte,
    /// `>`
    Gt,
    /// `>=`
    Gte,
}

/// A literal in an expression.
#[derive(Debug)]
pub enum PathValue<'a> {
    /// `null`
    Null,
    /// `true` or `false`
    Boolean(bool),
    /// A number.
    Number(Number),
    /// A string.
    String(Cow<'a, str>),
}

/// An expression of a filter.
#[derive(Debug)]
pub enum Expr<'a> {
    /// The values that a path leads to.
    Paths(Vec<Path<'a>>),
    /// A literal.
    Value(Box<PathValue<'a>>),
    /// Two expressions and the operator between them.
    BinaryOp {
        /// The operator.
        op: BinaryOperator,
        /// What stands to its left.
        left: Box<Expr<'a>>,
        /// What stands to its right.
        right: Box<Expr<'a>>,
    },
    /// A call of a filter function.
    FilterFunc(FilterFunc<'a>),
}

/// A filter function.
#[derive(Debug)]
pub enum FilterFunc<'a> {
    /// `exists(..)`: whether a path leads anywhere.
    Exists(Vec<Path<'a>>),
    /// `starts with`: reserved, and never true.
    StartsWith(Cow<'a, str>),
}

/// A scalar value.
pub enum Scalar {
    /// `null`
    Null,
    /// `true` or `false`
    Boolean(bool),
    /// A number.
    Number(Number),
    /// A string.
    String(Seq<char>),
}

impl<'a> View for PathValue<'a> {
    type V = Scalar;

    open spec fn view(&self) -> Scalar {
        match *self {
            PathValue::Null => Scalar::Null,
            PathValue::Boolean(b) => Scalar::Boolean(b),
            PathValue::Number(n) => Scalar::Number(n),
            PathValue::String(s) => Scalar::String(s@),
        }
    }
}

/// The order of two byte sequences, as words in a dictionary.
pub open spec fn bytes_order(left: Seq<u8>, right: Seq<u8>) -> Ordering
    decreases left.len(),
{
    if left.len() == 0 {
        if right.len() == 0 {
            Ordering::Equal
        } else {
            Ordering::Less
        }
    } else if right.len() == 0 || left[0] > right[0] {
        Ordering::Greater
    } else if left[0] < right[0] {
        Ordering::Less
    } else {
        bytes_order(left.skip(1), right.skip(1))
    }
}

/// The order of two scalars: none between scalars of different kinds, `false`
/// before `true`, strings by the bytes of their encoding.
pub open spec fn scalar_order(left: Scalar, right: Scalar) -> Option<Ordering> {
    match (left, right) {
        (Scalar::Null, Scalar::Null) => Some(Ordering::Equal),
        (Scalar::Boolean(l), Scalar::Boolean(r)) => Some(
            if l == r {
                Ordering::Equal
            } else if r {
                Ordering::Less
            } else {
                Ordering::Greater
            },
        ),
        (Scalar::Number(l), Scalar::Number(r)) => Some(number_order(l, r)),
        (Scalar::String(l), Scalar::String(r)) => Some(
            bytes_order(encode_utf8(l), encode_utf8(r)),
        ),
        _ => None,
    }
}

/// Borrows the string in `text`.
pub(crate) fn str_of<'b>(text: &'b Cow<'_, str>) -> (s: &'b str)
    ensures
        s@ == text@,
{
    match text {
        Cow::Borrowed(s) => s,
        Cow::Owned(s) => s.as_str(),
    }
}

/// Compares two byte slices as words in a dictionary.
fn order_bytes(left: &[u8], right: &[u8]) -> (order: Ordering)
    ensures
        order == bytes_order(left@, right@),
{
    let mut i: usize = 0;
    assert(left@.skip(0) =~= left@);
    assert(right@.skip(0) =~= right@);
    while i < left.len() && i < right.len()
        invariant
            i <= left@.len(),
            i <= right@.len(),
            bytes_order(left@, right@) == bytes_order(left@.skip(i + 0), right@.skip(i + 0)),
        decreases left@.len() - i,
    {
        if left[i] < right[i] {
            return Ordering::Less;
        }
        if left[i] > right[i] {
            return Ordering::Greater;
        }
        assert(left@.skip(i + 0).skip(1) =~= left@.skip(i + 1));
        assert(right@.skip(i + 0).skip(1) =~= right@.skip(i + 1));
        i += 1;
    }
    if left.len() == right.len() {
        Ordering::Equal
    } else if left.len() < right.len() {
        Ordering::Less
    } else {
        Ordering::Greater
    }
}

impl<'a> PathValue<'a> {
    /// Compares two scalars; there is no order between different kinds.
    pub fn order(&self, other: &PathValue<'_>) -> (order: Option<Ordering>)
        ensures
            order == scalar_order(self@, other@),
    {
        match (self, other) {
            (PathValue::Null, PathValue::Null) => Some(Ordering::Equal),
            (PathValue::Boolean(l), PathValue::Boolean(r)) => Some(
                if *l == *r {
                    Ordering::Equal
                } else if *r {
                    Ordering::Less
                } else {
                    Ordering::Greater
                },
            ),
            (PathValue::Number(l), PathValue::Number(r)) => Some(l.order(r)),
            (PathValue::String(l), PathValue::String(r)) => Some(
                order_bytes(str_of(l).as_bytes(), str_of(r).as_bytes()),
            ),
            _ => None,
        }
    }
}

impl<'a> JsonPath<'a> {
    /// Whether the path is a single predicate.
    pub open spec fn predicate(self) -> bool {
        self.paths@.len() == 1 && self.paths@[0] is Predicate
    }

    /// Whether the path is a single predicate.
    pub fn is_predicate(&self) -> (res: bool)
        ensures
            res == self.predicate(),
    {
        self.paths.len() == 1 && matches!(self.paths[0], Path::Predicate(_))
    }
}

} // verus!
