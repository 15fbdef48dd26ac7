//! Comparison and logical operators.

use vstd::prelude::*;

use super::sort::{compare_field_values, fields_equal, same_value, value_order};
use crate::note::value::{FieldValue, ValueView};
use crate::number::Order;
use crate::text::{ascii_lowered, same_ignoring_ascii_case, same_text};

verus! {

/// A comparison operator.
#[derive(Copy, Clone, Debug, PartialEq, Eq, Structural)]
pub enum CompareOp {
    /// `==`
    Eq,
    /// `!=`
    Ne,
    /// `<`
    Lt,
    /// `<=`
    Le,
    /// `>`
    Gt,
    /// `>=`
    Ge,
}

/// `field` stands to `literal` as `op` says. `==` and `!=` compare any two
/// values; the others hold only of values that can be ordered.
pub open spec fn op_holds(op: CompareOp, field: ValueView, literal: ValueView) -> bool {
    match op {
        CompareOp::Eq => same_value(field, literal),
        CompareOp::Ne => !same_value(field, literal),
        CompareOp::Lt => value_order(field, literal) == Some(Order::Less),
        CompareOp::Gt => value_order(field, literal) == Some(Order::Greater),
        CompareOp::Le => value_order(field, literal) == Some(Order::Less) || value_order(
            field,
            literal,
        ) == Some(Order::Equal),
        CompareOp::Ge => value_order(field, literal) == Some(Order::Greater) || value_order(
            field,
            literal,
        ) == Some(Order::Equal),
    }
}

/// The operator that `spelling` stands for.
pub open spec fn compare_op(spelling: Seq<char>) -> Option<CompareOp> {
    if spelling == "=="@ {
        Some(CompareOp::Eq)
    } else if spelling == "!="@ {
        Some(CompareOp::Ne)
    } else if spelling == ">="@ {
        Some(CompareOp::Ge)
    } else if spelling == "<="@ {
        Some(CompareOp::Le)
    } else if spelling == ">"@ {
        Some(CompareOp::Gt)
    } else if spelling == "<"@ {
        Some(CompareOp::Lt)
    } else {
        None
    }
}

impl CompareOp {
    /// Whether `field` stands to `literal` as this operator says.
    pub fn is_satisfied_by(self, field: &FieldValue, literal: &FieldValue) -> (holds: bool)
        ensures
            holds == op_holds(self, field.contents(), literal.contents()),
    {
        match self {
            CompareOp::Eq => fields_equal(field, literal),
            CompareOp::Ne => !fields_equal(field, literal),
            CompareOp::Lt => matches!(compare_field_values(field, literal), Some(Order::Less)),
            CompareOp::Gt => matches!(compare_field_values(field, literal), Some(Order::Greater)),
            CompareOp::Le => matches!(
                compare_field_values(field, literal),
                Some(Order::Less | Order::Equal)
            ),
            CompareOp::Ge => matches!(
                compare_field_values(field, literal),
                Some(Order::Greater | Order::Equal)
            ),
        }
    }

    /// The operator that `spelling` stands for.
    pub fn try_from(spelling: &str) -> (result: Result<Self, ()>)
        ensures
            match result {
                Ok(op) => compare_op(spelling@) == Some(op),
                Err(_) => compare_op(spelling@) is None,
            },
    {
        if same_text(spelling, "==") {
            Ok(CompareOp::Eq)
        } else if same_text(spelling, "!=") {
            Ok(CompareOp::Ne)
        } else if same_text(spelling, ">=") {
            Ok(CompareOp::Ge)
        } else if same_text(spelling, "<=") {
            Ok(CompareOp::Le)
        } else if same_text(spelling, ">") {
            Ok(CompareOp::Gt)
        } else if same_text(spelling, "<") {
            Ok(CompareOp::Lt)
        } else {
            Err(())
        }
    }
}

/// A logical operator of two or more expressions.
#[derive(Copy, Clone, Debug, PartialEq, Eq, Structural)]
pub enum LogicalOp {
    /// `AND`, `and` or `&&`
    And,
    /// `OR`, `or` or `||`
    Or,
}

/// The operator that `spelling` stands for.
pub open spec fn logical_op(spelling: Seq<char>) -> Option<LogicalOp> {
    if spelling == "&&"@ || ascii_lowered(spelling) == ascii_lowered("and"@) {
        Some(LogicalOp::And)
    } else if spelling == "||"@ || ascii_lowered(spelling) == ascii_lowered("or"@) {
        Some(LogicalOp::Or)
    } else {
        None
    }
}

impl LogicalOp {
    /// The operator that `spelling` stands for.
    pub fn try_from(spelling: &str) -> (result: Result<Self, ()>)
        ensures
            match result {
                Ok(op) => logical_op(spelling@) == Some(op),
                Err(_) => logical_op(spelling@) is None,
            },
    {
        if same_text(spelling, "&&") || same_ignoring_ascii_case(spelling, "and") {
            Ok(LogicalOp::And)
        } else if same_text(spelling, "||") || same_ignoring_ascii_case(spelling, "or") {
            Ok(LogicalOp::Or)
        } else {
            Err(())
        }
    }
}

/// A missing field satisfies `!=` against any literal but null, and no other
/// operator.
pub proof fn law_null_satisfies_only_not_equal(op: CompareOp, literal: ValueView)
    requires
        literal != ValueView::Null,
    ensures
        op_holds(op, ValueView::Null, literal) == (op == CompareOp::Ne),
{
}

/// Values that cannot be ordered satisfy none of the ordering operators.
pub proof fn law_unordered_satisfies_no_ordering(op: CompareOp, field: ValueView, literal: ValueView)
    requires
        value_order(field, literal) is None,
        op != CompareOp::Eq,
        op != CompareOp::Ne,
    ensures
        !op_holds(op, field, literal),
{
}

/// `==` and `!=` are opposites on all values.
pub proof fn law_equal_or_not(field: ValueView, literal: ValueView)
    ensures
        op_holds(CompareOp::Eq, field, literal) != op_holds(CompareOp::Ne, field, literal),
{
}

} // verus!
