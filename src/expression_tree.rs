//! Binding expressions.
use vstd::prelude::*;

verus! {

/// A reference to a property or callback `name` of the element with id
/// `element` in the component with key `component`.
pub struct NamedReference {
    pub component: u64,
    pub element: String,
    pub name: String,
}

pub enum Expression {
    Invalid,
    BoolLiteral(bool),
    NumberLiteral(i64),
    StringLiteral(String),
    PropertyReference(NamedReference),
    SignalReference(NamedReference),
    UnaryOp { sub: Box<Expression>, op: char },
    BinaryOp { lhs: Box<Expression>, rhs: Box<Expression>, op: char },
    Condition {
        condition: Box<Expression>,
        true_expr: Box<Expression>,
        false_expr: Box<Expression>,
    },
}

} // verus!
