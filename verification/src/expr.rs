//! Expression trees and the operators that occur in them.

use vstd::prelude::*;
use xo65::expr::{OpBinary, OpUnary};

verus! {

/// The unary operators of `xo65::expr::OpUnary`, declared with their
/// variants, which carry no data.
#[verifier::external_type_specification]
pub struct ExOpUnary(OpUnary);

/// The binary operators of `xo65::expr::OpBinary`, declared with their
/// variants, which carry no data.
#[verifier::external_type_specification]
pub struct ExOpBinary(OpBinary);

/// An expression over literals, imported symbols and section addresses.
#[derive(Debug)]
pub enum Expr {
    /// An empty node. It has no value.
    Null,
    /// A number.
    Literal { value: i64 },
    /// The value of an import of the object that holds the expression.
    Symbol { import_idx: u32 },
    /// The start address of a section of the object that holds the expression.
    Section { section_idx: u32 },
    /// An operator applied to the value of one expression.
    Unary(OpUnary, Box<Expr>),
    /// An operator applied to the values of two expressions, the left one
    /// evaluated first.
    Binary(OpBinary, Box<Expr>, Box<Expr>),
}

/// What `OpUnary::apply` returns for an operator and its operand.
pub uninterp spec fn unary_value(op: OpUnary, x: i64) -> i64;

/// What `OpBinary::apply` returns for an operator and its operands.
pub uninterp spec fn binary_value(op: OpBinary, lhs: i64, rhs: i64) -> i64;

/// The operator has a value for every operand.
pub open spec fn unary_defined(op: OpUnary) -> bool {
    op != OpUnary::Bank
}

/// The operator has a value for these operands.
pub open spec fn binary_defined(op: OpBinary, rhs: i64) -> bool {
    (op == OpBinary::Div || op == OpBinary::Rem) ==> rhs != 0
}

/// `OpUnary::apply`. The call panics for the operator `Bank` alone, which is
/// left out. The result is the one named by [`unary_value`].
#[verifier::external_body]
pub(crate) fn apply_unary(op: OpUnary, x: i64) -> (r: i64)
    requires
        unary_defined(op),
    ensures
        r == unary_value(op, x),
{
    op.apply(x)
}

/// `OpBinary::apply`. The call panics for a division or a remainder by zero
/// alone, which are left out. The result is the one named by [`binary_value`].
#[verifier::external_body]
pub(crate) fn apply_binary(op: OpBinary, lhs: i64, rhs: i64) -> (r: i64)
    requires
        binary_defined(op, rhs),
    ensures
        r == binary_value(op, lhs, rhs),
{
    op.apply(lhs, rhs)
}

/// Tells whether a unary operator has a value.
pub fn unary_is_defined(op: OpUnary) -> (r: bool)
    ensures
        r == unary_defined(op),
{
    match op {
        OpUnary::Bank => false,
        _ => true,
    }
}

/// Tells whether a binary operator has a value for the right operand `rhs`.
pub fn binary_is_defined(op: OpBinary, rhs: i64) -> (r: bool)
    ensures
        r == binary_defined(op, rhs),
{
    match op {
        OpBinary::Div => rhs != 0,
        OpBinary::Rem => rhs != 0,
        _ => true,
    }
}

} // verus!
