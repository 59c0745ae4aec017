//! The inequality operators a join predicate may use, and the options
//! record that selects one for each of the two predicates.

use vstd::prelude::*;

verus! {

/// One of the four inequality comparisons a join predicate may use.
#[derive(Clone, Copy, Debug, PartialEq, Eq, Structural)]
pub enum InequalityOperator {
    Lt,
    LtEq,
    Gt,
    GtEq,
}

/// What `a op b` means for a single inequality operator.
pub open spec fn op_holds(op: InequalityOperator, a: int, b: int) -> bool {
    match op {
        InequalityOperator::Lt => a < b,
        InequalityOperator::LtEq => a <= b,
        InequalityOperator::Gt => a > b,
        InequalityOperator::GtEq => a >= b,
    }
}

/// Strict operators are `<` and `>`.
pub open spec fn is_strict_op(op: InequalityOperator) -> bool {
    op == InequalityOperator::Lt || op == InequalityOperator::Gt
}

/// The mirrored operator: `a op b` holds exactly when `b mirror(op) a` does.
pub open spec fn mirror_op(op: InequalityOperator) -> InequalityOperator {
    match op {
        InequalityOperator::Lt => InequalityOperator::Gt,
        InequalityOperator::LtEq => InequalityOperator::GtEq,
        InequalityOperator::Gt => InequalityOperator::Lt,
        InequalityOperator::GtEq => InequalityOperator::LtEq,
    }
}

impl InequalityOperator {
    /// Whether the operator rejects equal values.
    pub fn is_strict(&self) -> (r: bool)
        ensures
            r == is_strict_op(*self),
    {
        matches!(self, InequalityOperator::Gt | InequalityOperator::Lt)
    }
}

impl Default for InequalityOperator {
    fn default() -> (r: Self)
        ensures
            r == InequalityOperator::Lt,
    {
        InequalityOperator::Lt
    }
}

/// The operator pair an inequality join is evaluated with:
/// `operator1` compares the first selected columns, `operator2` the second.
#[derive(Clone, Copy, Debug, PartialEq, Eq, Structural)]
pub struct IEJoinOptions {
    pub operator1: InequalityOperator,
    pub operator2: InequalityOperator,
}

impl Default for IEJoinOptions {
    fn default() -> (r: Self)
        ensures
            r == (IEJoinOptions { operator1: InequalityOperator::Lt, operator2: InequalityOperator::Lt }),
    {
        IEJoinOptions { operator1: InequalityOperator::Lt, operator2: InequalityOperator::Lt }
    }
}

/// `a op b` holds exactly when `b mirror_op(op) a` does.
pub proof fn lemma_mirror_op(op: InequalityOperator, a: int, b: int)
    ensures
        op_holds(op, a, b) == op_holds(mirror_op(op), b, a),
{
}

} // verus!
