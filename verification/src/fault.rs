//! The error vocabulary of the interpreter, and the trace entries that a run
//! emits instead of writing to stdout directly.

use crate::map::Direction;
use vstd::prelude::*;

verus! {

/// A fatal condition: the run stops and the process reports a diagnostic.
///
/// Field-load faults carry the offending grid position; parse and runtime
/// faults carry the offending source line where one exists.
#[derive(Clone, Copy, Debug, PartialEq, Eq, Structural)]
pub enum Fault {
    /// A grid token is malformed, carries an unrepresentable payload, or the
    /// grid is not exactly 20 rows of 20 tokens (`row`/`col` point at the
    /// offending or missing token).
    BadCell { row: usize, col: usize },
    /// Two grid cells carry the same target index (0-based).
    DuplicateTargetIdx { idx: u32 },
    /// The target indices present do not form a contiguous run from 0
    /// (`idx` is 0-based and absent while a larger index is present).
    MissingTargetIdx { idx: u32 },
    /// Two money cells carry the same exponent.
    DuplicateMoneyExponent { exponent: u32 },
    /// More than one walker spawn token in the grid.
    MultipleSpawns { row: usize, col: usize },
    /// A spawn token carries a direction outside 0..=3.
    BadDirection { value: u32 },
    /// A source line matches no statement form.
    SyntaxError { line: usize },
    /// A closing brace shares its line with other content.
    StrayBrace { line: usize },
    /// A line ends with an operator or comparator that lacks an operand.
    HangingOp { line: usize },
    /// A variable is read or assigned without having been declared.
    UndeclaredVar { line: usize, name: char },
    /// A sensor is named in an expression without having been declared.
    SensorNotEnabled { line: usize },
    /// A charge would push the ledger past the budget ceiling.
    BudgetExceeded,
    /// A payoff deduction would make the ledger negative.
    LedgerUnderflow,
    /// A step would carry the walker off the grid.
    OutOfBounds { x: usize, y: usize, dir: Direction },
    /// The walker entered a bomb at its detonation instant.
    Detonation { x: usize, y: usize },
    /// An integer division or remainder by zero.
    DivByZero { line: usize },
    /// A declared variable is read before any assignment.
    UnassignedVar { line: usize, name: char },
}

/// How a run ends early: either every numbered target was reached in order,
/// or a fatal condition arose.
#[derive(Clone, Copy, Debug, PartialEq, Eq, Structural)]
pub enum Stop {
    Success,
    Fatal(Fault),
}

/// One entry of the run's observable output.
#[derive(Clone, Copy, Debug, PartialEq, Eq, Structural)]
pub enum Trace {
    /// The walker entered the target with the given 1-based number
    /// (announced whether or not progress advanced).
    PassedTarget { number: u32 },
    /// A step was blocked by an obstacle; the pose is the unchanged one.
    Collision { x: usize, y: usize, dir: Direction },
    /// A `print` statement wrote a value.
    Printed { line: usize, value: i32 },
}

} // verus!
