//! The fixed table of cost weights and colour codes.
//!
//! Every hardware declaration, compiled statement and executed evaluation is
//! charged one of these named weights against the budget ceiling.

use vstd::prelude::*;

verus! {

/// Ceiling on cumulative ledger charges.
pub const BUDGET: i32 = 2020;

// Hardware declaration charges (once per `gebruik` line, at parse time).
pub const KOMPAS_HARDWARE: i32 = 80;
pub const ZWOOG_HARDWARE: i32 = 120;
pub const KLEUROOG_HARDWARE: i32 = 160;
pub const VAR_HARDWARE: i32 = 10;

// Software charges (once per compiled statement, at parse time).
pub const ACTION_SOFTWARE: i32 = 35;
pub const ZOLANG_SOFTWARE: i32 = 50;
pub const ALS_SOFTWARE: i32 = 40;
pub const ASSIGNMENT_SOFTWARE: i32 = 20;

// Usage charges (per execution).
pub const TURNLEFT_USAGE: i32 = 15;
pub const TURNRIGHT_USAGE: i32 = 15;
pub const PUSH_OBSTACLE: i32 = 60;
pub const ASSIGNMENT_USAGE: i32 = 5;
pub const OPERATION_USAGE: i32 = 8;
pub const COMPARISON_USAGE: i32 = 10;
pub const KOMPAS_USAGE: i32 = 12;
pub const ZWOOG_USAGE: i32 = 18;
pub const KLEUROOG_USAGE: i32 = 25;

// Colour codes reported by the colour eye. The black-and-white eye reports 1
// for every code in 1..=8 and 0 for code 0.
pub const BLACK_SQUARE: i32 = 0;
pub const WHITE_SQUARE: i32 = 1;
pub const GRAY_SQUARE: i32 = 2;
pub const RED_SQUARE: i32 = 3;
pub const ORANGE_SQUARE: i32 = 4;
pub const YELLOW_SQUARE: i32 = 5;
pub const GREEN_SQUARE: i32 = 6;
pub const BLUE_SQUARE: i32 = 7;
pub const PURPLE_SQUARE: i32 = 8;

} // verus!
