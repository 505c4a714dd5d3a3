//! End-to-end tests of the interpreter: the declaration pass, the parser,
//! the cost bookkeeping, and the executor.

use gladerun::fault::{Fault, Stop, Trace};
use gladerun::map::{Direction, Glade};
use gladerun::objects::Context;
use gladerun::weights::{
    ACTION_SOFTWARE, ASSIGNMENT_SOFTWARE, ASSIGNMENT_USAGE, KLEUROOG_HARDWARE, KLEUROOG_USAGE,
    KOMPAS_HARDWARE, KOMPAS_USAGE, OPERATION_USAGE, PUSH_OBSTACLE, VAR_HARDWARE,
};

fn base_rows() -> Vec<Vec<String>> {
    let mut rows = Vec::new();
    for _ in 0..20 {
        let mut row = Vec::new();
        for _ in 0..20 {
            row.push(String::from("w"));
        }
        rows.push(row);
    }
    rows
}

fn set(rows: &mut Vec<Vec<String>>, x: usize, y: usize, tok: &str) {
    rows[y][x] = String::from(tok);
}

fn field(cells: &[(usize, usize, &str)]) -> Glade {
    let mut rows = base_rows();
    for (x, y, tok) in cells {
        set(&mut rows, *x, *y, tok);
    }
    Glade::parse(&rows).unwrap()
}

fn run(script: &str, glade: Glade) -> (Context, Result<(), Fault>, Option<Result<(), Stop>>) {
    let mut ctx = Context::new(script, glade);
    match ctx.parse() {
        Ok(()) => {
            let r = ctx.execute();
            (ctx, Ok(()), Some(r))
        },
        Err(f) => (ctx, Err(f), None),
    }
}

fn printed(ctx: &Context) -> Vec<(usize, i32)> {
    let mut out = Vec::new();
    for t in &ctx.glade.trace {
        if let Trace::Printed { line, value } = t {
            out.push((*line, *value));
        }
    }
    out
}

#[test]
fn trivial_success() {
    let g = field(&[(1, 1, "s1"), (3, 1, "t1")]);
    let (ctx, p, r) = run("stapVooruit\nstapVooruit", g);
    assert_eq!(p, Ok(()));
    assert_eq!(r, Some(Err(Stop::Success)));
    assert_eq!(ctx.points, 2 * ACTION_SOFTWARE);
    assert!(ctx.glade.trace.contains(&Trace::PassedTarget { number: 1 }));
}

#[test]
fn obstacle_collision_fails_softly() {
    let g = field(&[(1, 1, "s1"), (2, 1, "q")]);
    let (ctx, p, r) = run("stapVooruit", g);
    assert_eq!(p, Ok(()));
    assert_eq!(r, Some(Ok(())));
    assert_eq!((ctx.glade.griever.x, ctx.glade.griever.y), (1, 1));
    assert!(ctx.glade.trace.contains(&Trace::Collision { x: 1, y: 1, dir: Direction::East }));
    assert!(!ctx.glade.trace.iter().any(|t| matches!(t, Trace::PassedTarget { .. })));
    assert_eq!(ctx.points, ACTION_SOFTWARE + PUSH_OBSTACLE);
}

#[test]
fn money_recovers_cost() {
    let g = field(&[(1, 1, "s1"), (2, 1, "m3"), (3, 1, "t1")]);
    let (ctx, p, r) = run("stapVooruit\nstapVooruit", g);
    assert_eq!(p, Ok(()));
    assert_eq!(r, Some(Err(Stop::Success)));
    assert_eq!(ctx.points, 2 * ACTION_SOFTWARE - 8);
}

#[test]
fn money_pays_nothing_on_second_entry() {
    let g = field(&[(1, 1, "s1"), (2, 1, "m3")]);
    let (ctx, p, r) = run("stapVooruit\nstapAchteruit\nstapVooruit", g);
    assert_eq!(p, Ok(()));
    assert_eq!(r, Some(Ok(())));
    assert_eq!(ctx.points, 3 * ACTION_SOFTWARE - 8);
}

#[test]
fn bomb_detonates_on_timed_reentry() {
    let g = field(&[(1, 1, "s1"), (2, 1, "x2")]);
    let (_ctx, p, r) = run("stapVooruit\ndraaiRechts\ndraaiLinks", g);
    assert_eq!(p, Ok(()));
    assert_eq!(r, Some(Err(Stop::Fatal(Fault::Detonation { x: 2, y: 1 }))));
}

#[test]
fn ordered_targets_only_advance_in_order() {
    let g = field(&[(1, 1, "s1"), (2, 1, "t2"), (3, 1, "t1")]);
    let (ctx, p, r) = run("stapVooruit\nstapVooruit", g);
    assert_eq!(p, Ok(()));
    assert_eq!(r, Some(Ok(())));
    assert!(ctx.glade.trace.contains(&Trace::PassedTarget { number: 2 }));
    assert!(ctx.glade.trace.contains(&Trace::PassedTarget { number: 1 }));
    assert_eq!(ctx.glade.target_count, 0);
    assert_eq!(ctx.glade.last_target, 1);
}

#[test]
fn budget_exceeded_during_compilation() {
    let g = field(&[(1, 1, "s1")]);
    let mut script = String::from("gebruik kompas\ngebruik zwOog\ngebruik kleurOog\n");
    for _ in 0..48 {
        script.push_str("stapVooruit\n");
    }
    let (_ctx, p, r) = run(&script, g);
    assert_eq!(p, Err(Fault::BudgetExceeded));
    assert_eq!(r, None);
}

#[test]
fn budget_exceeded_during_execution() {
    let g = field(&[(1, 1, "s1")]);
    let script = "gebruik a\na = 0\nzolang a < 1000 {\na = a + 1\n}";
    let (_ctx, p, r) = run(script, g);
    assert_eq!(p, Ok(()));
    assert_eq!(r, Some(Err(Stop::Fatal(Fault::BudgetExceeded))));
}

#[test]
fn charge_past_budget_is_fatal_before_any_payoff() {
    let g = field(&[(1, 1, "s1"), (2, 1, "m4")]);
    let mut ctx = Context::new("", g);
    assert_eq!(ctx.add_points(2000), Ok(()));
    assert_eq!(ctx.add_points(15), Ok(()));
    assert_eq!(ctx.points, 2015);
    // the next charge tips the ledger: fatal at once, the nearby money
    // cannot rescue it
    assert_eq!(ctx.add_points(10), Err(Fault::BudgetExceeded));
    assert_eq!(ctx.points, 2015);
}

#[test]
fn print_reports_value_and_line() {
    let g = field(&[(1, 1, "s1")]);
    let (ctx, p, r) = run("gebruik kleurOog\nprint kleurOog", g);
    assert_eq!(p, Ok(()));
    assert_eq!(r, Some(Ok(())));
    assert_eq!(printed(&ctx), vec![(2, 0)]);
    assert_eq!(ctx.points, KLEUROOG_HARDWARE + KLEUROOG_USAGE);
}

#[test]
fn kompas_reads_heading() {
    let g = field(&[(1, 1, "s1")]);
    let (ctx, p, r) = run("gebruik kompas\nprint kompas", g);
    assert_eq!(p, Ok(()));
    assert_eq!(r, Some(Ok(())));
    assert_eq!(printed(&ctx), vec![(2, 1)]);
}

#[test]
fn arithmetic_is_left_associative() {
    let g = field(&[(1, 1, "s1")]);
    let (ctx, p, r) = run("gebruik a\na = 2 + 3 * 4\nprint a", g);
    assert_eq!(p, Ok(()));
    assert_eq!(r, Some(Ok(())));
    // no precedence: (2 + 3) * 4
    assert_eq!(printed(&ctx), vec![(3, 20)]);
}

#[test]
fn assignment_charges_and_stores() {
    let g = field(&[(1, 1, "s1")]);
    let (ctx, p, r) = run("gebruik a\ngebruik b\na = 3\nb = a * 7\nprint b", g);
    assert_eq!(p, Ok(()));
    assert_eq!(r, Some(Ok(())));
    assert_eq!(printed(&ctx), vec![(5, 21)]);
    assert_eq!(ctx.get_var('a'), Some(3));
    assert_eq!(ctx.get_var('b'), Some(21));
    assert_eq!(
        ctx.points,
        2 * VAR_HARDWARE + 2 * ASSIGNMENT_SOFTWARE + 2 * ASSIGNMENT_USAGE + OPERATION_USAGE
    );
}

#[test]
fn assignment_from_sensor() {
    let g = field(&[(1, 1, "s1")]);
    let (ctx, p, r) = run("gebruik a\ngebruik kompas\na = kompas\nprint a", g);
    assert_eq!(p, Ok(()));
    assert_eq!(r, Some(Ok(())));
    assert_eq!(printed(&ctx), vec![(4, 1)]);
    assert_eq!(
        ctx.points,
        VAR_HARDWARE + KOMPAS_HARDWARE + ASSIGNMENT_SOFTWARE + ASSIGNMENT_USAGE + KOMPAS_USAGE
    );
}

#[test]
fn division_truncates() {
    let g = field(&[(1, 1, "s1")]);
    let (ctx, p, r) = run("gebruik a\ngebruik b\na = 0 - 7\nb = a / 2\nprint b", g);
    assert_eq!(p, Ok(()));
    assert_eq!(r, Some(Ok(())));
    assert_eq!(printed(&ctx), vec![(5, -3)]);
}

#[test]
fn remainder_has_dividend_sign() {
    let g = field(&[(1, 1, "s1")]);
    let (ctx, p, r) = run("gebruik a\ngebruik b\na = 0 - 7\nb = a % 3\nprint b", g);
    assert_eq!(p, Ok(()));
    assert_eq!(r, Some(Ok(())));
    assert_eq!(printed(&ctx), vec![(5, -1)]);
}

#[test]
fn division_by_zero_is_fatal() {
    let g = field(&[(1, 1, "s1")]);
    let (_ctx, p, r) = run("gebruik a\na = 1 / 0", g);
    assert_eq!(p, Ok(()));
    assert_eq!(r, Some(Err(Stop::Fatal(Fault::DivByZero { line: 2 }))));
}

#[test]
fn while_loop_runs_to_condition() {
    let g = field(&[(1, 1, "s1")]);
    let (ctx, p, r) = run("gebruik a\na = 0\nzolang a < 3 {\na = a + 1\n}\nprint a", g);
    assert_eq!(p, Ok(()));
    assert_eq!(r, Some(Ok(())));
    assert_eq!(printed(&ctx), vec![(6, 3)]);
}

#[test]
fn if_takes_the_matching_branch() {
    let g = field(&[(1, 1, "s1")]);
    let script = "gebruik a\na = 1\nals a == 1 {\nprint 7\n} anders {\nprint 8\n}";
    let (ctx, p, r) = run(script, g);
    assert_eq!(p, Ok(()));
    assert_eq!(r, Some(Ok(())));
    assert_eq!(printed(&ctx), vec![(4, 7)]);
}

#[test]
fn if_takes_the_else_branch() {
    let g = field(&[(1, 1, "s1")]);
    let script = "gebruik a\na = 2\nals a == 1 {\nprint 7\n} anders {\nprint 8\n}";
    let (ctx, p, r) = run(script, g);
    assert_eq!(p, Ok(()));
    assert_eq!(r, Some(Ok(())));
    assert_eq!(printed(&ctx), vec![(6, 8)]);
}

#[test]
fn nested_blocks_parse_and_run() {
    let g = field(&[(1, 1, "s1")]);
    let script = "gebruik a\ngebruik b\na = 0\nb = 0\nzolang a < 2 {\na = a + 1\nals a == 2 {\nb = b + 10\n}\n}\nprint b";
    let (ctx, p, r) = run(script, g);
    assert_eq!(p, Ok(()));
    assert_eq!(r, Some(Ok(())));
    assert_eq!(printed(&ctx), vec![(11, 10)]);
}

#[test]
fn undeclared_read_is_a_parse_fault() {
    let g = field(&[(1, 1, "s1")]);
    let (_ctx, p, _r) = run("print a", g);
    assert_eq!(p, Err(Fault::UndeclaredVar { line: 1, name: 'a' }));
}

#[test]
fn undeclared_assignment_target_is_a_runtime_fault() {
    let g = field(&[(1, 1, "s1")]);
    let (_ctx, p, r) = run("a = 1", g);
    assert_eq!(p, Ok(()));
    assert_eq!(r, Some(Err(Stop::Fatal(Fault::UndeclaredVar { line: 1, name: 'a' }))));
}

#[test]
fn unassigned_read_is_a_runtime_fault() {
    let g = field(&[(1, 1, "s1")]);
    let (_ctx, p, r) = run("gebruik a\nprint a", g);
    assert_eq!(p, Ok(()));
    assert_eq!(r, Some(Err(Stop::Fatal(Fault::UnassignedVar { line: 2, name: 'a' }))));
}

#[test]
fn sensor_without_declaration_is_a_parse_fault() {
    let g = field(&[(1, 1, "s1")]);
    let (_ctx, p, _r) = run("print kompas", g);
    assert_eq!(p, Err(Fault::SensorNotEnabled { line: 1 }));
}

#[test]
fn stray_closing_brace_is_a_parse_fault() {
    let g = field(&[(1, 1, "s1")]);
    let (_ctx, p, _r) = run("stapVooruit }", g);
    assert_eq!(p, Err(Fault::StrayBrace { line: 1 }));
}

#[test]
fn hanging_operator_is_a_parse_fault() {
    let g = field(&[(1, 1, "s1")]);
    let (_ctx, p, _r) = run("gebruik a\na = 1 +", g);
    assert_eq!(p, Err(Fault::HangingOp { line: 2 }));
}

#[test]
fn unknown_line_is_a_parse_fault() {
    let g = field(&[(1, 1, "s1")]);
    let (_ctx, p, _r) = run("springOmhoog", g);
    assert_eq!(p, Err(Fault::SyntaxError { line: 1 }));
}

#[test]
fn stepping_off_the_grid_is_fatal() {
    let g = field(&[(1, 1, "s0")]);
    let (_ctx, p, r) = run("stapVooruit\nstapVooruit", g);
    assert_eq!(p, Ok(()));
    assert_eq!(
        r,
        Some(Err(Stop::Fatal(Fault::OutOfBounds { x: 1, y: 0, dir: Direction::North })))
    );
}

#[test]
fn manual_turns_cancel_out() {
    let g = field(&[(1, 1, "s1")]);
    let (ctx, p, r) = run("draaiRechts\ndraaiLinks", g);
    assert_eq!(p, Ok(()));
    assert_eq!(r, Some(Ok(())));
    assert_eq!(ctx.glade.griever.direction, Direction::East);
    assert_eq!(ctx.glade.seconds, 2);
}

#[test]
fn empty_else_branch_is_dropped() {
    let g = field(&[(1, 1, "s1")]);
    let script = "gebruik a\na = 2\nals a == 1 {\nprint 7\n} anders {\n}";
    let (ctx, p, r) = run(script, g);
    assert_eq!(p, Ok(()));
    assert_eq!(r, Some(Ok(())));
    assert_eq!(printed(&ctx), vec![]);
}

#[test]
fn manual_turn_retriggers_turner_underneath() {
    let g = field(&[(1, 1, "s1"), (2, 1, "d1")]);
    let (ctx, p, r) = run("stapVooruit\ndraaiRechts", g);
    assert_eq!(p, Ok(()));
    assert_eq!(r, Some(Ok(())));
    // stepping on the turner turns East to South (tick 2); the manual right
    // turn makes West (tick 3) and re-enters the turner for one more turn
    assert_eq!(ctx.glade.griever.direction, Direction::North);
    assert_eq!(ctx.glade.seconds, 4);
    assert_eq!((ctx.glade.griever.x, ctx.glade.griever.y), (2, 1));
}

#[test]
fn undeclared_variable_reads_nothing() {
    let g = field(&[(1, 1, "s1")]);
    let ctx = Context::new("", g);
    assert_eq!(ctx.get_var('c'), None);
}

#[test]
fn else_after_nested_block_is_found() {
    let g = field(&[(1, 1, "s1")]);
    let script = "gebruik a\na = 3\nals a > 5 {\nzolang a < 9 {\na = a + 1\n}\n} anders {\na = 0 - 1\n}\nprint a";
    let (ctx, p, r) = run(script, g);
    assert_eq!(p, Ok(()));
    assert_eq!(r, Some(Ok(())));
    assert_eq!(printed(&ctx), vec![(10, -1)]);
}

#[test]
fn nested_loop_in_taken_branch_runs() {
    let g = field(&[(1, 1, "s1")]);
    let script = "gebruik a\na = 6\nals a > 5 {\nzolang a < 9 {\na = a + 1\n}\n} anders {\na = 0 - 1\n}\nprint a";
    let (ctx, p, r) = run(script, g);
    assert_eq!(p, Ok(()));
    assert_eq!(r, Some(Ok(())));
    assert_eq!(printed(&ctx), vec![(10, 9)]);
}
