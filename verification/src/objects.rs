//! The script's abstract trees, the expression evaluator, the parser and the
//! statement executor, threaded through one evaluation context that holds
//! the cost ledger, the variable environment, the enabled hardware set and
//! the live field.

use crate::fault::{Fault, Stop, Trace};
use crate::lex;
use crate::lex::trimmed;
use crate::map::{spec_color_value, Direction, Glade, GladeView};
use crate::weights::{
    ACTION_SOFTWARE, ALS_SOFTWARE, ASSIGNMENT_SOFTWARE, ASSIGNMENT_USAGE, BUDGET,
    COMPARISON_USAGE, KLEUROOG_HARDWARE, KLEUROOG_USAGE, KOMPAS_HARDWARE, KOMPAS_USAGE,
    OPERATION_USAGE, PUSH_OBSTACLE, TURNLEFT_USAGE, TURNRIGHT_USAGE, VAR_HARDWARE,
    ZOLANG_SOFTWARE, ZWOOG_HARDWARE, ZWOOG_USAGE,
};
use vstd::prelude::*;

verus! {

/// One statement of the script.
#[derive(Debug)]
pub enum LangObject {
    Zolang(Zolang),
    Als(Als),
    Assignment(Assignment),
    Print(Print),
    StepForwards,
    StepBackwards,
    TurnLeft,
    TurnRight,
}

/// One operand of an expression: a variable, a literal, a sensor, or a
/// nested arithmetic expression.
#[derive(Debug)]
pub enum ExpressionVar {
    Variable(char),
    Int(i32),
    KleurOog,
    ZwOog,
    Kompas,
    Expression(Box<IntExpression>),
}

/// A comparison operator.
#[derive(Clone, Copy, Debug, PartialEq, Eq, Structural)]
pub enum Comparer {
    Equal,
    NotEqual,
    GreaterThan,
    SmallerThan,
}

/// An arithmetic operator.
#[derive(Clone, Copy, Debug, PartialEq, Eq, Structural)]
pub enum Operator {
    Plus,
    Minus,
    Product,
    Divide,
    Remainder,
}

/// A sensor that a `gebruik` line can enable.
#[derive(Clone, Copy, Debug, PartialEq, Eq, Structural)]
pub enum Hardware {
    Kompas,
    ZwOog,
    KleurOog,
}

/// A strictly two-operand arithmetic expression; chains associate to the
/// left through the `left` operand.
#[derive(Debug)]
pub struct IntExpression {
    pub left: ExpressionVar,
    pub operator: Operator,
    pub right: ExpressionVar,
    pub line: usize,
}

/// A comparison between an atom and an arithmetic expression.
#[derive(Debug)]
pub struct BoolExpression {
    pub left: ExpressionVar,
    pub comparer: Comparer,
    pub right: ExpressionVar,
    pub line: usize,
}

/// A `zolang` (while) loop.
#[derive(Debug)]
pub struct Zolang {
    pub expression: BoolExpression,
    pub block: CodeBlock,
    pub line: usize,
}

/// An `als` (if) statement with an optional `anders` (else) branch.
#[derive(Debug)]
pub struct Als {
    pub expression: BoolExpression,
    pub if_block: CodeBlock,
    pub else_block: Option<CodeBlock>,
    pub line: usize,
}

/// An assignment to a one-letter variable.
#[derive(Debug)]
pub struct Assignment {
    pub var: char,
    pub expression: ExpressionVar,
    pub line: usize,
}

/// A `print` statement.
#[derive(Debug)]
pub struct Print {
    pub expression: ExpressionVar,
    pub line: usize,
}

/// An ordered run of statements; `line` is the 0-based index of the first
/// source line the block was read from.
#[derive(Debug)]
pub struct CodeBlock {
    pub objects: Vec<LangObject>,
    pub line: usize,
}

/// The mathematical value of a statement, with blocks as sequences.
pub ghost enum StmtV {
    Zolang { cond: BoolExpression, body: Seq<StmtV>, line: int },
    Als { cond: BoolExpression, if_body: Seq<StmtV>, else_body: Option<Seq<StmtV>>, line: int },
    Assign { var: char, rhs: ExpressionVar, line: int },
    Print { e: ExpressionVar, line: int },
    StepForwards,
    StepBackwards,
    TurnLeft,
    TurnRight,
}

/// The mathematical value of one statement.
pub open spec fn stmt_view(o: LangObject) -> StmtV
    decreases o,
{
    match o {
        LangObject::Zolang(z) => StmtV::Zolang {
            cond: z.expression,
            body: stmts_view(z.block.objects@),
            line: z.line as int,
        },
        LangObject::Als(a) => StmtV::Als {
            cond: a.expression,
            if_body: stmts_view(a.if_block.objects@),
            else_body: match a.else_block {
                Some(eb) => Some(stmts_view(eb.objects@)),
                None => None,
            },
            line: a.line as int,
        },
        LangObject::Assignment(a) => StmtV::Assign {
            var: a.var,
            rhs: a.expression,
            line: a.line as int,
        },
        LangObject::Print(p) => StmtV::Print { e: p.expression, line: p.line as int },
        LangObject::StepForwards => StmtV::StepForwards,
        LangObject::StepBackwards => StmtV::StepBackwards,
        LangObject::TurnLeft => StmtV::TurnLeft,
        LangObject::TurnRight => StmtV::TurnRight,
    }
}

/// The mathematical value of a run of statements.
pub open spec fn stmts_view(objs: Seq<LangObject>) -> Seq<StmtV>
    decreases objs,
{
    if objs.len() == 0 {
        Seq::empty()
    } else {
        seq![stmt_view(objs[0])] + stmts_view(objs.drop_first())
    }
}

/// The evaluation context: the source text, the compiled statement tree, the
/// cost ledger, the variable environment (one slot per letter, absent,
/// declared-unassigned or assigned), the enabled hardware, and the field.
#[derive(Debug)]
pub struct Context {
    pub file_text: String,
    pub code: CodeBlock,
    pub points: i32,
    pub variables: Vec<Option<Option<i32>>>,
    pub useable: Vec<Hardware>,
    pub glade: Glade,
}

/// Whether the hardware `h` has been enabled.
pub open spec fn hw_enabled(hws: Seq<Hardware>, h: Hardware) -> bool {
    exists|i: int| 0 <= i < hws.len() && hws[i] == h
}

/// The variable slot of a lowercase letter.
pub open spec fn slot_of(c: char) -> int {
    c as u32 - 'a' as u32
}

/// Whether `c` is a lowercase letter `a..z`.
pub open spec fn is_lower(c: char) -> bool {
    'a' as u32 <= c as u32 <= 'z' as u32
}

/// A ledger charge: the new total, or nothing when it would pass the budget
/// ceiling.
pub open spec fn spec_charge(pts: int, w: int) -> Option<int> {
    if pts + w > BUDGET {
        None
    } else {
        Some(pts + w)
    }
}

/// Truncating division as the script defines it: the magnitude quotient with
/// the sign of the quotient, wrapping on the one overflowing pair.
pub open spec fn div_wrap(a: i32, b: i32) -> i32 {
    if a == i32::MIN && b == -1 {
        i32::MIN
    } else {
        let q = abs(a as int) / abs(b as int);
        if (a < 0) != (b < 0) {
            (-q) as i32
        } else {
            q as i32
        }
    }
}

/// Remainder with the sign of the dividend, as the script defines it.
pub open spec fn rem_wrap(a: i32, b: i32) -> i32 {
    if a == i32::MIN && b == -1 {
        0
    } else {
        let m = abs(a as int) % abs(b as int);
        if a < 0 {
            (-m) as i32
        } else {
            m as i32
        }
    }
}

/// The magnitude of an integer.
pub open spec fn abs(a: int) -> int {
    if a < 0 {
        -a
    } else {
        a
    }
}

/// Apply an arithmetic operator with the script's integer semantics:
/// wrapping addition, subtraction and multiplication; truncating division
/// and dividend-signed remainder, fatal on a zero divisor.
pub open spec fn apply_op(op: Operator, l: i32, r: i32, line: int) -> Result<i32, Fault> {
    match op {
        Operator::Plus => Ok(vstd::wrapping::i32_specs::wrapping_add(l, r)),
        Operator::Minus => Ok(vstd::wrapping::i32_specs::wrapping_sub(l, r)),
        Operator::Product => Ok(vstd::wrapping::i32_specs::wrapping_mul(l, r)),
        Operator::Divide => if r == 0 {
            Err(Fault::DivByZero { line: line as usize })
        } else {
            Ok(div_wrap(l, r))
        },
        Operator::Remainder => if r == 0 {
            Err(Fault::DivByZero { line: line as usize })
        } else {
            Ok(rem_wrap(l, r))
        },
    }
}

/// The value a sensor reports on the current field.
pub open spec fn spec_kompas(g: GladeView) -> int {
    g.griever.direction.index()
}

/// The colour under the walker.
pub open spec fn spec_kleur(g: GladeView) -> int {
    spec_color_value(g.cell(g.griever.x as int, g.griever.y as int))
}

/// The black-and-white reading under the walker.
pub open spec fn spec_zw(g: GladeView) -> int {
    if spec_kleur(g) == 0 {
        0
    } else {
        1
    }
}

/// Evaluate one operand: literals cost nothing, variables read the
/// environment (fatal when absent or unassigned), sensors charge their usage
/// weight before reading, and nested expressions recurse. Returns the value
/// and the ledger after the evaluation.
pub open spec fn eval_ev(
    e: ExpressionVar,
    line: int,
    vars: Seq<Option<Option<i32>>>,
    g: GladeView,
    pts: int,
) -> Result<(i32, int), Fault>
    decreases e,
{
    match e {
        ExpressionVar::Int(i) => Ok((i, pts)),
        ExpressionVar::Variable(c) => {
            let idx = slot_of(c);
            if is_lower(c) && 0 <= idx < vars.len() {
                match vars[idx] {
                    None => Err(Fault::UndeclaredVar { line: line as usize, name: c }),
                    Some(None) => Err(Fault::UnassignedVar { line: line as usize, name: c }),
                    Some(Some(v)) => Ok((v, pts)),
                }
            } else {
                Err(Fault::UndeclaredVar { line: line as usize, name: c })
            }
        },
        ExpressionVar::Kompas => match spec_charge(pts, KOMPAS_USAGE as int) {
            None => Err(Fault::BudgetExceeded),
            Some(p2) => Ok((spec_kompas(g) as i32, p2)),
        },
        ExpressionVar::ZwOog => match spec_charge(pts, ZWOOG_USAGE as int) {
            None => Err(Fault::BudgetExceeded),
            Some(p2) => Ok((spec_zw(g) as i32, p2)),
        },
        ExpressionVar::KleurOog => match spec_charge(pts, KLEUROOG_USAGE as int) {
            None => Err(Fault::BudgetExceeded),
            Some(p2) => Ok((spec_kleur(g) as i32, p2)),
        },
        ExpressionVar::Expression(b) => eval_ie(*b, vars, g, pts),
    }
}

/// Evaluate a two-operand expression: charge the operation weight, evaluate
/// the left then the right operand, and apply the operator.
pub open spec fn eval_ie(
    ie: IntExpression,
    vars: Seq<Option<Option<i32>>>,
    g: GladeView,
    pts: int,
) -> Result<(i32, int), Fault>
    decreases ie,
{
    match spec_charge(pts, OPERATION_USAGE as int) {
        None => Err(Fault::BudgetExceeded),
        Some(p1) => match eval_ev(ie.left, ie.line as int, vars, g, p1) {
            Err(f) => Err(f),
            Ok(lp) => match eval_ev(ie.right, ie.line as int, vars, g, lp.1) {
                Err(f) => Err(f),
                Ok(rp) => match apply_op(ie.operator, lp.0, rp.0, ie.line as int) {
                    Err(f) => Err(f),
                    Ok(v) => Ok((v, rp.1)),
                },
            },
        },
    }
}

/// Apply a comparison.
pub open spec fn apply_cmp(cmp: Comparer, l: i32, r: i32) -> bool {
    match cmp {
        Comparer::Equal => l == r,
        Comparer::NotEqual => l != r,
        Comparer::GreaterThan => l > r,
        Comparer::SmallerThan => l < r,
    }
}

/// Evaluate a comparison: charge the comparison weight, evaluate both sides,
/// and compare.
pub open spec fn eval_be(
    be: BoolExpression,
    vars: Seq<Option<Option<i32>>>,
    g: GladeView,
    pts: int,
) -> Result<(bool, int), Fault> {
    match spec_charge(pts, COMPARISON_USAGE as int) {
        None => Err(Fault::BudgetExceeded),
        Some(p1) => match eval_ev(be.left, be.line as int, vars, g, p1) {
            Err(f) => Err(f),
            Ok(lp) => match eval_ev(be.right, be.line as int, vars, g, lp.1) {
                Err(f) => Err(f),
                Ok(rp) => Ok((apply_cmp(be.comparer, lp.0, rp.0), rp.1)),
            },
        },
    }
}

/// A successful evaluation never lowers the ledger.
pub proof fn lemma_eval_ev_points(
    e: ExpressionVar,
    line: int,
    vars: Seq<Option<Option<i32>>>,
    g: GladeView,
    pts: int,
)
    ensures
        eval_ev(e, line, vars, g, pts) matches Ok(vp) ==> pts <= vp.1,
    decreases e,
{
    match e {
        ExpressionVar::Expression(b) => {
            lemma_eval_ie_points(*b, vars, g, pts);
        },
        _ => {},
    }
}

/// A successful evaluation never lowers the ledger.
pub proof fn lemma_eval_ie_points(
    ie: IntExpression,
    vars: Seq<Option<Option<i32>>>,
    g: GladeView,
    pts: int,
)
    ensures
        eval_ie(ie, vars, g, pts) matches Ok(vp) ==> pts <= vp.1,
    decreases ie,
{
    match spec_charge(pts, OPERATION_USAGE as int) {
        Some(p1) => {
            lemma_eval_ev_points(ie.left, ie.line as int, vars, g, p1);
            match eval_ev(ie.left, ie.line as int, vars, g, p1) {
                Ok(lp) => {
                    lemma_eval_ev_points(ie.right, ie.line as int, vars, g, lp.1);
                },
                Err(_) => {},
            }
        },
        None => {},
    }
}

/// The parts of the context that expression evaluation never touches.
pub open spec fn eval_frame(pre: Context, post: Context) -> bool {
    &&& post.file_text == pre.file_text
    &&& post.code == pre.code
    &&& post.variables == pre.variables
    &&& post.useable == pre.useable
    &&& post.glade == pre.glade
}

impl Context {
    /// Well-formedness: one variable slot per letter, a well-formed field,
    /// and a ledger inside the budget.
    pub open spec fn wf(self) -> bool {
        &&& self.variables@.len() == 26
        &&& self.glade@.wf()
        &&& 0 <= self.points <= BUDGET
    }

    /// A fresh context around a field: no code, no points spent, no
    /// variables, no hardware.
    pub fn new(file_text: &str, glade: Glade) -> (r: Context)
        requires
            glade@.wf(),
        ensures
            r.wf(),
            r.file_text@ == file_text@,
            r.code.objects@.len() == 0,
            r.points == 0,
            r.variables@.len() == 26,
            forall|i: int| 0 <= i < 26 ==> r.variables@[i] is None,
            r.useable@.len() == 0,
            r.glade == glade,
    {
        let mut variables: Vec<Option<Option<i32>>> = Vec::new();
        while variables.len() < 26
            invariant
                variables@.len() <= 26,
                forall|i: int| 0 <= i < variables@.len() ==> variables@[i] is None,
            decreases 26 - variables@.len(),
        {
            variables.push(None);
        }
        Context {
            file_text: String::from_str(file_text),
            code: CodeBlock { objects: Vec::new(), line: 0 },
            points: 0,
            variables,
            useable: Vec::new(),
            glade,
        }
    }

    /// Charge `p` against the ledger: fatal, with the ledger unchanged, when
    /// the total would pass the budget ceiling.
    pub fn add_points(&mut self, p: i32) -> (r: Result<(), Fault>)
        requires
            0 <= old(self).points <= BUDGET,
            0 <= p,
        ensures
            match spec_charge(old(self).points as int, p as int) {
                Some(p2) => r is Ok && final(self).points == p2,
                None => r == Err::<(), Fault>(Fault::BudgetExceeded) && final(self).points == old(
                    self,
                ).points,
            },
            0 <= final(self).points <= BUDGET,
            eval_frame(*old(self), *final(self)),
    {
        if self.points > BUDGET - p {
            Err(Fault::BudgetExceeded)
        } else {
            self.points = self.points + p;
            Ok(())
        }
    }

    /// The value of a variable: nothing when it is undeclared or unassigned.
    pub fn get_var(&self, name: char) -> (r: Option<i32>)
        requires
            self.wf(),
        ensures
            ({
                let s = if is_lower(name) {
                    self.variables@[slot_of(name)]
                } else {
                    None
                };
                match s {
                    Some(Some(v)) => r == Some(v),
                    _ => r is None,
                }
            }),
    {
        if (name as u32) >= ('a' as u32) && (name as u32) <= ('z' as u32) {
            let idx = (name as u32 - 'a' as u32) as usize;
            match self.variables[idx] {
                Some(Some(v)) => Some(v),
                _ => None,
            }
        } else {
            None
        }
    }
}

/// Executable test for [`hw_enabled`].
fn has_hw(v: &Vec<Hardware>, h: Hardware) -> (r: bool)
    ensures
        r == hw_enabled(v@, h),
{
    let mut i: usize = 0;
    while i < v.len()
        invariant
            i <= v@.len(),
            forall|j: int| 0 <= j < i ==> v@[j] != h,
        decreases v@.len() - i,
    {
        if v[i] == h {
            return true;
        }
        i = i + 1;
    }
    false
}

/// Evaluate one operand against the context, mirroring [`eval_ev`].
fn eval_var_exec(e: &ExpressionVar, line: usize, ctx: &mut Context) -> (r: Result<i32, Fault>)
    requires
        old(ctx).wf(),
    ensures
        final(ctx).wf(),
        eval_frame(*old(ctx), *final(ctx)),
        match eval_ev(*e, line as int, old(ctx).variables@, old(ctx).glade@, old(ctx).points as int) {
            Ok(vp) => r == Ok::<i32, Fault>(vp.0) && final(ctx).points == vp.1,
            Err(f) => r == Err::<i32, Fault>(f) && old(ctx).points <= final(ctx).points <= BUDGET,
        },
    decreases *e,
{
    match e {
        ExpressionVar::Int(i) => Ok(*i),
        ExpressionVar::Variable(c) => {
            if (*c as u32) >= ('a' as u32) && (*c as u32) <= ('z' as u32) {
                let idx = (*c as u32 - 'a' as u32) as usize;
                match ctx.variables[idx] {
                    None => Err(Fault::UndeclaredVar { line, name: *c }),
                    Some(None) => Err(Fault::UnassignedVar { line, name: *c }),
                    Some(Some(v)) => Ok(v),
                }
            } else {
                Err(Fault::UndeclaredVar { line, name: *c })
            }
        },
        ExpressionVar::Kompas => match ctx.add_points(KOMPAS_USAGE) {
            Ok(_) => Ok(ctx.glade.griever.kompas()),
            Err(f) => Err(f),
        },
        ExpressionVar::ZwOog => match ctx.add_points(ZWOOG_USAGE) {
            Ok(_) => Ok(ctx.glade.bw_eye()),
            Err(f) => Err(f),
        },
        ExpressionVar::KleurOog => match ctx.add_points(KLEUROOG_USAGE) {
            Ok(_) => Ok(ctx.glade.color_eye()),
            Err(f) => Err(f),
        },
        ExpressionVar::Expression(b) => b.calc(ctx),
    }
}

impl IntExpression {
    /// Evaluate the expression against the context, mirroring [`eval_ie`].
    pub fn calc(&self, ctx: &mut Context) -> (r: Result<i32, Fault>)
        requires
            old(ctx).wf(),
        ensures
            final(ctx).wf(),
            eval_frame(*old(ctx), *final(ctx)),
            match eval_ie(*self, old(ctx).variables@, old(ctx).glade@, old(ctx).points as int) {
                Ok(vp) => r == Ok::<i32, Fault>(vp.0) && final(ctx).points == vp.1,
                Err(f) => r == Err::<i32, Fault>(f) && old(ctx).points <= final(ctx).points
                    <= BUDGET,
            },
        decreases *self,
    {
        match ctx.add_points(OPERATION_USAGE) {
            Ok(_) => {},
            Err(f) => {
                return Err(f);
            },
        }
        proof {
            assert(old(ctx).points <= ctx.points <= BUDGET);
        }
        let ghost mid1 = *ctx;
        let l = match eval_var_exec(&self.left, self.line, ctx) {
            Ok(v) => v,
            Err(f) => {
                proof {
                    assert(mid1.points <= ctx.points <= BUDGET);
                    assert(old(ctx).points <= ctx.points <= BUDGET);
                }
                return Err(f);
            },
        };
        let ghost mid2 = *ctx;
        proof {
            lemma_eval_ev_points(self.left, self.line as int, mid1.variables@, mid1.glade@, mid1.points as int);
        }
        let r = match eval_var_exec(&self.right, self.line, ctx) {
            Ok(v) => v,
            Err(f) => {
                proof {
                    assert(mid1.points <= mid2.points && mid2.points <= ctx.points <= BUDGET);
                    assert(old(ctx).points <= ctx.points <= BUDGET);
                }
                return Err(f);
            },
        };
        proof {
            lemma_eval_ev_points(self.right, self.line as int, mid2.variables@, mid2.glade@, mid2.points as int);
            assert(old(ctx).points <= mid1.points <= mid2.points <= ctx.points <= BUDGET);
        }
        match self.operator {
            Operator::Plus => Ok(l.wrapping_add(r)),
            Operator::Minus => Ok(l.wrapping_sub(r)),
            Operator::Product => Ok(l.wrapping_mul(r)),
            Operator::Divide => {
                if r == 0 {
                    Err(Fault::DivByZero { line: self.line })
                } else {
                    Ok(div_exec(l, r))
                }
            },
            Operator::Remainder => {
                if r == 0 {
                    Err(Fault::DivByZero { line: self.line })
                } else {
                    Ok(rem_exec(l, r))
                }
            },
        }
    }
}

/// Truncating division on machine words.
fn div_exec(a: i32, b: i32) -> (r: i32)
    requires
        b != 0,
    ensures
        r == div_wrap(a, b),
{
    if a == i32::MIN && b == -1 {
        return i32::MIN;
    }
    let ma: u64 = if a >= 0 {
        a as u64
    } else {
        (-(a as i64)) as u64
    };
    let mb: u64 = if b >= 0 {
        b as u64
    } else {
        (-(b as i64)) as u64
    };
    let q: u64 = ma / mb;
    if (a < 0) != (b < 0) {
        (-(q as i64)) as i32
    } else {
        q as i32
    }
}

/// Remainder with the sign of the dividend on machine words.
fn rem_exec(a: i32, b: i32) -> (r: i32)
    requires
        b != 0,
    ensures
        r == rem_wrap(a, b),
{
    if a == i32::MIN && b == -1 {
        return 0;
    }
    let ma: u64 = if a >= 0 {
        a as u64
    } else {
        (-(a as i64)) as u64
    };
    let mb: u64 = if b >= 0 {
        b as u64
    } else {
        (-(b as i64)) as u64
    };
    let m: u64 = ma % mb;
    if a < 0 {
        (-(m as i64)) as i32
    } else {
        m as i32
    }
}

impl BoolExpression {
    /// Evaluate the comparison against the context, mirroring [`eval_be`].
    pub fn calc(&self, ctx: &mut Context) -> (r: Result<bool, Fault>)
        requires
            old(ctx).wf(),
        ensures
            final(ctx).wf(),
            eval_frame(*old(ctx), *final(ctx)),
            match eval_be(*self, old(ctx).variables@, old(ctx).glade@, old(ctx).points as int) {
                Ok(vp) => r == Ok::<bool, Fault>(vp.0) && final(ctx).points == vp.1,
                Err(f) => r == Err::<bool, Fault>(f) && old(ctx).points <= final(ctx).points
                    <= BUDGET,
            },
    {
        match ctx.add_points(COMPARISON_USAGE) {
            Ok(_) => {},
            Err(f) => {
                return Err(f);
            },
        }
        proof {
            assert(old(ctx).points <= ctx.points <= BUDGET);
        }
        let ghost mid1 = *ctx;
        let l = match eval_var_exec(&self.left, self.line, ctx) {
            Ok(v) => v,
            Err(f) => {
                proof {
                    assert(mid1.points <= ctx.points <= BUDGET);
                    assert(old(ctx).points <= ctx.points <= BUDGET);
                }
                return Err(f);
            },
        };
        let ghost mid2 = *ctx;
        proof {
            lemma_eval_ev_points(self.left, self.line as int, mid1.variables@, mid1.glade@, mid1.points as int);
        }
        let r = match eval_var_exec(&self.right, self.line, ctx) {
            Ok(v) => v,
            Err(f) => {
                proof {
                    assert(mid1.points <= mid2.points && mid2.points <= ctx.points <= BUDGET);
                    assert(old(ctx).points <= ctx.points <= BUDGET);
                }
                return Err(f);
            },
        };
        proof {
            lemma_eval_ev_points(self.right, self.line as int, mid2.variables@, mid2.glade@, mid2.points as int);
            assert(old(ctx).points <= mid1.points <= mid2.points <= ctx.points <= BUDGET);
        }
        match self.comparer {
            Comparer::Equal => Ok(l == r),
            Comparer::NotEqual => Ok(l != r),
            Comparer::GreaterThan => Ok(l > r),
            Comparer::SmallerThan => Ok(l < r),
        }
    }
}

// ---------------------------------------------------------------------------
// Parsing: the line grammar, as recursive specifications mirrored by the
// executable recursive-descent parser.
// ---------------------------------------------------------------------------

/// The arithmetic operator a token spells, if any.
pub open spec fn op_of(tok: Seq<char>) -> Option<Operator> {
    if tok == "+"@ {
        Some(Operator::Plus)
    } else if tok == "-"@ {
        Some(Operator::Minus)
    } else if tok == "*"@ {
        Some(Operator::Product)
    } else if tok == "/"@ {
        Some(Operator::Divide)
    } else if tok == "%"@ {
        Some(Operator::Remainder)
    } else {
        None
    }
}

/// The comparator a token spells, if any.
pub open spec fn cmp_of(tok: Seq<char>) -> Option<Comparer> {
    if tok == "=="@ {
        Some(Comparer::Equal)
    } else if tok == "!="@ {
        Some(Comparer::NotEqual)
    } else if tok == ">"@ {
        Some(Comparer::GreaterThan)
    } else if tok == "<"@ {
        Some(Comparer::SmallerThan)
    } else {
        None
    }
}

/// An atom: an integer literal, a declared one-letter variable, or an
/// enabled sensor.
pub open spec fn spec_atom(
    tok: Seq<char>,
    line: int,
    vars: Seq<Option<Option<i32>>>,
    hws: Seq<Hardware>,
) -> Result<ExpressionVar, Fault> {
    if tok.len() > 0 && lex::all_digits(tok) {
        if lex::digits_val(tok) <= i32::MAX {
            Ok(ExpressionVar::Int(lex::digits_val(tok) as i32))
        } else {
            Err(Fault::SyntaxError { line: line as usize })
        }
    } else if tok.len() == 1 {
        let c = tok[0];
        if is_lower(c) && vars[slot_of(c)] is Some {
            Ok(ExpressionVar::Variable(c))
        } else {
            Err(Fault::UndeclaredVar { line: line as usize, name: c })
        }
    } else if tok == "kompas"@ {
        if hw_enabled(hws, Hardware::Kompas) {
            Ok(ExpressionVar::Kompas)
        } else {
            Err(Fault::SensorNotEnabled { line: line as usize })
        }
    } else if tok == "zwOog"@ {
        if hw_enabled(hws, Hardware::ZwOog) {
            Ok(ExpressionVar::ZwOog)
        } else {
            Err(Fault::SensorNotEnabled { line: line as usize })
        }
    } else if tok == "kleurOog"@ {
        if hw_enabled(hws, Hardware::KleurOog) {
            Ok(ExpressionVar::KleurOog)
        } else {
            Err(Fault::SensorNotEnabled { line: line as usize })
        }
    } else {
        Err(Fault::SyntaxError { line: line as usize })
    }
}

/// A right-hand side over the token range `[lo, hi)`: a single atom, or a
/// left-associative chain of two-operand expressions whose rightmost operand
/// is an atom.
pub open spec fn spec_rhs(
    toks: Seq<Seq<char>>,
    lo: int,
    hi: int,
    line: int,
    vars: Seq<Option<Option<i32>>>,
    hws: Seq<Hardware>,
) -> Result<ExpressionVar, Fault>
    decreases hi - lo,
{
    if hi - lo == 1 {
        spec_atom(toks[lo], line, vars, hws)
    } else if hi - lo <= 2 {
        Err(Fault::SyntaxError { line: line as usize })
    } else {
        match op_of(toks[hi - 2]) {
            None => Err(Fault::SyntaxError { line: line as usize }),
            Some(op) => match spec_rhs(toks, lo, hi - 2, line, vars, hws) {
                Err(f) => Err(f),
                Ok(l) => match spec_atom(toks[hi - 1], line, vars, hws) {
                    Err(f) => Err(f),
                    Ok(rr) => Ok(
                        ExpressionVar::Expression(
                            Box::new(
                                IntExpression {
                                    left: l,
                                    operator: op,
                                    right: rr,
                                    line: line as usize,
                                },
                            ),
                        ),
                    ),
                },
            },
        }
    }
}

/// A comparison over the token range `[lo, hi)`: an atom, a comparator, and
/// a right-hand side.
pub open spec fn spec_bexpr(
    toks: Seq<Seq<char>>,
    lo: int,
    hi: int,
    line: int,
    vars: Seq<Option<Option<i32>>>,
    hws: Seq<Hardware>,
) -> Result<BoolExpression, Fault> {
    if hi - lo < 3 {
        Err(Fault::SyntaxError { line: line as usize })
    } else {
        match cmp_of(toks[lo + 1]) {
            None => Err(Fault::SyntaxError { line: line as usize }),
            Some(cmp) => match spec_atom(toks[lo], line, vars, hws) {
                Err(f) => Err(f),
                Ok(l) => match spec_rhs(toks, lo + 2, hi, line, vars, hws) {
                    Err(f) => Err(f),
                    Ok(rr) => Ok(
                        BoolExpression {
                            left: l,
                            comparer: cmp,
                            right: rr,
                            line: line as usize,
                        },
                    ),
                },
            },
        }
    }
}

/// `s` with trailing whitespace and braces removed.
pub open spec fn strip_tail_braces(s: Seq<char>) -> Seq<char>
    decreases s.len(),
{
    if s.len() > 0 && (lex::is_space(s[s.len() - 1]) || s[s.len() - 1] == '}' || s[s.len() - 1]
        == '{') {
        strip_tail_braces(s.drop_last())
    } else {
        s
    }
}

/// A line that ends with a comparator or an operator missing its operand
/// (whitespace and braces after it notwithstanding).
pub open spec fn is_hanging(t: Seq<char>) -> bool {
    let u = strip_tail_braces(t);
    u.len() > 0 && {
        let c = u[u.len() - 1];
        c == '>' || c == '<' || c == '+' || c == '-' || c == '*' || c == '/' || c == '%' || (c
            == '=' && u.len() >= 2 && (u[u.len() - 2] == '=' || u[u.len() - 2] == '!'))
    }
}

/// A closing brace sharing its line with other content.
pub open spec fn is_stray(t: Seq<char>) -> bool {
    t.len() > 1 && t[t.len() - 1] == '}'
}

/// A well-formed declaration line: `gebruik` followed by one sensor name or
/// one lowercase letter.
pub open spec fn valid_decl(toks: Seq<Seq<char>>) -> bool {
    toks.len() == 2 && toks[0] == "gebruik"@ && (toks[1] == "kompas"@ || toks[1] == "zwOog"@
        || toks[1] == "kleurOog"@ || (toks[1].len() == 1 && is_lower(toks[1][0])))
}

/// The index of the line that closes a block opened just before `from`,
/// scanning with the source's brace-counting rules: a closing brace ends the
/// innermost block on its line, an opening brace opens one, and an
/// `} anders {` line at depth 1 belongs to its `als`. Yields `hi` when the
/// block never closes.
pub open spec fn spec_find_end(lines: Seq<Seq<char>>, from: int, hi: int, depth: int) -> int
    decreases hi - from,
{
    if from >= hi {
        hi
    } else {
        let l = lines[from];
        if trimmed(l) == "} anders {"@ && depth == 1 {
            spec_find_end(lines, from + 1, hi, depth)
        } else {
            let d1 = if lex::contains_c(l, '}') {
                depth - 1
            } else {
                depth
            };
            if lex::contains_c(l, '}') && d1 == 0 {
                from
            } else {
                let d2 = if lex::contains_c(l, '{') {
                    d1 + 1
                } else {
                    d1
                };
                spec_find_end(lines, from + 1, hi, d2)
            }
        }
    }
}

/// The first `} anders {` line at depth 1 before the block closes, if any.
pub open spec fn spec_find_else(lines: Seq<Seq<char>>, from: int, hi: int, depth: int) -> Option<
    int,
>
    decreases hi - from,
{
    if from >= hi {
        None
    } else {
        let l = lines[from];
        if trimmed(l) == "} anders {"@ && depth == 1 {
            Some(from)
        } else {
            let d1 = if lex::contains_c(l, '}') {
                depth - 1
            } else {
                depth
            };
            if lex::contains_c(l, '}') && d1 == 0 {
                None
            } else {
                let d2 = if lex::contains_c(l, '{') {
                    d1 + 1
                } else {
                    d1
                };
                spec_find_else(lines, from + 1, hi, d2)
            }
        }
    }
}

/// [`spec_find_end`] stays inside the scanned range.
pub proof fn lemma_find_end_bounds(lines: Seq<Seq<char>>, from: int, hi: int, depth: int)
    requires
        from <= hi,
    ensures
        from <= spec_find_end(lines, from, hi, depth) <= hi,
    decreases hi - from,
{
    if from < hi {
        lemma_find_end_bounds(lines, from + 1, hi, depth);
        let l = lines[from];
        if !(trimmed(l) == "} anders {"@ && depth == 1) {
            let d1 = if lex::contains_c(l, '}') {
                depth - 1
            } else {
                depth
            };
            if !(lex::contains_c(l, '}') && d1 == 0) {
                let d2 = if lex::contains_c(l, '{') {
                    d1 + 1
                } else {
                    d1
                };
                lemma_find_end_bounds(lines, from + 1, hi, d2);
            }
        }
    }
}

/// [`spec_find_else`] stays inside the scanned range.
pub proof fn lemma_find_else_bounds(lines: Seq<Seq<char>>, from: int, hi: int, depth: int)
    requires
        from <= hi,
    ensures
        spec_find_else(lines, from, hi, depth) matches Some(m) ==> from <= m < hi,
    decreases hi - from,
{
    if from < hi {
        let l = lines[from];
        if !(trimmed(l) == "} anders {"@ && depth == 1) {
            let d1 = if lex::contains_c(l, '}') {
                depth - 1
            } else {
                depth
            };
            if !(lex::contains_c(l, '}') && d1 == 0) {
                let d2 = if lex::contains_c(l, '{') {
                    d1 + 1
                } else {
                    d1
                };
                lemma_find_else_bounds(lines, from + 1, hi, d2);
            }
        }
    }
}

/// The declaration pass: scan every line for `gebruik` declarations,
/// enabling sensors and declaring variables, charging the hardware weight of
/// each declaration.
pub open spec fn spec_decls(
    lines: Seq<Seq<char>>,
    i: int,
    vars: Seq<Option<Option<i32>>>,
    hws: Seq<Hardware>,
    pts: int,
) -> Result<(Seq<Option<Option<i32>>>, Seq<Hardware>, int), Fault>
    decreases lines.len() - i,
{
    if i >= lines.len() {
        Ok((vars, hws, pts))
    } else {
        let toks = lex::split_on(trimmed(lines[i]), ' ');
        if valid_decl(toks) {
            let name = toks[1];
            if name == "kompas"@ {
                match spec_charge(pts, KOMPAS_HARDWARE as int) {
                    None => Err(Fault::BudgetExceeded),
                    Some(p2) => spec_decls(lines, i + 1, vars, hws.push(Hardware::Kompas), p2),
                }
            } else if name == "zwOog"@ {
                match spec_charge(pts, ZWOOG_HARDWARE as int) {
                    None => Err(Fault::BudgetExceeded),
                    Some(p2) => spec_decls(lines, i + 1, vars, hws.push(Hardware::ZwOog), p2),
                }
            } else if name == "kleurOog"@ {
                match spec_charge(pts, KLEUROOG_HARDWARE as int) {
                    None => Err(Fault::BudgetExceeded),
                    Some(p2) => spec_decls(lines, i + 1, vars, hws.push(Hardware::KleurOog), p2),
                }
            } else {
                match spec_charge(pts, VAR_HARDWARE as int) {
                    None => Err(Fault::BudgetExceeded),
                    Some(p2) => spec_decls(
                        lines,
                        i + 1,
                        vars.update(slot_of(name[0]), Some(None)),
                        hws,
                        p2,
                    ),
                }
            }
        } else {
            spec_decls(lines, i + 1, vars, hws, pts)
        }
    }
}

/// The body pass over the line range `[lo, hi)`: one statement per line,
/// blocks extracted by brace counting and parsed recursively, every compiled
/// statement charged at parse time. Yields the statements and the ledger.
pub open spec fn spec_block(
    lines: Seq<Seq<char>>,
    lo: int,
    hi: int,
    vars: Seq<Option<Option<i32>>>,
    hws: Seq<Hardware>,
    pts: int,
) -> Result<(Seq<StmtV>, int), Fault>
    decreases hi - lo, 2int,
{
    if lo >= hi {
        Ok((Seq::empty(), pts))
    } else {
        let ln = lo + 1;
        let t = trimmed(lines[lo]);
        let toks = lex::split_on(t, ' ');
        if t.len() == 0 {
            spec_block(lines, lo + 1, hi, vars, hws, pts)
        } else if is_stray(t) {
            Err(Fault::StrayBrace { line: ln as usize })
        } else if is_hanging(t) {
            Err(Fault::HangingOp { line: ln as usize })
        } else if t == "draaiLinks"@ || t == "draaiRechts"@ || t == "stapVooruit"@ || t
            == "stapAchteruit"@ {
            match spec_charge(pts, ACTION_SOFTWARE as int) {
                None => Err(Fault::BudgetExceeded),
                Some(p2) => match spec_block(lines, lo + 1, hi, vars, hws, p2) {
                    Err(f) => Err(f),
                    Ok(rest) => Ok(
                        (
                            seq![
                                if t == "draaiLinks"@ {
                                    StmtV::TurnLeft
                                } else if t == "draaiRechts"@ {
                                    StmtV::TurnRight
                                } else if t == "stapVooruit"@ {
                                    StmtV::StepForwards
                                } else {
                                    StmtV::StepBackwards
                                }
                            ] + rest.0,
                            rest.1,
                        ),
                    ),
                },
            }
        } else if valid_decl(toks) {
            spec_block(lines, lo + 1, hi, vars, hws, pts)
        } else if toks.len() >= 2 && toks[0].len() == 1 && is_lower(toks[0][0]) && toks[1]
            == "="@ {
            match spec_charge(pts, ASSIGNMENT_SOFTWARE as int) {
                None => Err(Fault::BudgetExceeded),
                Some(p2) => match spec_rhs(toks, 2, toks.len() as int, ln, vars, hws) {
                    Err(f) => Err(f),
                    Ok(rhs) => match spec_block(lines, lo + 1, hi, vars, hws, p2) {
                        Err(f) => Err(f),
                        Ok(rest) => Ok(
                            (
                                seq![StmtV::Assign { var: toks[0][0], rhs: rhs, line: ln }]
                                    + rest.0,
                                rest.1,
                            ),
                        ),
                    },
                },
            }
        } else if toks[0] == "print"@ {
            if toks.len() == 2 {
                match spec_atom(toks[1], ln, vars, hws) {
                    Err(f) => Err(f),
                    Ok(e) => match spec_block(lines, lo + 1, hi, vars, hws, pts) {
                        Err(f) => Err(f),
                        Ok(rest) => Ok((seq![StmtV::Print { e: e, line: ln }] + rest.0, rest.1)),
                    },
                }
            } else {
                Err(Fault::SyntaxError { line: ln as usize })
            }
        } else if toks[0] == "zolang"@ {
            let j0 = spec_find_end(lines, lo + 1, hi, 1);
            let j = if j0 < lo + 1 {
                lo + 1
            } else if j0 > hi {
                hi
            } else {
                j0
            };
            let k = if j >= hi {
                hi
            } else {
                j + 1
            };
            match spec_zolang(lines, lo, j, vars, hws, pts) {
                Err(f) => Err(f),
                Ok(st) => match spec_block(lines, k, hi, vars, hws, st.1) {
                    Err(f) => Err(f),
                    Ok(rest) => Ok((seq![st.0] + rest.0, rest.1)),
                },
            }
        } else if toks[0] == "als"@ {
            let j0 = spec_find_end(lines, lo + 1, hi, 1);
            let j = if j0 < lo + 1 {
                lo + 1
            } else if j0 > hi {
                hi
            } else {
                j0
            };
            let k = if j >= hi {
                hi
            } else {
                j + 1
            };
            match spec_als(lines, lo, j, vars, hws, pts) {
                Err(f) => Err(f),
                Ok(st) => match spec_block(lines, k, hi, vars, hws, st.1) {
                    Err(f) => Err(f),
                    Ok(rest) => Ok((seq![st.0] + rest.0, rest.1)),
                },
            }
        } else {
            Err(Fault::SyntaxError { line: ln as usize })
        }
    }
}

/// One `zolang` statement spanning lines `[i, j)`: the loop weight, the
/// header's condition, and the recursively parsed body.
pub open spec fn spec_zolang(
    lines: Seq<Seq<char>>,
    i: int,
    j: int,
    vars: Seq<Option<Option<i32>>>,
    hws: Seq<Hardware>,
    pts: int,
) -> Result<(StmtV, int), Fault>
    decreases j - i, 0int,
        when i < j
{
    let ln = i + 1;
    let toks = lex::split_on(trimmed(lines[i]), ' ');
    match spec_charge(pts, ZOLANG_SOFTWARE as int) {
        None => Err(Fault::BudgetExceeded),
        Some(p1) => {
            if toks.len() >= 2 && toks[toks.len() - 1] == "{"@ {
                match spec_bexpr(toks, 1, toks.len() - 1, ln, vars, hws) {
                    Err(f) => Err(f),
                    Ok(cond) => match spec_block(lines, i + 1, j, vars, hws, p1) {
                        Err(f) => Err(f),
                        Ok(body) => Ok(
                            (StmtV::Zolang { cond: cond, body: body.0, line: ln }, body.1),
                        ),
                    },
                }
            } else {
                Err(Fault::SyntaxError { line: ln as usize })
            }
        },
    }
}

/// One `als` statement spanning lines `[i, j)`: the branch weight, then —
/// in the order the compiler works — the `anders` branch, the header's
/// condition, and the `als` branch.
pub open spec fn spec_als(
    lines: Seq<Seq<char>>,
    i: int,
    j: int,
    vars: Seq<Option<Option<i32>>>,
    hws: Seq<Hardware>,
    pts: int,
) -> Result<(StmtV, int), Fault>
    decreases j - i, 1int,
        when i < j
{
    let ln = i + 1;
    let toks = lex::split_on(trimmed(lines[i]), ' ');
    match spec_charge(pts, ALS_SOFTWARE as int) {
        None => Err(Fault::BudgetExceeded),
        Some(p1) => {
            if toks.len() >= 2 && toks[toks.len() - 1] == "{"@ {
                let m0 = spec_find_else(lines, i + 1, j, 1);
                let m = match m0 {
                    Some(mm) => if mm < i + 1 {
                        i + 1
                    } else if mm > j {
                        j
                    } else {
                        mm
                    },
                    None => j,
                };
                let else_r: Result<(Option<Seq<StmtV>>, int), Fault> = if m0 is Some && m + 1
                    <= j && m + 1 < j {
                    match spec_block(lines, m + 1, j, vars, hws, p1) {
                        Err(f) => Err(f),
                        Ok(eb) => Ok((Some(eb.0), eb.1)),
                    }
                } else {
                    Ok((None, p1))
                };
                match else_r {
                    Err(f) => Err(f),
                    Ok(ep) => match spec_bexpr(toks, 1, toks.len() - 1, ln, vars, hws) {
                        Err(f) => Err(f),
                        Ok(cond) => match spec_block(lines, i + 1, m, vars, hws, ep.1) {
                            Err(f) => Err(f),
                            Ok(ib) => Ok(
                                (
                                    StmtV::Als {
                                        cond: cond,
                                        if_body: ib.0,
                                        else_body: ep.0,
                                        line: ln,
                                    },
                                    ib.1,
                                ),
                            ),
                        },
                    },
                }
            } else {
                Err(Fault::SyntaxError { line: ln as usize })
            }
        },
    }
}

/// Executable test for [`op_of`].
fn op_of_exec(tok: &Vec<char>) -> (r: Option<Operator>)
    ensures
        r == op_of(tok@),
{
    if lex::eq_str(tok, "+") {
        Some(Operator::Plus)
    } else if lex::eq_str(tok, "-") {
        Some(Operator::Minus)
    } else if lex::eq_str(tok, "*") {
        Some(Operator::Product)
    } else if lex::eq_str(tok, "/") {
        Some(Operator::Divide)
    } else if lex::eq_str(tok, "%") {
        Some(Operator::Remainder)
    } else {
        None
    }
}

/// Executable test for [`cmp_of`].
fn cmp_of_exec(tok: &Vec<char>) -> (r: Option<Comparer>)
    ensures
        r == cmp_of(tok@),
{
    if lex::eq_str(tok, "==") {
        Some(Comparer::Equal)
    } else if lex::eq_str(tok, "!=") {
        Some(Comparer::NotEqual)
    } else if lex::eq_str(tok, ">") {
        Some(Comparer::GreaterThan)
    } else if lex::eq_str(tok, "<") {
        Some(Comparer::SmallerThan)
    } else {
        None
    }
}

/// Whether `c` ends a stripped line as a binary-operator tail.
fn tail_char_bh(c: char) -> (r: bool)
    ensures
        r == (lex::is_space(c) || c == '}' || c == '{'),
{
    lex::is_space_exec(c) || c == '}' || c == '{'
}

proof fn lemma_strip_tail_braces(s: Seq<char>, e: int)
    requires
        0 <= e <= s.len(),
        forall|j: int|
            e <= j < s.len() ==> (lex::is_space(#[trigger] s[j]) || s[j] == '}' || s[j] == '{'),
        e > 0 ==> !(lex::is_space(s[e - 1]) || s[e - 1] == '}' || s[e - 1] == '{'),
    ensures
        strip_tail_braces(s) == s.subrange(0, e),
    decreases s.len(),
{
    if s.len() == 0 {
        assert(strip_tail_braces(s) =~= s.subrange(0, e));
    } else if e == s.len() {
        assert(strip_tail_braces(s) =~= s.subrange(0, e));
    } else {
        lemma_strip_tail_braces(s.drop_last(), e);
        assert(s.drop_last().subrange(0, e) =~= s.subrange(0, e));
    }
}

/// Executable test for [`is_hanging`].
fn is_hanging_exec(t: &Vec<char>) -> (r: bool)
    ensures
        r == is_hanging(t@),
{
    let mut e: usize = t.len();
    while e > 0 && tail_char_bh(t[e - 1])
        invariant
            e <= t@.len(),
            forall|j: int|
                e <= j < t@.len() ==> (lex::is_space(#[trigger] t@[j]) || t@[j] == '}' || t@[j]
                    == '{'),
        decreases e,
    {
        e = e - 1;
    }
    proof {
        lemma_strip_tail_braces(t@, e as int);
    }
    if e == 0 {
        return false;
    }
    let c = t[e - 1];
    if c == '>' || c == '<' || c == '+' || c == '-' || c == '*' || c == '/' || c == '%' {
        true
    } else if c == '=' && e >= 2 && (t[e - 2] == '=' || t[e - 2] == '!') {
        true
    } else {
        false
    }
}

/// Parse one atom against the declarations, mirroring [`spec_atom`].
fn parse_atom(tok: &Vec<char>, line: usize, ctx: &Context) -> (r: Result<ExpressionVar, Fault>)
    requires
        ctx.wf(),
    ensures
        r == spec_atom(tok@, line as int, ctx.variables@, ctx.useable@),
{
    let ghost sp = spec_atom(tok@, line as int, ctx.variables@, ctx.useable@);
    if tok.len() > 0 && lex::all_digits_exec(tok) {
        match lex::parse_u64(tok) {
            Some(v) => {
                if v <= i32::MAX as u64 {
                    proof {
                        assert(sp is Ok);
                    }
                    Ok(ExpressionVar::Int(v as i32))
                } else {
                    proof {
                        assert(sp is Err);
                    }
                    Err(Fault::SyntaxError { line })
                }
            },
            None => {
                proof {
                    assert(sp is Err);
                }
                Err(Fault::SyntaxError { line })
            },
        }
    } else if tok.len() == 1 {
        let c = tok[0];
        let rr: Result<ExpressionVar, Fault> = if (c as u32) >= ('a' as u32) && (c as u32)
            <= ('z' as u32) {
            let idx = (c as u32 - 'a' as u32) as usize;
            match ctx.variables[idx] {
                Some(_) => Ok(ExpressionVar::Variable(c)),
                None => Err(Fault::UndeclaredVar { line, name: c }),
            }
        } else {
            Err(Fault::UndeclaredVar { line, name: c })
        };
        proof {
            assert(rr == sp);
        }
        rr
    } else if lex::eq_str(tok, "kompas") {
        let rr: Result<ExpressionVar, Fault> = if has_hw(&ctx.useable, Hardware::Kompas) {
            Ok(ExpressionVar::Kompas)
        } else {
            Err(Fault::SensorNotEnabled { line })
        };
        proof {
            assert(rr == sp);
        }
        rr
    } else if lex::eq_str(tok, "zwOog") {
        let rr: Result<ExpressionVar, Fault> = if has_hw(&ctx.useable, Hardware::ZwOog) {
            Ok(ExpressionVar::ZwOog)
        } else {
            Err(Fault::SensorNotEnabled { line })
        };
        proof {
            assert(rr == sp);
        }
        rr
    } else if lex::eq_str(tok, "kleurOog") {
        let rr: Result<ExpressionVar, Fault> = if has_hw(&ctx.useable, Hardware::KleurOog) {
            Ok(ExpressionVar::KleurOog)
        } else {
            Err(Fault::SensorNotEnabled { line })
        };
        proof {
            assert(rr == sp);
        }
        rr
    } else {
        proof {
            assert(sp == Err::<ExpressionVar, Fault>(Fault::SyntaxError { line: line as usize }));
        }
        Err(Fault::SyntaxError { line })
    }
}

impl ExpressionVar {
    /// Parse a right-hand side from the token range `[lo, hi)`, mirroring
    /// [`spec_rhs`].
    pub fn parse(toks: &Vec<Vec<char>>, lo: usize, hi: usize, line: usize, ctx: &Context) -> (r:
        Result<ExpressionVar, Fault>)
        requires
            ctx.wf(),
            lo <= hi <= toks@.len(),
        ensures
            r == spec_rhs(
                toks.deep_view(),
                lo as int,
                hi as int,
                line as int,
                ctx.variables@,
                ctx.useable@,
            ),
        decreases hi - lo, 1int,
    {
        if hi - lo == 1 {
            proof {
                assert(toks.deep_view()[lo as int] == toks@[lo as int]@);
            }
            parse_atom(&toks[lo], line, ctx)
        } else if hi - lo <= 2 {
            Err(Fault::SyntaxError { line })
        } else {
            match IntExpression::parse(toks, lo, hi, line, ctx) {
                Ok(ie) => Ok(ExpressionVar::Expression(Box::new(ie))),
                Err(f) => Err(f),
            }
        }
    }
}

impl IntExpression {
    /// Parse a two-operand expression whose rightmost operand is the last
    /// token of `[lo, hi)` and whose left part is the rest.
    pub fn parse(toks: &Vec<Vec<char>>, lo: usize, hi: usize, line: usize, ctx: &Context) -> (r:
        Result<IntExpression, Fault>)
        requires
            ctx.wf(),
            lo <= hi <= toks@.len(),
            hi - lo >= 3,
        ensures
            ({
                let tv = toks.deep_view();
                match op_of(tv[hi - 2]) {
                    None => r == Err::<IntExpression, Fault>(
                        Fault::SyntaxError { line: line as usize },
                    ),
                    Some(op) => match spec_rhs(
                        tv,
                        lo as int,
                        hi - 2,
                        line as int,
                        ctx.variables@,
                        ctx.useable@,
                    ) {
                        Err(f) => r == Err::<IntExpression, Fault>(f),
                        Ok(l) => match spec_atom(
                            tv[hi - 1],
                            line as int,
                            ctx.variables@,
                            ctx.useable@,
                        ) {
                            Err(f) => r == Err::<IntExpression, Fault>(f),
                            Ok(rr) => r == Ok::<IntExpression, Fault>(
                                IntExpression { left: l, operator: op, right: rr, line },
                            ),
                        },
                    },
                }
            }),
        decreases hi - lo, 0int,
    {
        proof {
            assert(toks.deep_view()[hi - 2] == toks@[hi - 2]@);
            assert(toks.deep_view()[hi - 1] == toks@[hi - 1]@);
        }
        let op = match op_of_exec(&toks[hi - 2]) {
            Some(op) => op,
            None => {
                return Err(Fault::SyntaxError { line });
            },
        };
        let l = match ExpressionVar::parse(toks, lo, hi - 2, line, ctx) {
            Ok(l) => l,
            Err(f) => {
                return Err(f);
            },
        };
        let rr = match parse_atom(&toks[hi - 1], line, ctx) {
            Ok(rr) => rr,
            Err(f) => {
                return Err(f);
            },
        };
        Ok(IntExpression { left: l, operator: op, right: rr, line })
    }
}

impl BoolExpression {
    /// Parse a comparison from the token range `[lo, hi)`, mirroring
    /// [`spec_bexpr`].
    pub fn parse(toks: &Vec<Vec<char>>, lo: usize, hi: usize, line: usize, ctx: &Context) -> (r:
        Result<BoolExpression, Fault>)
        requires
            ctx.wf(),
            lo <= hi <= toks@.len(),
        ensures
            r == spec_bexpr(
                toks.deep_view(),
                lo as int,
                hi as int,
                line as int,
                ctx.variables@,
                ctx.useable@,
            ),
    {
        if hi - lo < 3 {
            return Err(Fault::SyntaxError { line });
        }
        proof {
            assert(toks.deep_view()[lo as int] == toks@[lo as int]@);
            assert(toks.deep_view()[lo + 1] == toks@[lo + 1]@);
        }
        let cmp = match cmp_of_exec(&toks[lo + 1]) {
            Some(cmp) => cmp,
            None => {
                return Err(Fault::SyntaxError { line });
            },
        };
        let l = match parse_atom(&toks[lo], line, ctx) {
            Ok(l) => l,
            Err(f) => {
                return Err(f);
            },
        };
        let rr = match ExpressionVar::parse(toks, lo + 2, hi, line, ctx) {
            Ok(rr) => rr,
            Err(f) => {
                return Err(f);
            },
        };
        Ok(BoolExpression { left: l, comparer: cmp, right: rr, line })
    }
}

/// Find the line that closes the block opened just before `from`, mirroring
/// [`spec_find_end`] (clamped into `[from, hi]`).
fn find_block_end(lines: &Vec<Vec<char>>, from: usize, hi: usize) -> (r: usize)
    requires
        from <= hi <= lines@.len(),
    ensures
        from <= r <= hi,
        r as int == spec_find_end(lines.deep_view(), from as int, hi as int, 1),
{
    let ghost lv = lines.deep_view();
    let mut cur: usize = from;
    let mut depth: i128 = 1;
    while cur < hi
        invariant
            from <= cur <= hi <= lines@.len(),
            lv == lines.deep_view(),
            1 <= depth <= 1 + cur - from,
            spec_find_end(lv, from as int, hi as int, 1) == spec_find_end(
                lv,
                cur as int,
                hi as int,
                depth as int,
            ),
        decreases hi - cur,
    {
        proof {
            assert(lv[cur as int] == lines@[cur as int]@);
        }
        let t = lex::trim(&lines[cur]);
        if lex::eq_str(&t, "} anders {") && depth == 1 {
            cur = cur + 1;
            continue;
        }
        let has_close = lex::contains_char(&lines[cur], '}');
        let has_open = lex::contains_char(&lines[cur], '{');
        if has_close {
            depth = depth - 1;
            if depth == 0 {
                return cur;
            }
        }
        if has_open {
            depth = depth + 1;
        }
        cur = cur + 1;
    }
    proof {
        lemma_find_end_bounds(lv, from as int, hi as int, 1);
    }
    hi
}

/// Find the first `} anders {` line at depth 1 before the block closes,
/// mirroring [`spec_find_else`].
fn find_else(lines: &Vec<Vec<char>>, from: usize, hi: usize) -> (r: Option<usize>)
    requires
        from <= hi <= lines@.len(),
    ensures
        match r {
            Some(m) => from <= m < hi && Some(m as int) == spec_find_else(
                lines.deep_view(),
                from as int,
                hi as int,
                1,
            ),
            None => spec_find_else(lines.deep_view(), from as int, hi as int, 1) is None,
        },
{
    let ghost lv = lines.deep_view();
    let mut cur: usize = from;
    let mut depth: i128 = 1;
    while cur < hi
        invariant
            from <= cur <= hi <= lines@.len(),
            lv == lines.deep_view(),
            1 <= depth <= 1 + cur - from,
            spec_find_else(lv, from as int, hi as int, 1) == spec_find_else(
                lv,
                cur as int,
                hi as int,
                depth as int,
            ),
        decreases hi - cur,
    {
        proof {
            assert(lv[cur as int] == lines@[cur as int]@);
        }
        let t = lex::trim(&lines[cur]);
        if lex::eq_str(&t, "} anders {") && depth == 1 {
            return Some(cur);
        }
        let has_close = lex::contains_char(&lines[cur], '}');
        let has_open = lex::contains_char(&lines[cur], '{');
        if has_close {
            depth = depth - 1;
            if depth == 0 {
                return None;
            }
        }
        if has_open {
            depth = depth + 1;
        }
        cur = cur + 1;
    }
    None
}

/// Prepending a statement prepends its value.
proof fn lemma_stmts_view_cons(x: LangObject, objs: Seq<LangObject>)
    ensures
        stmts_view(objs.insert(0, x)) == seq![stmt_view(x)] + stmts_view(objs),
{
    let w = objs.insert(0, x);
    assert(w.len() == objs.len() + 1);
    assert(w[0] == x);
    assert(w.drop_first() =~= objs);
    assert(stmts_view(w) == seq![stmt_view(w[0])] + stmts_view(w.drop_first()));
    assert(stmts_view(objs.insert(0, x)) =~= seq![stmt_view(x)] + stmts_view(objs));
}

/// Wrap an assignment as a statement.
fn make_assign(var: char, expression: ExpressionVar, line: usize) -> (r: LangObject)
    ensures
        stmt_view(r) == (StmtV::Assign { var: var, rhs: expression, line: line as int }),
{
    LangObject::Assignment(Assignment { var, expression, line })
}

/// Wrap a print as a statement.
fn make_print(expression: ExpressionVar, line: usize) -> (r: LangObject)
    ensures
        stmt_view(r) == (StmtV::Print { e: expression, line: line as int }),
{
    LangObject::Print(Print { expression, line })
}

/// Wrap a loop as a statement.
fn make_zolang(expression: BoolExpression, block: CodeBlock, line: usize) -> (r: LangObject)
    ensures
        stmt_view(r) == (StmtV::Zolang {
            cond: expression,
            body: stmts_view(block.objects@),
            line: line as int,
        }),
{
    LangObject::Zolang(Zolang { expression, block, line })
}

/// Wrap a conditional as a statement.
fn make_als(
    expression: BoolExpression,
    if_block: CodeBlock,
    else_block: Option<CodeBlock>,
    line: usize,
) -> (r: LangObject)
    ensures
        stmt_view(r) == (StmtV::Als {
            cond: expression,
            if_body: stmts_view(if_block.objects@),
            else_body: match else_block {
                Some(eb) => Some(stmts_view(eb.objects@)),
                None => None,
            },
            line: line as int,
        }),
{
    LangObject::Als(Als { expression, if_block, else_block, line })
}

/// The parts of the context that statement parsing leaves alone (it only
/// charges the ledger).
pub open spec fn parse_frame(pre: Context, post: Context) -> bool {
    eval_frame(pre, post)
}

impl Assignment {
    /// Compile an assignment line from its tokens: charge the statement
    /// weight, then parse the right-hand side.
    pub fn parse(toks: &Vec<Vec<char>>, line: usize, ctx: &mut Context) -> (r: Result<
        LangObject,
        Fault,
    >)
        requires
            old(ctx).wf(),
            toks@.len() >= 2,
            toks@[0]@.len() == 1,
        ensures
            final(ctx).wf(),
            parse_frame(*old(ctx), *final(ctx)),
            match spec_charge(old(ctx).points as int, ASSIGNMENT_SOFTWARE as int) {
                None => r == Err::<LangObject, Fault>(Fault::BudgetExceeded) && final(ctx).points
                    == old(ctx).points,
                Some(p2) => match spec_rhs(
                    toks.deep_view(),
                    2,
                    toks@.len() as int,
                    line as int,
                    old(ctx).variables@,
                    old(ctx).useable@,
                ) {
                    Err(f) => r == Err::<LangObject, Fault>(f) && final(ctx).points == p2,
                    Ok(rhs) => (r matches Ok(o) && stmt_view(o) == (StmtV::Assign {
                        var: toks@[0]@[0],
                        rhs: rhs,
                        line: line as int,
                    })) && final(ctx).points == p2,
                },
            },
    {
        match ctx.add_points(ASSIGNMENT_SOFTWARE) {
            Ok(_) => {},
            Err(f) => {
                return Err(f);
            },
        }
        let expression = match ExpressionVar::parse(toks, 2, toks.len(), line, ctx) {
            Ok(e) => e,
            Err(f) => {
                return Err(f);
            },
        };
        let var = toks[0][0];
        proof {
            assert(var == toks@[0]@[0]);
        }
        Ok(make_assign(var, expression, line))
    }
}

impl Print {
    /// Compile a print line from its tokens: exactly one atom, no charge.
    pub fn parse(toks: &Vec<Vec<char>>, line: usize, ctx: &Context) -> (r: Result<
        LangObject,
        Fault,
    >)
        requires
            ctx.wf(),
            toks@.len() >= 1,
        ensures
            if toks@.len() == 2 {
                match spec_atom(
                    toks.deep_view()[1],
                    line as int,
                    ctx.variables@,
                    ctx.useable@,
                ) {
                    Err(f) => r == Err::<LangObject, Fault>(f),
                    Ok(e) => r matches Ok(o) && stmt_view(o) == (StmtV::Print {
                        e: e,
                        line: line as int,
                    }),
                }
            } else {
                r == Err::<LangObject, Fault>(Fault::SyntaxError { line: line as usize })
            },
    {
        if toks.len() != 2 {
            return Err(Fault::SyntaxError { line });
        }
        proof {
            assert(toks.deep_view()[1] == toks@[1]@);
        }
        let expression = match parse_atom(&toks[1], line, ctx) {
            Ok(e) => e,
            Err(f) => {
                return Err(f);
            },
        };
        Ok(make_print(expression, line))
    }
}

impl Zolang {
    /// Compile a `zolang` statement spanning lines `[i, j)`, mirroring
    /// [`spec_zolang`].
    pub fn parse(lines: &Vec<Vec<char>>, i: usize, j: usize, ctx: &mut Context) -> (r: Result<
        LangObject,
        Fault,
    >)
        requires
            old(ctx).wf(),
            i < j <= lines@.len(),
        ensures
            final(ctx).wf(),
            parse_frame(*old(ctx), *final(ctx)),
            match spec_zolang(
                lines.deep_view(),
                i as int,
                j as int,
                old(ctx).variables@,
                old(ctx).useable@,
                old(ctx).points as int,
            ) {
                Err(f) => r == Err::<LangObject, Fault>(f),
                Ok(st) => (r matches Ok(o) && stmt_view(o) == st.0) && final(ctx).points == st.1,
            },
        decreases j - i, 0int,
    {
        proof {
            assert(lines.deep_view()[i as int] == lines@[i as int]@);
        }
        match ctx.add_points(ZOLANG_SOFTWARE) {
            Ok(_) => {},
            Err(f) => {
                return Err(f);
            },
        }
        let t = lex::trim(&lines[i]);
        let toks = lex::split_char(&t, ' ');
        if !(toks.len() >= 2 && lex::eq_str(&toks[toks.len() - 1], "{")) {
            proof {
                assert(toks.deep_view()[toks@.len() - 1] == toks@[toks@.len() - 1]@);
            }
            return Err(Fault::SyntaxError { line: i + 1 });
        }
        proof {
            assert(toks.deep_view()[toks@.len() - 1] == toks@[toks@.len() - 1]@);
        }
        let cond = match BoolExpression::parse(&toks, 1, toks.len() - 1, i + 1, ctx) {
            Ok(c) => c,
            Err(f) => {
                return Err(f);
            },
        };
        let block = match CodeBlock::parse(lines, i + 1, j, ctx) {
            Ok(b) => b,
            Err(f) => {
                return Err(f);
            },
        };
        Ok(make_zolang(cond, block, i + 1))
    }
}

impl Als {
    /// Compile an `als` statement spanning lines `[i, j)`, mirroring
    /// [`spec_als`]: the `anders` branch is compiled first, then the
    /// condition, then the `als` branch.
    #[verifier::rlimit(100)]
    #[verifier::spinoff_prover]
    pub fn parse(lines: &Vec<Vec<char>>, i: usize, j: usize, ctx: &mut Context) -> (r: Result<
        LangObject,
        Fault,
    >)
        requires
            old(ctx).wf(),
            i < j <= lines@.len(),
        ensures
            final(ctx).wf(),
            parse_frame(*old(ctx), *final(ctx)),
            match spec_als(
                lines.deep_view(),
                i as int,
                j as int,
                old(ctx).variables@,
                old(ctx).useable@,
                old(ctx).points as int,
            ) {
                Err(f) => r == Err::<LangObject, Fault>(f),
                Ok(st) => (r matches Ok(o) && stmt_view(o) == st.0) && final(ctx).points == st.1,
            },
        decreases j - i, 1int,
    {
        proof {
            assert(lines.deep_view()[i as int] == lines@[i as int]@);
        }
        match ctx.add_points(ALS_SOFTWARE) {
            Ok(_) => {},
            Err(f) => {
                return Err(f);
            },
        }
        let t = lex::trim(&lines[i]);
        let toks = lex::split_char(&t, ' ');
        if !(toks.len() >= 2 && lex::eq_str(&toks[toks.len() - 1], "{")) {
            proof {
                assert(toks.deep_view()[toks@.len() - 1] == toks@[toks@.len() - 1]@);
            }
            return Err(Fault::SyntaxError { line: i + 1 });
        }
        proof {
            assert(toks.deep_view()[toks@.len() - 1] == toks@[toks@.len() - 1]@);
        }
        let m0 = find_else(lines, i + 1, j);
        let m: usize = match m0 {
            Some(mm) => mm,
            None => j,
        };
        let else_block: Option<CodeBlock> = match m0 {
            Some(_) => {
                if m + 1 < j {
                    match CodeBlock::parse(lines, m + 1, j, ctx) {
                        Ok(b) => Some(b),
                        Err(f) => {
                            return Err(f);
                        },
                    }
                } else {
                    None
                }
            },
            None => None,
        };
        let cond = match BoolExpression::parse(&toks, 1, toks.len() - 1, i + 1, ctx) {
            Ok(c) => c,
            Err(f) => {
                return Err(f);
            },
        };
        let if_block = match CodeBlock::parse(lines, i + 1, m, ctx) {
            Ok(b) => b,
            Err(f) => {
                return Err(f);
            },
        };
        Ok(make_als(cond, if_block, else_block, i + 1))
    }
}

impl CodeBlock {
    /// Compile the line range `[lo, hi)` into an ordered run of statements,
    /// mirroring [`spec_block`].
    #[verifier::rlimit(100)]
    #[verifier::spinoff_prover]
    pub fn parse(lines: &Vec<Vec<char>>, lo: usize, hi: usize, ctx: &mut Context) -> (r: Result<
        CodeBlock,
        Fault,
    >)
        requires
            old(ctx).wf(),
            lo <= hi <= lines@.len(),
        ensures
            final(ctx).wf(),
            parse_frame(*old(ctx), *final(ctx)),
            match spec_block(
                lines.deep_view(),
                lo as int,
                hi as int,
                old(ctx).variables@,
                old(ctx).useable@,
                old(ctx).points as int,
            ) {
                Err(f) => r == Err::<CodeBlock, Fault>(f),
                Ok(sp) => (r matches Ok(cb) && stmts_view(cb.objects@) == sp.0 && cb.line == lo)
                    && final(ctx).points == sp.1,
            },
        decreases hi - lo, 2int,
    {
        if lo >= hi {
            return Ok(CodeBlock { objects: Vec::new(), line: lo });
        }
        proof {
            assert(lines.deep_view()[lo as int] == lines@[lo as int]@);
        }
        let t = lex::trim(&lines[lo]);
        let toks = lex::split_char(&t, ' ');
        proof {
            assert(toks.deep_view()[0] == toks@[0]@);
            if toks@.len() >= 2 {
                assert(toks.deep_view()[1] == toks@[1]@);
            }
        }
        if t.len() == 0 {
            let mut cb = match CodeBlock::parse(lines, lo + 1, hi, ctx) {
                Ok(cb) => cb,
                Err(f) => {
                    return Err(f);
                },
            };
            cb.line = lo;
            return Ok(cb);
        }
        if t.len() > 1 && t[t.len() - 1] == '}' {
            return Err(Fault::StrayBrace { line: lo + 1 });
        }
        if is_hanging_exec(&t) {
            return Err(Fault::HangingOp { line: lo + 1 });
        }
        let is_tl = lex::eq_str(&t, "draaiLinks");
        let is_tr = lex::eq_str(&t, "draaiRechts");
        let is_sf = lex::eq_str(&t, "stapVooruit");
        let is_sb = lex::eq_str(&t, "stapAchteruit");
        if is_tl || is_tr || is_sf || is_sb {
            match ctx.add_points(ACTION_SOFTWARE) {
                Ok(_) => {},
                Err(f) => {
                    return Err(f);
                },
            }
            let stmt = if is_tl {
                LangObject::TurnLeft
            } else if is_tr {
                LangObject::TurnRight
            } else if is_sf {
                LangObject::StepForwards
            } else {
                LangObject::StepBackwards
            };
            let mut cb = match CodeBlock::parse(lines, lo + 1, hi, ctx) {
                Ok(cb) => cb,
                Err(f) => {
                    return Err(f);
                },
            };
            proof {
                lemma_stmts_view_cons(stmt, cb.objects@);
            }
            cb.objects.insert(0, stmt);
            cb.line = lo;
            return Ok(cb);
        }
        let is_decl = toks.len() == 2 && lex::eq_str(&toks[0], "gebruik") && (lex::eq_str(
            &toks[1],
            "kompas",
        ) || lex::eq_str(&toks[1], "zwOog") || lex::eq_str(&toks[1], "kleurOog") || (toks[1].len()
            == 1 && {
            let c = toks[1][0];
            (c as u32) >= ('a' as u32) && (c as u32) <= ('z' as u32)
        }));
        if is_decl {
            let mut cb = match CodeBlock::parse(lines, lo + 1, hi, ctx) {
                Ok(cb) => cb,
                Err(f) => {
                    return Err(f);
                },
            };
            cb.line = lo;
            return Ok(cb);
        }
        let is_assign = toks.len() >= 2 && toks[0].len() == 1 && {
            let c = toks[0][0];
            (c as u32) >= ('a' as u32) && (c as u32) <= ('z' as u32)
        } && lex::eq_str(&toks[1], "=");
        if is_assign {
            let stmt = match Assignment::parse(&toks, lo + 1, ctx) {
                Ok(o) => o,
                Err(f) => {
                    return Err(f);
                },
            };
            let mut cb = match CodeBlock::parse(lines, lo + 1, hi, ctx) {
                Ok(cb) => cb,
                Err(f) => {
                    return Err(f);
                },
            };
            proof {
                lemma_stmts_view_cons(stmt, cb.objects@);
            }
            cb.objects.insert(0, stmt);
            cb.line = lo;
            return Ok(cb);
        }
        if lex::eq_str(&toks[0], "print") {
            let stmt = match Print::parse(&toks, lo + 1, ctx) {
                Ok(o) => o,
                Err(f) => {
                    return Err(f);
                },
            };
            let mut cb = match CodeBlock::parse(lines, lo + 1, hi, ctx) {
                Ok(cb) => cb,
                Err(f) => {
                    return Err(f);
                },
            };
            proof {
                lemma_stmts_view_cons(stmt, cb.objects@);
            }
            cb.objects.insert(0, stmt);
            cb.line = lo;
            return Ok(cb);
        }
        if lex::eq_str(&toks[0], "zolang") {
            let j = find_block_end(lines, lo + 1, hi);
            let stmt = match Zolang::parse(lines, lo, j, ctx) {
                Ok(o) => o,
                Err(f) => {
                    return Err(f);
                },
            };
            let k = if j >= hi {
                hi
            } else {
                j + 1
            };
            let mut cb = match CodeBlock::parse(lines, k, hi, ctx) {
                Ok(cb) => cb,
                Err(f) => {
                    return Err(f);
                },
            };
            proof {
                lemma_stmts_view_cons(stmt, cb.objects@);
            }
            cb.objects.insert(0, stmt);
            cb.line = lo;
            return Ok(cb);
        }
        if lex::eq_str(&toks[0], "als") {
            let j = find_block_end(lines, lo + 1, hi);
            let stmt = match Als::parse(lines, lo, j, ctx) {
                Ok(o) => o,
                Err(f) => {
                    return Err(f);
                },
            };
            let k = if j >= hi {
                hi
            } else {
                j + 1
            };
            let mut cb = match CodeBlock::parse(lines, k, hi, ctx) {
                Ok(cb) => cb,
                Err(f) => {
                    return Err(f);
                },
            };
            proof {
                lemma_stmts_view_cons(stmt, cb.objects@);
            }
            cb.objects.insert(0, stmt);
            cb.line = lo;
            return Ok(cb);
        }
        Err(Fault::SyntaxError { line: lo + 1 })
    }
}

// ---------------------------------------------------------------------------
// Execution: the tree walker, with cost bookkeeping and termination by the
// run's spendable worth.
// ---------------------------------------------------------------------------

/// The spendable worth of a run: the budget headroom plus the payoff still
/// stored in the grid. Every executed loop iteration strictly consumes it,
/// which is why every script run ends.
pub open spec fn potential(ctx: Context) -> int {
    (BUDGET - ctx.points) + crate::map::money_pot(ctx.glade@.map)
}

/// What every executed statement preserves: the source, the compiled tree,
/// the hardware set and the set of declared variables stay fixed; the
/// recorded maximum target index stays fixed; progress never falls back; the
/// trace only grows; the spendable worth never grows.
pub open spec fn run_frame(pre: Context, post: Context) -> bool {
    &&& post.file_text == pre.file_text
    &&& post.code == pre.code
    &&& post.useable == pre.useable
    &&& post.variables@.len() == pre.variables@.len()
    &&& forall|i: int|
        0 <= i < pre.variables@.len() ==> (((#[trigger] post.variables@[i]) is Some) == (
        pre.variables@[i] is Some))
    &&& post.glade@.last_target == pre.glade@.last_target
    &&& post.glade@.target_count >= pre.glade@.target_count
    &&& pre.glade@.trace.is_prefix_of(post.glade@.trace)
    &&& potential(post) <= potential(pre)
}

proof fn lemma_prefix_refl(a: Seq<Trace>)
    ensures
        a.is_prefix_of(a),
{
    assert(a.subrange(0, a.len() as int) =~= a);
}

proof fn lemma_prefix_trans(a: Seq<Trace>, b: Seq<Trace>, c: Seq<Trace>)
    requires
        a.is_prefix_of(b),
        b.is_prefix_of(c),
    ensures
        a.is_prefix_of(c),
{
    assert(a =~= c.subrange(0, a.len() as int)) by {
        assert(forall|i: int| 0 <= i < a.len() ==> a[i] == b.subrange(0, a.len() as int)[i]);
        assert(forall|i: int|
            0 <= i < b.len() ==> b[i] == c.subrange(0, b.len() as int)[i]);
    }
}

proof fn lemma_prefix_push(a: Seq<Trace>, t: Trace)
    ensures
        a.is_prefix_of(a.push(t)),
{
    assert(a.push(t).subrange(0, a.len() as int) =~= a);
}

/// [`run_frame`] is reflexive.
proof fn lemma_run_frame_refl(a: Context)
    ensures
        run_frame(a, a),
{
    lemma_prefix_refl(a.glade@.trace);
}

/// [`run_frame`] composes.
proof fn lemma_run_frame_trans(a: Context, b: Context, c: Context)
    requires
        run_frame(a, b),
        run_frame(b, c),
    ensures
        run_frame(a, c),
{
    lemma_prefix_trans(a.glade@.trace, b.glade@.trace, c.glade@.trace);
}

/// A successful comparison consumes at least the comparison weight.
proof fn lemma_eval_be_points(
    be: BoolExpression,
    vars: Seq<Option<Option<i32>>>,
    g: GladeView,
    pts: int,
)
    ensures
        eval_be(be, vars, g, pts) matches Ok(vp) ==> pts + COMPARISON_USAGE <= vp.1,
{
    match spec_charge(pts, COMPARISON_USAGE as int) {
        Some(p1) => {
            lemma_eval_ev_points(be.left, be.line as int, vars, g, p1);
            match eval_ev(be.left, be.line as int, vars, g, p1) {
                Ok(lp) => {
                    lemma_eval_ev_points(be.right, be.line as int, vars, g, lp.1);
                },
                Err(_) => {},
            }
        },
        None => {},
    }
}

// ---------------------------------------------------------------------------
// The big-step semantics of the statement trees: a relation between the run
// state before and after a statement (or a run of statements), existential
// only in the turner draws and the iteration count of each loop.
// ---------------------------------------------------------------------------

/// The part of the context a run reads and writes: the ledger, the variable
/// environment and the field.
#[verifier::ext_equal]
pub ghost struct RunView {
    pub points: int,
    pub vars: Seq<Option<Option<i32>>>,
    pub glade: GladeView,
}

impl Context {
    /// The run state held by this context.
    pub open spec fn run_view(self) -> RunView {
        RunView { points: self.points as int, vars: self.variables@, glade: self.glade@ }
    }
}

/// A ledger reading left behind by a fatal stop partway through an
/// evaluation: between the reading at the start and the ceiling.
pub open spec fn points_between(pre: RunView, post: RunView) -> bool {
    pre.points <= post.points <= BUDGET
}

/// A marker naming the seam of a composite run — the intermediate state and
/// outcome an inner run hands to the rest — used as the instantiation handle
/// of the existentials in [`run_rel`].
pub open spec fn run_seam(mid: RunView, r1: Result<(), Stop>) -> bool {
    true
}

/// A marker naming a loop's iteration count, used as the instantiation
/// handle of the iteration existential in [`run_rel`].
pub open spec fn iter_count(n: nat) -> bool {
    true
}

/// One unit of execution: a single statement, a run of statements, or a
/// loop that still has iterations to take.
pub ghost enum TaskV {
    Stmt(StmtV),
    Block(Seq<StmtV>),
    Loop(BoolExpression, Seq<StmtV>),
}

/// The size of a statement tree, counting statements and block openings.
pub open spec fn stmt_size(s: StmtV) -> nat
    decreases s, 0nat,
{
    match s {
        StmtV::Zolang { cond: _, body, line: _ } => 3 + stmts_size(body),
        StmtV::Als { cond: _, if_body, else_body, line: _ } => 2 + stmts_size(if_body) + (
        match else_body {
            Some(eb) => stmts_size(eb),
            None => 0,
        }),
        _ => 1,
    }
}

/// The size of a run of statements.
pub open spec fn stmts_size(ss: Seq<StmtV>) -> nat
    decreases ss, 1nat,
{
    if ss.len() == 0 {
        0
    } else {
        1 + stmt_size(ss[0]) + stmts_size(ss.drop_first())
    }
}

/// The size of a task.
pub open spec fn task_size(t: TaskV) -> nat {
    match t {
        TaskV::Stmt(s) => stmt_size(s),
        TaskV::Block(ss) => 1 + stmts_size(ss),
        TaskV::Loop(_, body) => 2 + stmts_size(body),
    }
}

/// The big-step semantics: what running a task does to the run state, with
/// outcome `r` — `Ok` to continue, `Err(Stop::Success)` when a step
/// completed the target run, `Err(Stop::Fatal(f))` on a fatal condition.
/// `n` bounds how many iterations a loop task takes; statements and blocks
/// ignore it, quantifying over each inner loop's own count. The relation is
/// deterministic except for the turner draws, and exact except for the
/// ledger reading left behind by a stop inside an expression evaluation.
pub open spec fn run_rel(
    task: TaskV,
    pre: RunView,
    post: RunView,
    r: Result<(), Stop>,
    n: nat,
) -> bool
    decreases task_size(task), n,
{
    match task {
        TaskV::Stmt(s) => match s {
            StmtV::TurnLeft => turn_stmt_rel(
                pre,
                post,
                pre.glade.griever.direction.spec_left(),
                TURNLEFT_USAGE as int,
                r,
            ),
            StmtV::TurnRight => turn_stmt_rel(
                pre,
                post,
                pre.glade.griever.direction.spec_right(),
                TURNRIGHT_USAGE as int,
                r,
            ),
            StmtV::StepForwards => step_stmt_rel(pre, post, pre.glade.forward_target(), r),
            StmtV::StepBackwards => step_stmt_rel(pre, post, pre.glade.backward_target(), r),
            StmtV::Assign { var, rhs, line } => match spec_charge(
                pre.points,
                ASSIGNMENT_USAGE as int,
            ) {
                None => r == Err::<(), Stop>(Stop::Fatal(Fault::BudgetExceeded)) && post == pre,
                Some(p1) => match eval_ev(rhs, line, pre.vars, pre.glade, p1) {
                    Err(f) => r == Err::<(), Stop>(Stop::Fatal(f)) && post.vars == pre.vars
                        && post.glade == pre.glade && points_between(pre, post),
                    Ok(vp) => if is_lower(var) && pre.vars[slot_of(var)] is Some {
                        r is Ok && post == (RunView {
                            points: vp.1,
                            vars: pre.vars.update(slot_of(var), Some(Some(vp.0))),
                            glade: pre.glade,
                        })
                    } else {
                        r == Err::<(), Stop>(
                            Stop::Fatal(Fault::UndeclaredVar { line: line as usize, name: var }),
                        ) && post == (RunView { points: vp.1, vars: pre.vars, glade: pre.glade })
                    },
                },
            },
            StmtV::Print { e, line } => match eval_ev(e, line, pre.vars, pre.glade, pre.points) {
                Err(f) => r == Err::<(), Stop>(Stop::Fatal(f)) && post.vars == pre.vars
                    && post.glade == pre.glade && points_between(pre, post),
                Ok(vp) => r is Ok && post == (RunView {
                    points: vp.1,
                    vars: pre.vars,
                    glade: GladeView {
                        trace: pre.glade.trace.push(
                            Trace::Printed { line: line as usize, value: vp.0 },
                        ),
                        ..pre.glade
                    },
                }),
            },
            StmtV::Zolang { cond, body, line: _ } => exists|n2: nat|
                #![trigger iter_count(n2)]
                iter_count(n2) && run_rel(TaskV::Loop(cond, body), pre, post, r, n2),
            StmtV::Als { cond, if_body, else_body, line: _ } => match eval_be(
                cond,
                pre.vars,
                pre.glade,
                pre.points,
            ) {
                Err(f) => r == Err::<(), Stop>(Stop::Fatal(f)) && post.vars == pre.vars
                    && post.glade == pre.glade && points_between(pre, post),
                Ok(bp) => if bp.0 {
                    run_rel(TaskV::Block(if_body), RunView { points: bp.1, ..pre }, post, r, 0)
                } else {
                    match else_body {
                        Some(eb) => run_rel(
                            TaskV::Block(eb),
                            RunView { points: bp.1, ..pre },
                            post,
                            r,
                            0,
                        ),
                        None => r is Ok && post == (RunView { points: bp.1, ..pre }),
                    }
                },
            },
        },
        TaskV::Block(ss) => if ss.len() == 0 {
            r is Ok && post == pre
        } else {
            exists|mid: RunView, r1: Result<(), Stop>|
                #![trigger run_seam(mid, r1)]
                run_seam(mid, r1) && run_rel(TaskV::Stmt(ss[0]), pre, mid, r1, 0) && (if r1 is Ok {
                    run_rel(TaskV::Block(ss.drop_first()), mid, post, r, 0)
                } else {
                    r == Err::<(), Stop>(r1->Err_0) && post == mid
                })
        },
        TaskV::Loop(cond, body) => match eval_be(cond, pre.vars, pre.glade, pre.points) {
            Err(f) => r == Err::<(), Stop>(Stop::Fatal(f)) && post.vars == pre.vars && post.glade
                == pre.glade && points_between(pre, post),
            Ok(bp) => if !bp.0 {
                r is Ok && post == (RunView { points: bp.1, ..pre })
            } else if n == 0 {
                false
            } else {
                exists|mid: RunView, rb: Result<(), Stop>|
                    #![trigger run_seam(mid, rb)]
                    run_seam(mid, rb) && run_rel(
                        TaskV::Block(body),
                        RunView { points: bp.1, ..pre },
                        mid,
                        rb,
                        0,
                    ) && (
                    if rb is Ok {
                        run_rel(TaskV::Loop(cond, body), mid, post, r, (n - 1) as nat)
                    } else {
                        r == Err::<(), Stop>(rb->Err_0) && post == mid
                    })
            },
        },
    }
}

/// What one executed statement does to the run state, with outcome `r`.
pub open spec fn stmt_rel(s: StmtV, pre: RunView, post: RunView, r: Result<(), Stop>) -> bool {
    run_rel(TaskV::Stmt(s), pre, post, r, 0)
}

/// A run of statements in source order: empty runs change nothing; otherwise
/// the first statement runs, and the rest only when it asked to continue.
pub open spec fn block_rel(
    stmts: Seq<StmtV>,
    pre: RunView,
    post: RunView,
    r: Result<(), Stop>,
) -> bool {
    run_rel(TaskV::Block(stmts), pre, post, r, 0)
}

/// A loop that runs its body exactly `n` times before its condition goes
/// false (or the run stops): the condition is re-evaluated, and re-charged,
/// before every iteration, and the body runs while it holds.
pub open spec fn loop_rel(
    cond: BoolExpression,
    body: Seq<StmtV>,
    pre: RunView,
    post: RunView,
    r: Result<(), Stop>,
    n: nat,
) -> bool {
    run_rel(TaskV::Loop(cond, body), pre, post, r, n)
}

/// A manual quarter turn as a statement: the turn weight is charged first —
/// fatal with nothing changed when it passes the ceiling — then the rotation
/// and the re-entry of the cell under the walker.
pub open spec fn turn_stmt_rel(
    pre: RunView,
    post: RunView,
    d: Direction,
    weight: int,
    r: Result<(), Stop>,
) -> bool {
    match spec_charge(pre.points, weight) {
        None => r == Err::<(), Stop>(Stop::Fatal(Fault::BudgetExceeded)) && post == pre,
        Some(p1) => post.points == p1 && post.vars == pre.vars && exists|rt: Result<(), Fault>|
            #![trigger crate::map::turn_post(pre.glade, post.glade, d, false, rt)]
            crate::map::turn_post(pre.glade, post.glade, d, false, rt) && r == (match rt {
                Ok(_) => Ok::<(), Stop>(()),
                Err(f) => Err(Stop::Fatal(f)),
            }),
    }
}

/// A step as a statement: tick and enter the target square; a completed
/// entry moves the walker and deducts the payoff (fatal when the ledger
/// would go negative); a blocked one records the collision and charges the
/// obstacle weight; either way the run stops with success the moment every
/// target has been reached in order.
pub open spec fn step_stmt_rel(
    pre: RunView,
    post: RunView,
    target: Option<(int, int)>,
    r: Result<(), Stop>,
) -> bool {
    exists|rm: Result<Result<i32, ()>, Fault>, g2: GladeView|
        #![trigger crate::map::move_post(pre.glade, g2, target, rm)]
        crate::map::move_post(pre.glade, g2, target, rm) && post.vars == pre.vars && (match rm {
            Ok(inner) => match inner {
                Ok(pay) => if pre.points - pay < 0 {
                    r == Err::<(), Stop>(Stop::Fatal(Fault::LedgerUnderflow)) && post.glade == g2
                        && post.points == pre.points
                } else if g2.succeeded() {
                    r == Err::<(), Stop>(Stop::Success) && post.glade == g2 && post.points
                        == pre.points - pay
                } else {
                    r is Ok && post.glade == g2 && post.points == pre.points - pay
                },
                Err(_) => {
                    let g3 = GladeView {
                        trace: g2.trace.push(
                            Trace::Collision {
                                x: g2.griever.x,
                                y: g2.griever.y,
                                dir: g2.griever.direction,
                            },
                        ),
                        ..g2
                    };
                    match spec_charge(pre.points, PUSH_OBSTACLE as int) {
                        None => r == Err::<(), Stop>(Stop::Fatal(Fault::BudgetExceeded))
                            && post.glade == g3 && post.points == pre.points,
                        Some(p2) => post.glade == g3 && post.points == p2 && (
                        if g3.succeeded() {
                            r == Err::<(), Stop>(Stop::Success)
                        } else {
                            r is Ok
                        }),
                    }
                },
            },
            Err(f) => r == Err::<(), Stop>(Stop::Fatal(f)) && post.glade == g2 && post.points
                == pre.points,
        })
}


/// Introduction of [`block_rel`]: a first statement that continued, followed
/// by the rest of the run.
pub proof fn lemma_block_rel_cons(
    stmts: Seq<StmtV>,
    pre: RunView,
    mid: RunView,
    post: RunView,
    r: Result<(), Stop>,
    r1: Result<(), Stop>,
)
    requires
        stmts.len() > 0,
        r1 is Ok,
        stmt_rel(stmts[0], pre, mid, r1),
        block_rel(stmts.drop_first(), mid, post, r),
    ensures
        block_rel(stmts, pre, post, r),
{
    assert(run_seam(mid, r1));
    assert(run_seam(mid, r1) && run_rel(TaskV::Stmt(stmts[0]), pre, mid, r1, 0) && (if r1 is Ok {
        run_rel(TaskV::Block(stmts.drop_first()), mid, post, r, 0)
    } else {
        r == Err::<(), Stop>(r1->Err_0) && post == mid
    }));
    assert(run_rel(TaskV::Block(stmts), pre, post, r, 0));
}

/// Introduction of [`block_rel`]: a first statement that stopped the run.
pub proof fn lemma_block_rel_halt(stmts: Seq<StmtV>, pre: RunView, mid: RunView, s: Stop)
    requires
        stmts.len() > 0,
        stmt_rel(stmts[0], pre, mid, Err(s)),
    ensures
        block_rel(stmts, pre, mid, Err(s)),
{
    let r1: Result<(), Stop> = Err(s);
    assert(run_seam(mid, r1));
    assert(run_seam(mid, r1) && run_rel(TaskV::Stmt(stmts[0]), pre, mid, r1, 0) && (if r1 is Ok {
        run_rel(TaskV::Block(stmts.drop_first()), mid, mid, Err(s), 0)
    } else {
        Err::<(), Stop>(s) == Err::<(), Stop>(r1->Err_0) && mid == mid
    }));
    assert(run_rel(TaskV::Block(stmts), pre, mid, Err(s), 0));
}

/// Introduction of [`loop_rel`]: a true condition, a body run that
/// continued, and the remaining iterations.
pub proof fn lemma_loop_rel_iter(
    cond: BoolExpression,
    body: Seq<StmtV>,
    pre: RunView,
    mid: RunView,
    post: RunView,
    r: Result<(), Stop>,
    n: nat,
    rb: Result<(), Stop>,
)
    requires
        rb is Ok,
        ({
            let e = eval_be(cond, pre.vars, pre.glade, pre.points);
            e matches Ok(bp) && bp.0 && block_rel(body, RunView { points: bp.1, ..pre }, mid, rb)
        }),
        loop_rel(cond, body, mid, post, r, n),
    ensures
        loop_rel(cond, body, pre, post, r, n + 1),
{
    let bp = eval_be(cond, pre.vars, pre.glade, pre.points)->Ok_0;
    assert(run_seam(mid, rb));
    assert(run_seam(mid, rb) && run_rel(
        TaskV::Block(body),
        RunView { points: bp.1, ..pre },
        mid,
        rb,
        0,
    ) && (
    if rb is Ok {
        run_rel(TaskV::Loop(cond, body), mid, post, r, ((n + 1) - 1) as nat)
    } else {
        r == Err::<(), Stop>(rb->Err_0) && post == mid
    }));
    assert(run_rel(TaskV::Loop(cond, body), pre, post, r, n + 1));
}

/// Introduction of [`loop_rel`]: a true condition and a body run that
/// stopped the run.
pub proof fn lemma_loop_rel_body_stop(
    cond: BoolExpression,
    body: Seq<StmtV>,
    pre: RunView,
    mid: RunView,
    s: Stop,
)
    requires
        ({
            let e = eval_be(cond, pre.vars, pre.glade, pre.points);
            e matches Ok(bp) && bp.0 && block_rel(
                body,
                RunView { points: bp.1, ..pre },
                mid,
                Err(s),
            )
        }),
    ensures
        loop_rel(cond, body, pre, mid, Err(s), 1),
{
    let bp = eval_be(cond, pre.vars, pre.glade, pre.points)->Ok_0;
    let rb: Result<(), Stop> = Err(s);
    assert(run_seam(mid, rb));
    assert(run_seam(mid, rb) && run_rel(
        TaskV::Block(body),
        RunView { points: bp.1, ..pre },
        mid,
        rb,
        0,
    ) && (
    if rb is Ok {
        run_rel(TaskV::Loop(cond, body), mid, mid, Err(s), 0)
    } else {
        Err::<(), Stop>(s) == Err::<(), Stop>(rb->Err_0) && mid == mid
    }));
    assert(run_rel(TaskV::Loop(cond, body), pre, mid, Err(s), 1));
}

/// Introduction of a loop statement's semantics from its iteration count.
pub proof fn lemma_stmt_rel_zolang(
    cond: BoolExpression,
    body: Seq<StmtV>,
    line: int,
    pre: RunView,
    post: RunView,
    r: Result<(), Stop>,
    n: nat,
)
    requires
        loop_rel(cond, body, pre, post, r, n),
    ensures
        stmt_rel(StmtV::Zolang { cond: cond, body: body, line: line }, pre, post, r),
{
    assert(iter_count(n));
    assert(exists|n2: nat|
        #![trigger iter_count(n2)]
        iter_count(n2) && run_rel(TaskV::Loop(cond, body), pre, post, r, n2));
}

/// The value of a run of statements, element by element.
pub proof fn lemma_stmts_view_index(objs: Seq<LangObject>, i: int)
    requires
        0 <= i < objs.len(),
    ensures
        stmts_view(objs).len() == objs.len(),
        stmts_view(objs)[i] == stmt_view(objs[i]),
    decreases objs.len(),
{
    lemma_stmts_view_len(objs);
    if i > 0 {
        lemma_stmts_view_index(objs.drop_first(), i - 1);
    }
}

/// A run of statements has one value per statement.
pub proof fn lemma_stmts_view_len(objs: Seq<LangObject>)
    ensures
        stmts_view(objs).len() == objs.len(),
    decreases objs.len(),
{
    if objs.len() > 0 {
        lemma_stmts_view_len(objs.drop_first());
    }
}

/// Introduction of a manual turn's semantics from its charge and its field
/// relation.
pub proof fn lemma_turn_stmt_intro(
    pre: RunView,
    post: RunView,
    d: Direction,
    weight: int,
    rt: Result<(), Fault>,
)
    requires
        spec_charge(pre.points, weight) is Some,
        post.points == spec_charge(pre.points, weight)->Some_0,
        post.vars == pre.vars,
        crate::map::turn_post(pre.glade, post.glade, d, false, rt),
    ensures
        turn_stmt_rel(
            pre,
            post,
            d,
            weight,
            match rt {
                Ok(_) => Ok::<(), Stop>(()),
                Err(f) => Err(Stop::Fatal(f)),
            },
        ),
{
    assert(exists|rt2: Result<(), Fault>|
        #![trigger crate::map::turn_post(pre.glade, post.glade, d, false, rt2)]
        crate::map::turn_post(pre.glade, post.glade, d, false, rt2) && (match rt {
            Ok(_) => Ok::<(), Stop>(()),
            Err(f) => Err(Stop::Fatal(f)),
        }) == (match rt2 {
            Ok(_) => Ok::<(), Stop>(()),
            Err(f) => Err(Stop::Fatal(f)),
        }));
}

/// Introduction of a step's semantics from its field relation and the
/// ledger's bookkeeping of the outcome.
pub proof fn lemma_step_stmt_intro(
    pre: RunView,
    post: RunView,
    target: Option<(int, int)>,
    r: Result<(), Stop>,
    rm: Result<Result<i32, ()>, Fault>,
    g2: GladeView,
)
    requires
        crate::map::move_post(pre.glade, g2, target, rm),
        post.vars == pre.vars,
        ({
            match rm {
                Ok(inner) => match inner {
                    Ok(pay) => if pre.points - pay < 0 {
                        r == Err::<(), Stop>(Stop::Fatal(Fault::LedgerUnderflow)) && post.glade
                            == g2 && post.points == pre.points
                    } else if g2.succeeded() {
                        r == Err::<(), Stop>(Stop::Success) && post.glade == g2 && post.points
                            == pre.points - pay
                    } else {
                        r is Ok && post.glade == g2 && post.points == pre.points - pay
                    },
                    Err(_) => {
                        let g3 = GladeView {
                            trace: g2.trace.push(
                                Trace::Collision {
                                    x: g2.griever.x,
                                    y: g2.griever.y,
                                    dir: g2.griever.direction,
                                },
                            ),
                            ..g2
                        };
                        match spec_charge(pre.points, PUSH_OBSTACLE as int) {
                            None => r == Err::<(), Stop>(Stop::Fatal(Fault::BudgetExceeded))
                                && post.glade == g3 && post.points == pre.points,
                            Some(p2) => post.glade == g3 && post.points == p2 && (
                            if g3.succeeded() {
                                r == Err::<(), Stop>(Stop::Success)
                            } else {
                                r is Ok
                            }),
                        }
                    },
                },
                Err(f) => r == Err::<(), Stop>(Stop::Fatal(f)) && post.glade == g2 && post.points
                    == pre.points,
            }
        }),
    ensures
        step_stmt_rel(pre, post, target, r),
{
    assert(crate::map::move_post(pre.glade, g2, target, rm));
}

/// The value of each statement variant, spelt out for the executor's
/// dispatch.
proof fn lemma_stmt_view_unfold(o: LangObject)
    ensures
        o matches LangObject::Zolang(z) ==> stmt_view(o) == (StmtV::Zolang {
            cond: z.expression,
            body: stmts_view(z.block.objects@),
            line: z.line as int,
        }),
        o matches LangObject::Als(a) ==> stmt_view(o) == (StmtV::Als {
            cond: a.expression,
            if_body: stmts_view(a.if_block.objects@),
            else_body: match a.else_block {
                Some(eb) => Some(stmts_view(eb.objects@)),
                None => None,
            },
            line: a.line as int,
        }),
        o matches LangObject::Assignment(a) ==> stmt_view(o) == (StmtV::Assign {
            var: a.var,
            rhs: a.expression,
            line: a.line as int,
        }),
        o matches LangObject::Print(p) ==> stmt_view(o) == (StmtV::Print {
            e: p.expression,
            line: p.line as int,
        }),
        o == LangObject::StepForwards ==> stmt_view(o) == StmtV::StepForwards,
        o == LangObject::StepBackwards ==> stmt_view(o) == StmtV::StepBackwards,
        o == LangObject::TurnLeft ==> stmt_view(o) == StmtV::TurnLeft,
        o == LangObject::TurnRight ==> stmt_view(o) == StmtV::TurnRight,
{
}

impl Assignment {
    /// Execute the assignment: charge the assignment weight, evaluate the
    /// right-hand side, and store the value in the declared slot.
    pub fn calc(&self, ctx: &mut Context) -> (r: Result<(), Fault>)
        requires
            old(ctx).wf(),
        ensures
            final(ctx).wf(),
            final(ctx).file_text == old(ctx).file_text,
            final(ctx).code == old(ctx).code,
            final(ctx).useable == old(ctx).useable,
            final(ctx).glade == old(ctx).glade,
            old(ctx).points <= final(ctx).points,
            match spec_charge(old(ctx).points as int, ASSIGNMENT_USAGE as int) {
                None => r == Err::<(), Fault>(Fault::BudgetExceeded) && final(ctx).variables
                    == old(ctx).variables && final(ctx).points == old(ctx).points,
                Some(p1) => match eval_ev(
                    self.expression,
                    self.line as int,
                    old(ctx).variables@,
                    old(ctx).glade@,
                    p1,
                ) {
                    Err(f) => r == Err::<(), Fault>(f) && final(ctx).variables == old(
                        ctx,
                    ).variables,
                    Ok(vp) => if is_lower(self.var) && old(ctx).variables@[slot_of(
                        self.var,
                    )] is Some {
                        r is Ok && final(ctx).variables@ == old(ctx).variables@.update(
                            slot_of(self.var),
                            Some(Some(vp.0)),
                        ) && final(ctx).points == vp.1
                    } else {
                        r == Err::<(), Fault>(
                            Fault::UndeclaredVar { line: self.line, name: self.var },
                        ) && final(ctx).variables == old(ctx).variables && final(ctx).points
                            == vp.1
                    },
                },
            },
    {
        match ctx.add_points(ASSIGNMENT_USAGE) {
            Ok(_) => {},
            Err(f) => {
                return Err(f);
            },
        }
        let ghost mid1 = *ctx;
        let value = match eval_var_exec(&self.expression, self.line, ctx) {
            Ok(v) => v,
            Err(f) => {
                return Err(f);
            },
        };
        proof {
            lemma_eval_ev_points(
                self.expression,
                self.line as int,
                mid1.variables@,
                mid1.glade@,
                mid1.points as int,
            );
        }
        if (self.var as u32) >= ('a' as u32) && (self.var as u32) <= ('z' as u32) {
            let idx = (self.var as u32 - 'a' as u32) as usize;
            match ctx.variables[idx] {
                Some(_) => {
                    ctx.variables[idx] = Some(Some(value));
                    Ok(())
                },
                None => Err(Fault::UndeclaredVar { line: self.line, name: self.var }),
            }
        } else {
            Err(Fault::UndeclaredVar { line: self.line, name: self.var })
        }
    }
}

impl Print {
    /// Execute the print: evaluate the atom (sensors charge their usage) and
    /// append the printed value to the trace.
    pub fn print(&self, ctx: &mut Context) -> (r: Result<(), Fault>)
        requires
            old(ctx).wf(),
        ensures
            final(ctx).wf(),
            final(ctx).file_text == old(ctx).file_text,
            final(ctx).code == old(ctx).code,
            final(ctx).useable == old(ctx).useable,
            final(ctx).variables == old(ctx).variables,
            final(ctx).glade@.map == old(ctx).glade@.map,
            final(ctx).glade@.griever == old(ctx).glade@.griever,
            final(ctx).glade@.seconds == old(ctx).glade@.seconds,
            final(ctx).glade@.target_count == old(ctx).glade@.target_count,
            final(ctx).glade@.last_target == old(ctx).glade@.last_target,
            old(ctx).points <= final(ctx).points,
            match eval_ev(
                self.expression,
                self.line as int,
                old(ctx).variables@,
                old(ctx).glade@,
                old(ctx).points as int,
            ) {
                Err(f) => r == Err::<(), Fault>(f) && final(ctx).glade@.trace == old(
                    ctx,
                ).glade@.trace,
                Ok(vp) => r is Ok && final(ctx).points == vp.1 && final(ctx).glade@.trace == old(
                    ctx,
                ).glade@.trace.push(Trace::Printed { line: self.line, value: vp.0 }),
            },
    {
        let ghost pre = *ctx;
        let value = match eval_var_exec(&self.expression, self.line, ctx) {
            Ok(v) => v,
            Err(f) => {
                return Err(f);
            },
        };
        proof {
            lemma_eval_ev_points(
                self.expression,
                self.line as int,
                pre.variables@,
                pre.glade@,
                pre.points as int,
            );
        }
        ctx.glade.trace.push(Trace::Printed { line: self.line, value });
        Ok(())
    }
}

impl Zolang {
    /// Run the loop: re-evaluate the condition before every iteration and
    /// execute the body while it holds. Each iteration consumes spendable
    /// worth, so the loop always ends.
    pub fn run_loop(&self, ctx: &mut Context) -> (r: Result<(), Stop>)
        requires
            old(ctx).wf(),
        ensures
            final(ctx).wf(),
            run_frame(*old(ctx), *final(ctx)),
            r == Err::<(), Stop>(Stop::Success) ==> final(ctx).glade@.succeeded(),
            stmt_rel(
                StmtV::Zolang {
                    cond: self.expression,
                    body: stmts_view(self.block.objects@),
                    line: self.line as int,
                },
                old(ctx).run_view(),
                final(ctx).run_view(),
                r,
            ),
        decreases potential(*old(ctx)), *self,
    {
        let ghost entry = *ctx;
        let ghost body_v = stmts_view(self.block.objects@);
        let cond = match self.expression.calc(ctx) {
            Ok(b) => b,
            Err(f) => {
                proof {
                    lemma_run_frame_refl(entry);
                    lemma_prefix_refl(ctx.glade@.trace);
                    assert(loop_rel(
                        self.expression,
                        body_v,
                        entry.run_view(),
                        ctx.run_view(),
                        Err(Stop::Fatal(f)),
                        0,
                    ));
                    lemma_stmt_rel_zolang(
                        self.expression,
                        body_v,
                        self.line as int,
                        entry.run_view(),
                        ctx.run_view(),
                        Err(Stop::Fatal(f)),
                        0,
                    );
                }
                return Err(Stop::Fatal(f));
            },
        };
        let ghost bp = eval_be(
            self.expression,
            entry.variables@,
            entry.glade@,
            entry.points as int,
        )->Ok_0;
        proof {
            lemma_eval_be_points(
                self.expression,
                entry.variables@,
                entry.glade@,
                entry.points as int,
            );
            lemma_prefix_refl(ctx.glade@.trace);
            assert(ctx.run_view() =~= (RunView { points: bp.1, ..entry.run_view() }));
        }
        if !cond {
            proof {
                assert(loop_rel(
                    self.expression,
                    body_v,
                    entry.run_view(),
                    ctx.run_view(),
                    Ok(()),
                    0,
                ));
                lemma_stmt_rel_zolang(
                    self.expression,
                    body_v,
                    self.line as int,
                    entry.run_view(),
                    ctx.run_view(),
                    Ok(()),
                    0,
                );
            }
            return Ok(());
        }
        let ghost after_cond = *ctx;
        let rloop = self.block.execute(ctx);
        match rloop {
            Ok(_) => {},
            Err(s) => {
                proof {
                    lemma_run_frame_trans(entry, after_cond, *ctx);
                    assert(after_cond.run_view() =~= (RunView {
                        points: bp.1,
                        ..entry.run_view()
                    }));
                    assert(block_rel(
                        body_v,
                        RunView { points: bp.1, ..entry.run_view() },
                        ctx.run_view(),
                        Err(s),
                    ));
                    assert(eval_be(
                        self.expression,
                        entry.run_view().vars,
                        entry.run_view().glade,
                        entry.run_view().points,
                    ) == Ok::<(bool, int), Fault>((true, bp.1)));
                    lemma_loop_rel_body_stop(
                        self.expression,
                        body_v,
                        entry.run_view(),
                        ctx.run_view(),
                        s,
                    );
                    lemma_stmt_rel_zolang(
                        self.expression,
                        body_v,
                        self.line as int,
                        entry.run_view(),
                        ctx.run_view(),
                        Err(s),
                        1,
                    );
                }
                return Err(s);
            },
        }
        proof {
            lemma_run_frame_trans(entry, after_cond, *ctx);
        }
        let ghost before_rec = *ctx;
        let r = self.run_loop(ctx);
        proof {
            lemma_run_frame_trans(entry, before_rec, *ctx);
            assert(after_cond.run_view() =~= (RunView { points: bp.1, ..entry.run_view() }));
            assert(block_rel(
                body_v,
                RunView { points: bp.1, ..entry.run_view() },
                before_rec.run_view(),
                rloop,
            ));
            assert(eval_be(
                self.expression,
                entry.run_view().vars,
                entry.run_view().glade,
                entry.run_view().points,
            ) == Ok::<(bool, int), Fault>((true, bp.1)));
            assert(run_rel(
                TaskV::Stmt(
                    StmtV::Zolang {
                        cond: self.expression,
                        body: body_v,
                        line: self.line as int,
                    },
                ),
                before_rec.run_view(),
                ctx.run_view(),
                r,
                0,
            ));
            assert(exists|n2: nat|
                #![trigger iter_count(n2)]
                iter_count(n2) && run_rel(
                    TaskV::Loop(self.expression, body_v),
                    before_rec.run_view(),
                    ctx.run_view(),
                    r,
                    n2,
                ));
            let nr = choose|n2: nat|
                #![trigger iter_count(n2)]
                iter_count(n2) && run_rel(
                    TaskV::Loop(self.expression, body_v),
                    before_rec.run_view(),
                    ctx.run_view(),
                    r,
                    n2,
                );
            assert(run_rel(
                TaskV::Loop(self.expression, body_v),
                before_rec.run_view(),
                ctx.run_view(),
                r,
                nr,
            ));
            lemma_loop_rel_iter(
                self.expression,
                body_v,
                entry.run_view(),
                before_rec.run_view(),
                ctx.run_view(),
                r,
                nr,
                rloop,
            );
            lemma_stmt_rel_zolang(
                self.expression,
                body_v,
                self.line as int,
                entry.run_view(),
                ctx.run_view(),
                r,
                nr + 1,
            );
        }
        r
    }
}

impl Als {
    /// Run the conditional: evaluate the condition once and execute the
    /// chosen branch.
    pub fn run_if(&self, ctx: &mut Context) -> (r: Result<(), Stop>)
        requires
            old(ctx).wf(),
        ensures
            final(ctx).wf(),
            run_frame(*old(ctx), *final(ctx)),
            r == Err::<(), Stop>(Stop::Success) ==> final(ctx).glade@.succeeded(),
            stmt_rel(
                StmtV::Als {
                    cond: self.expression,
                    if_body: stmts_view(self.if_block.objects@),
                    else_body: match self.else_block {
                        Some(eb) => Some(stmts_view(eb.objects@)),
                        None => None,
                    },
                    line: self.line as int,
                },
                old(ctx).run_view(),
                final(ctx).run_view(),
                r,
            ),
        decreases potential(*old(ctx)), *self,
    {
        let ghost entry = *ctx;
        let ghost sv = StmtV::Als {
            cond: self.expression,
            if_body: stmts_view(self.if_block.objects@),
            else_body: match &self.else_block {
                Some(eb) => Some(stmts_view(eb.objects@)),
                None => None,
            },
            line: self.line as int,
        };
        let cond = match self.expression.calc(ctx) {
            Ok(b) => b,
            Err(f) => {
                proof {
                    lemma_prefix_refl(ctx.glade@.trace);
                    assert(run_rel(
                        TaskV::Stmt(sv),
                        entry.run_view(),
                        ctx.run_view(),
                        Err(Stop::Fatal(f)),
                        0,
                    ));
                }
                return Err(Stop::Fatal(f));
            },
        };
        let ghost bp = eval_be(
            self.expression,
            entry.variables@,
            entry.glade@,
            entry.points as int,
        )->Ok_0;
        proof {
            lemma_eval_be_points(
                self.expression,
                entry.variables@,
                entry.glade@,
                entry.points as int,
            );
            lemma_prefix_refl(ctx.glade@.trace);
            assert(ctx.run_view() =~= (RunView { points: bp.1, ..entry.run_view() }));
        }
        let ghost after_cond = *ctx;
        let r = if cond {
            self.if_block.execute(ctx)
        } else {
            match &self.else_block {
                Some(eb) => eb.execute(ctx),
                None => {
                    proof {
                        lemma_prefix_refl(ctx.glade@.trace);
                    }
                    Ok(())
                },
            }
        };
        proof {
            lemma_run_frame_trans(entry, after_cond, *ctx);
            assert(run_rel(TaskV::Stmt(sv), entry.run_view(), ctx.run_view(), r, 0));
        }
        r
    }
}

impl CodeBlock {
    /// Execute the statements in source order, stopping early on success or
    /// on a fatal condition.
    #[verifier::rlimit(100)]
    #[verifier::spinoff_prover]
    pub fn execute(&self, ctx: &mut Context) -> (r: Result<(), Stop>)
        requires
            old(ctx).wf(),
        ensures
            final(ctx).wf(),
            run_frame(*old(ctx), *final(ctx)),
            r == Err::<(), Stop>(Stop::Success) ==> final(ctx).glade@.succeeded(),
            block_rel(
                stmts_view(self.objects@),
                old(ctx).run_view(),
                final(ctx).run_view(),
                r,
            ),
        decreases potential(*old(ctx)), *self,
    {
        proof {
            lemma_run_frame_refl(*ctx);
        }
        let ghost full = stmts_view(self.objects@);
        proof {
            lemma_stmts_view_len(self.objects@);
            assert(full.skip(0) =~= full);
        }
        let mut i: usize = 0;
        while i < self.objects.len()
            invariant
                old(ctx).wf(),
                ctx.wf(),
                i <= self.objects@.len(),
                run_frame(*old(ctx), *ctx),
                full == stmts_view(self.objects@),
                full.len() == self.objects@.len(),
                forall|p: RunView, rr: Result<(), Stop>|
                    #[trigger] run_rel(TaskV::Block(full.skip(i as int)), ctx.run_view(), p, rr, 0)
                        ==> run_rel(TaskV::Block(full), old(ctx).run_view(), p, rr, 0),
            decreases self.objects@.len() - i,
        {
            let ghost at_head = *ctx;
            proof {
                lemma_stmts_view_index(self.objects@, i as int);
                lemma_stmt_view_unfold(self.objects@[i as int]);
            }
            let step_r: Result<(), Stop> = match &self.objects[i] {
                LangObject::Zolang(v) => v.run_loop(ctx),
                LangObject::Als(v) => v.run_if(ctx),
                LangObject::Assignment(v) => {
                    let rs = v.calc(ctx);
                    proof {
                        lemma_prefix_refl(at_head.glade@.trace);
                        if rs is Ok {
                            assert(ctx.run_view() =~= (RunView {
                                points: eval_ev(
                                    v.expression,
                                    v.line as int,
                                    at_head.variables@,
                                    at_head.glade@,
                                    spec_charge(
                                        at_head.points as int,
                                        ASSIGNMENT_USAGE as int,
                                    )->Some_0,
                                )->Ok_0.1,
                                vars: at_head.variables@.update(
                                    slot_of(v.var),
                                    Some(
                                        Some(
                                            eval_ev(
                                                v.expression,
                                                v.line as int,
                                                at_head.variables@,
                                                at_head.glade@,
                                                spec_charge(
                                                    at_head.points as int,
                                                    ASSIGNMENT_USAGE as int,
                                                )->Some_0,
                                            )->Ok_0.0,
                                        ),
                                    ),
                                ),
                                glade: at_head.glade@,
                            }));
                        }
                        assert(run_rel(
                            TaskV::Stmt(stmt_view(self.objects@[i as int])),
                            at_head.run_view(),
                            ctx.run_view(),
                            match rs {
                                Ok(_) => Ok::<(), Stop>(()),
                                Err(f) => Err(Stop::Fatal(f)),
                            },
                            0,
                        ));
                    }
                    match rs {
                        Ok(_) => Ok(()),
                        Err(f) => Err(Stop::Fatal(f)),
                    }
                },
                LangObject::Print(v) => {
                    let rs = v.print(ctx);
                    proof {
                        lemma_prefix_refl(at_head.glade@.trace);
                        if rs is Ok {
                            lemma_prefix_push(
                                at_head.glade@.trace,
                                ctx.glade@.trace.last(),
                            );
                            assert(ctx.run_view() =~= (RunView {
                                points: eval_ev(
                                    v.expression,
                                    v.line as int,
                                    at_head.variables@,
                                    at_head.glade@,
                                    at_head.points as int,
                                )->Ok_0.1,
                                vars: at_head.variables@,
                                glade: GladeView {
                                    trace: at_head.glade@.trace.push(
                                        Trace::Printed {
                                            line: v.line,
                                            value: eval_ev(
                                                v.expression,
                                                v.line as int,
                                                at_head.variables@,
                                                at_head.glade@,
                                                at_head.points as int,
                                            )->Ok_0.0,
                                        },
                                    ),
                                    ..at_head.glade@
                                },
                            }));
                        }
                        assert(run_rel(
                            TaskV::Stmt(stmt_view(self.objects@[i as int])),
                            at_head.run_view(),
                            ctx.run_view(),
                            match rs {
                                Ok(_) => Ok::<(), Stop>(()),
                                Err(f) => Err(Stop::Fatal(f)),
                            },
                            0,
                        ));
                    }
                    match rs {
                        Ok(_) => Ok(()),
                        Err(f) => Err(Stop::Fatal(f)),
                    }
                },
                LangObject::TurnLeft => Self::turn_step(ctx, false),
                LangObject::TurnRight => Self::turn_step(ctx, true),
                LangObject::StepForwards => Self::move_step(ctx, true),
                LangObject::StepBackwards => Self::move_step(ctx, false),
            };
            proof {
                assert(full.skip(i as int)[0] == full[i as int]);
                assert(stmt_rel(full.skip(i as int)[0], at_head.run_view(), ctx.run_view(), step_r));
            }
            match step_r {
                Ok(_) => {
                    proof {
                        lemma_run_frame_trans(*old(ctx), at_head, *ctx);
                        assert forall|p: RunView, rr: Result<(), Stop>|
                            #[trigger] run_rel(
                                TaskV::Block(full.skip(i + 1)),
                                ctx.run_view(),
                                p,
                                rr,
                                0,
                            ) implies run_rel(
                            TaskV::Block(full),
                            old(ctx).run_view(),
                            p,
                            rr,
                            0,
                        ) by {
                            assert(full.skip(i as int).drop_first() =~= full.skip(i + 1));
                            lemma_block_rel_cons(
                                full.skip(i as int),
                                at_head.run_view(),
                                ctx.run_view(),
                                p,
                                rr,
                                step_r,
                            );
                        }
                    }
                },
                Err(s) => {
                    proof {
                        lemma_run_frame_trans(*old(ctx), at_head, *ctx);
                        lemma_block_rel_halt(
                            full.skip(i as int),
                            at_head.run_view(),
                            ctx.run_view(),
                            s,
                        );
                    }
                    return Err(s);
                },
            }
            i = i + 1;
        }
        proof {
            assert(full.skip(i as int).len() == 0);
            assert(run_rel(TaskV::Block(full.skip(i as int)), ctx.run_view(), ctx.run_view(), Ok(()), 0));
        }
        Ok(())
    }

    /// One manual turn statement: charge the turn weight, then turn,
    /// re-entering the cell under the walker.
    fn turn_step(ctx: &mut Context, right: bool) -> (r: Result<(), Stop>)
        requires
            old(ctx).wf(),
        ensures
            final(ctx).wf(),
            run_frame(*old(ctx), *final(ctx)),
            r != Err::<(), Stop>(Stop::Success),
            stmt_rel(
                if right {
                    StmtV::TurnRight
                } else {
                    StmtV::TurnLeft
                },
                old(ctx).run_view(),
                final(ctx).run_view(),
                r,
            ),
    {
        proof {
            lemma_run_frame_refl(*ctx);
            lemma_prefix_refl(ctx.glade@.trace);
        }
        let weight = if right {
            TURNRIGHT_USAGE
        } else {
            TURNLEFT_USAGE
        };
        match ctx.add_points(weight) {
            Ok(_) => {},
            Err(f) => {
                proof {
                    assert(final(ctx).run_view() =~= old(ctx).run_view());
                }
                return Err(Stop::Fatal(f));
            },
        }
        let ghost mid = *ctx;
        let ghost g0 = ctx.glade@;
        let rt = if right {
            ctx.glade.turn_right(false)
        } else {
            ctx.glade.turn_left(false)
        };
        proof {
            let d = if right {
                g0.griever.direction.spec_right()
            } else {
                g0.griever.direction.spec_left()
            };
            crate::map::lemma_turn_post_pot(g0, ctx.glade@, d, false, rt);
            lemma_turn_stmt_intro(
                old(ctx).run_view(),
                ctx.run_view(),
                d,
                weight as int,
                rt,
            );
        }
        match rt {
            Ok(_) => Ok(()),
            Err(f) => Err(Stop::Fatal(f)),
        }
    }

    /// One step statement: step, deduct the payoff or record the collision
    /// and charge the obstacle weight, then stop with success the moment
    /// every target has been reached in order.
    fn move_step(ctx: &mut Context, forwards: bool) -> (r: Result<(), Stop>)
        requires
            old(ctx).wf(),
        ensures
            final(ctx).wf(),
            run_frame(*old(ctx), *final(ctx)),
            r == Err::<(), Stop>(Stop::Success) ==> final(ctx).glade@.succeeded(),
            stmt_rel(
                if forwards {
                    StmtV::StepForwards
                } else {
                    StmtV::StepBackwards
                },
                old(ctx).run_view(),
                final(ctx).run_view(),
                r,
            ),
    {
        proof {
            lemma_run_frame_refl(*ctx);
            lemma_prefix_refl(ctx.glade@.trace);
        }
        let ghost g0 = ctx.glade@;
        let ghost target = if forwards {
            g0.forward_target()
        } else {
            g0.backward_target()
        };
        let res = if forwards {
            ctx.glade.forward()
        } else {
            ctx.glade.backward()
        };
        let ghost g2 = ctx.glade@;
        proof {
            crate::map::lemma_move_post_pot(g0, g2, target, res);
        }
        let step_r: Result<(), Stop> = match res {
            Ok(inner) => match inner {
                Ok(payoff) => {
                    let np = ctx.points - payoff;
                    if np < 0 {
                        Err(Stop::Fatal(Fault::LedgerUnderflow))
                    } else {
                        ctx.points = np;
                        if ctx.glade.success() {
                            Err(Stop::Success)
                        } else {
                            Ok(())
                        }
                    }
                },
                Err(_) => {
                    let cx = ctx.glade.griever.x;
                    let cy = ctx.glade.griever.y;
                    let cd = ctx.glade.griever.direction;
                    proof {
                        lemma_prefix_push(
                            ctx.glade@.trace,
                            Trace::Collision { x: cx, y: cy, dir: cd },
                        );
                    }
                    ctx.glade.trace.push(Trace::Collision { x: cx, y: cy, dir: cd });
                    match ctx.add_points(PUSH_OBSTACLE) {
                        Ok(_) => {
                            if ctx.glade.success() {
                                Err(Stop::Success)
                            } else {
                                Ok(())
                            }
                        },
                        Err(f) => Err(Stop::Fatal(f)),
                    }
                },
            },
            Err(f) => Err(Stop::Fatal(f)),
        };
        proof {
            lemma_prefix_trans(g0.trace, g2.trace, ctx.glade@.trace);
            lemma_step_stmt_intro(
                old(ctx).run_view(),
                ctx.run_view(),
                target,
                step_r,
                res,
                g2,
            );
        }
        step_r
    }
}

/// The parts of the context that the declaration pass leaves alone.
pub open spec fn decl_frame(pre: Context, post: Context) -> bool {
    &&& post.file_text == pre.file_text
    &&& post.code == pre.code
    &&& post.glade == pre.glade
}

impl Context {
    /// The declaration pass: scan every line for `gebruik` declarations,
    /// mirroring [`spec_decls`].
    pub fn parse_variables(&mut self, lines: &Vec<Vec<char>>) -> (r: Result<(), Fault>)
        requires
            old(self).wf(),
        ensures
            final(self).wf(),
            decl_frame(*old(self), *final(self)),
            match spec_decls(
                lines.deep_view(),
                0,
                old(self).variables@,
                old(self).useable@,
                old(self).points as int,
            ) {
                Ok(t3) => r is Ok && final(self).variables@ == t3.0 && final(self).useable@
                    == t3.1 && final(self).points == t3.2,
                Err(f) => r == Err::<(), Fault>(f),
            },
    {
        let ghost lv = lines.deep_view();
        let ghost vars0 = self.variables@;
        let ghost hws0 = self.useable@;
        let ghost pts0 = self.points as int;
        let mut i: usize = 0;
        while i < lines.len()
            invariant
                old(self).wf(),
                self.wf(),
                decl_frame(*old(self), *self),
                i <= lines@.len(),
                lv == lines.deep_view(),
                vars0 == old(self).variables@,
                hws0 == old(self).useable@,
                pts0 == old(self).points as int,
                spec_decls(lv, 0, vars0, hws0, pts0) == spec_decls(
                    lv,
                    i as int,
                    self.variables@,
                    self.useable@,
                    self.points as int,
                ),
            decreases lines@.len() - i,
        {
            proof {
                assert(lv[i as int] == lines@[i as int]@);
            }
            let t = lex::trim(&lines[i]);
            let toks = lex::split_char(&t, ' ');
            proof {
                assert(toks.deep_view()[0] == toks@[0]@);
                if toks@.len() >= 2 {
                    assert(toks.deep_view()[1] == toks@[1]@);
                }
            }
            let is_decl_head = toks.len() == 2 && lex::eq_str(&toks[0], "gebruik");
            if is_decl_head {
                if lex::eq_str(&toks[1], "kompas") {
                    self.useable.push(Hardware::Kompas);
                    match self.add_points(KOMPAS_HARDWARE) {
                        Ok(_) => {},
                        Err(f) => {
                            return Err(f);
                        },
                    }
                } else if lex::eq_str(&toks[1], "zwOog") {
                    self.useable.push(Hardware::ZwOog);
                    match self.add_points(ZWOOG_HARDWARE) {
                        Ok(_) => {},
                        Err(f) => {
                            return Err(f);
                        },
                    }
                } else if lex::eq_str(&toks[1], "kleurOog") {
                    self.useable.push(Hardware::KleurOog);
                    match self.add_points(KLEUROOG_HARDWARE) {
                        Ok(_) => {},
                        Err(f) => {
                            return Err(f);
                        },
                    }
                } else if toks[1].len() == 1 && {
                    let c = toks[1][0];
                    (c as u32) >= ('a' as u32) && (c as u32) <= ('z' as u32)
                } {
                    let c = toks[1][0];
                    let idx = (c as u32 - 'a' as u32) as usize;
                    self.variables[idx] = Some(None);
                    match self.add_points(VAR_HARDWARE) {
                        Ok(_) => {},
                        Err(f) => {
                            return Err(f);
                        },
                    }
                }
            }
            i = i + 1;
        }
        Ok(())
    }

    /// Compile the source: the declaration pass, then the body pass, storing
    /// the compiled tree.
    pub fn parse(&mut self) -> (r: Result<(), Fault>)
        requires
            old(self).wf(),
        ensures
            final(self).wf(),
            final(self).file_text == old(self).file_text,
            final(self).glade == old(self).glade,
            ({
                let lv = lex::split_on(old(self).file_text@, '\n');
                match spec_decls(
                    lv,
                    0,
                    old(self).variables@,
                    old(self).useable@,
                    old(self).points as int,
                ) {
                    Err(f) => r == Err::<(), Fault>(f),
                    Ok(t3) => {
                        &&& final(self).variables@ == t3.0
                        &&& final(self).useable@ == t3.1
                        &&& match spec_block(lv, 0, lv.len() as int, t3.0, t3.1, t3.2) {
                            Err(f) => r == Err::<(), Fault>(f),
                            Ok(sp) => r is Ok && stmts_view(final(self).code.objects@) == sp.0
                                && final(self).points == sp.1,
                        }
                    },
                }
            }),
    {
        let chars = lex::to_chars(self.file_text.as_str());
        let lines = lex::split_char(&chars, '\n');
        match self.parse_variables(&lines) {
            Ok(_) => {},
            Err(f) => {
                return Err(f);
            },
        }
        let cb = match CodeBlock::parse(&lines, 0, lines.len(), self) {
            Ok(cb) => cb,
            Err(f) => {
                return Err(f);
            },
        };
        self.code = cb;
        Ok(())
    }

    /// Run the compiled tree against the context: the effects are exactly a
    /// big-step walk of the tree ([`block_rel`]), the tree itself survives
    /// unchanged, and the outcome is early success, a fatal condition, or
    /// ordinary exhaustion of the program.
    pub fn execute(&mut self) -> (r: Result<(), Stop>)
        requires
            old(self).wf(),
        ensures
            final(self).wf(),
            final(self).code == old(self).code,
            final(self).file_text == old(self).file_text,
            final(self).useable == old(self).useable,
            final(self).variables@.len() == old(self).variables@.len(),
            ({
                let post_vars = final(self).variables@;
                forall|i: int|
                    0 <= i < old(self).variables@.len() ==> (((#[trigger] post_vars[i]) is Some)
                        == (old(self).variables@[i] is Some))
            }),
            final(self).glade@.last_target == old(self).glade@.last_target,
            final(self).glade@.target_count >= old(self).glade@.target_count,
            old(self).glade@.trace.is_prefix_of(final(self).glade@.trace),
            r == Err::<(), Stop>(Stop::Success) ==> final(self).glade@.succeeded(),
            block_rel(
                stmts_view(old(self).code.objects@),
                old(self).run_view(),
                final(self).run_view(),
                r,
            ),
    {
        let mut code = CodeBlock { objects: Vec::new(), line: 0 };
        core::mem::swap(&mut code, &mut self.code);
        let ghost before = *self;
        let r = code.execute(self);
        proof {
            assert(before.run_view() =~= old(self).run_view());
        }
        core::mem::swap(&mut code, &mut self.code);
        r
    }
}

} // verus!
