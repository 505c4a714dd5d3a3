//! The field model: the 20x20 grid of cells, the walker's pose, the tick
//! counter, and the ordered-target progression, together with the cell-entry
//! state machine that the actuators dispatch through.

use crate::fault::{Fault, Trace};
use crate::lex;
use crate::lex::all_digits;
use crate::weights::{
    BLACK_SQUARE, BLUE_SQUARE, GRAY_SQUARE, GREEN_SQUARE, ORANGE_SQUARE, PURPLE_SQUARE, RED_SQUARE,
    WHITE_SQUARE, YELLOW_SQUARE,
};
use vstd::prelude::*;

verus! {

/// Compass direction of the walker. North points to smaller `y`, East to
/// larger `x`.
#[derive(Clone, Copy, Debug, PartialEq, Eq, Structural)]
pub enum Direction {
    North,
    East,
    South,
    West,
}

impl Direction {
    /// The conventional small-integer code of the direction.
    pub open spec fn index(self) -> int {
        match self {
            Direction::North => 0,
            Direction::East => 1,
            Direction::South => 2,
            Direction::West => 3,
        }
    }

    /// The direction after one quarter turn to the right.
    pub open spec fn spec_right(self) -> Direction {
        match self {
            Direction::North => Direction::East,
            Direction::East => Direction::South,
            Direction::South => Direction::West,
            Direction::West => Direction::North,
        }
    }

    /// The direction after one quarter turn to the left.
    pub open spec fn spec_left(self) -> Direction {
        match self {
            Direction::North => Direction::West,
            Direction::East => Direction::North,
            Direction::South => Direction::East,
            Direction::West => Direction::South,
        }
    }

    /// The direction after `k` quarter turns to the right.
    pub open spec fn spec_right_n(self, k: nat) -> Direction
        decreases k,
    {
        if k == 0 {
            self
        } else {
            self.spec_right().spec_right_n((k - 1) as nat)
        }
    }

    /// Decode a direction from the digit of a spawn token.
    pub fn parse(i: u32) -> (r: Result<Direction, Fault>)
        ensures
            match r {
                Ok(d) => i <= 3 && d.index() == i as int,
                Err(f) => i > 3 && f == (Fault::BadDirection { value: i }),
            },
    {
        match i {
            0 => Ok(Direction::North),
            1 => Ok(Direction::East),
            2 => Ok(Direction::South),
            3 => Ok(Direction::West),
            _ => Err(Fault::BadDirection { value: i }),
        }
    }
}

/// One grid square.
///
/// `Bomb` carries its fuse and the tick at which the walker first entered it
/// (0 while unarmed). `Money` carries its exponent and whether its payoff has
/// been taken. `Target` carries its 0-based index. `Griever` only appears in
/// the input and is replaced by `BlackSquare` at load time.
#[derive(Clone, Copy, Debug, PartialEq, Eq, Structural)]
pub enum Content {
    Obstacle,
    Bomb(u64, u64),
    WhiteSquare,
    GraySquare,
    RedSquare,
    OrangeSquare,
    YellowSquare,
    GreenSquare,
    BlueSquare,
    PurpleSquare,
    BlackSquare,
    Griever(u32),
    Money(u32, bool),
    Turner(u32),
    Target(u32),
}

/// The colour code a cell reports to the colour eye.
pub open spec fn spec_color_value(c: Content) -> int {
    match c {
        Content::BlackSquare => BLACK_SQUARE as int,
        Content::Bomb(_, _) => BLACK_SQUARE as int,
        Content::Griever(_) => BLACK_SQUARE as int,
        Content::Obstacle => BLACK_SQUARE as int,
        Content::YellowSquare => YELLOW_SQUARE as int,
        Content::Money(_, _) => YELLOW_SQUARE as int,
        Content::Target(_) => YELLOW_SQUARE as int,
        Content::BlueSquare => BLUE_SQUARE as int,
        Content::Turner(_) => BLUE_SQUARE as int,
        Content::GraySquare => GRAY_SQUARE as int,
        Content::GreenSquare => GREEN_SQUARE as int,
        Content::OrangeSquare => ORANGE_SQUARE as int,
        Content::PurpleSquare => PURPLE_SQUARE as int,
        Content::RedSquare => RED_SQUARE as int,
        Content::WhiteSquare => WHITE_SQUARE as int,
    }
}

/// Every cell a token parses to carries an in-bounds payload.
pub proof fn lemma_parsed_cell_ok(s: Seq<char>)
    ensures
        spec_parse_cell(s) matches Some(c) ==> cell_ok(c),
{
}

impl Content {
    /// Report the colour code of this cell.
    pub fn get_color_value(&self) -> (r: i32)
        ensures
            r == spec_color_value(*self),
            0 <= r <= 8,
    {
        match self {
            Content::BlackSquare | Content::Bomb(_, _) | Content::Griever(_)
                | Content::Obstacle => BLACK_SQUARE,
            Content::YellowSquare | Content::Money(_, _) | Content::Target(_) => YELLOW_SQUARE,
            Content::BlueSquare | Content::Turner(_) => BLUE_SQUARE,
            Content::GraySquare => GRAY_SQUARE,
            Content::GreenSquare => GREEN_SQUARE,
            Content::OrangeSquare => ORANGE_SQUARE,
            Content::PurpleSquare => PURPLE_SQUARE,
            Content::RedSquare => RED_SQUARE,
            Content::WhiteSquare => WHITE_SQUARE,
        }
    }
}

/// The stored form of a parsed grid token: one letter (case-insensitive)
/// selecting the variant, optionally followed by a run of decimal digits
/// supplying the payload. Targets are written 1-based and stored 0-based;
/// bombs start unarmed; money starts untaken. Tokens whose payload would not
/// fit the variant's machine bounds are rejected like unknown letters.
pub open spec fn spec_parse_cell(s: Seq<char>) -> Option<Content> {
    if s.len() == 0 {
        None
    } else {
        let h = s[0];
        let rest = s.subrange(1, s.len() as int);
        if h == 'q' || h == 'Q' {
            if all_digits(rest) { Some(Content::Obstacle) } else { None }
        } else if h == 'w' || h == 'W' {
            if all_digits(rest) { Some(Content::WhiteSquare) } else { None }
        } else if h == 'g' || h == 'G' {
            if all_digits(rest) { Some(Content::GraySquare) } else { None }
        } else if h == 'r' || h == 'R' {
            if all_digits(rest) { Some(Content::RedSquare) } else { None }
        } else if h == 'o' || h == 'O' {
            if all_digits(rest) { Some(Content::OrangeSquare) } else { None }
        } else if h == 'y' || h == 'Y' {
            if all_digits(rest) { Some(Content::YellowSquare) } else { None }
        } else if h == 'e' || h == 'E' {
            if all_digits(rest) { Some(Content::GreenSquare) } else { None }
        } else if h == 'b' || h == 'B' {
            if all_digits(rest) { Some(Content::BlueSquare) } else { None }
        } else if h == 'p' || h == 'P' {
            if all_digits(rest) { Some(Content::PurpleSquare) } else { None }
        } else if h == 'l' || h == 'L' {
            if all_digits(rest) { Some(Content::BlackSquare) } else { None }
        } else if h == 'x' || h == 'X' {
            if rest.len() > 0 && all_digits(rest) && lex::digits_val(rest) <= u64::MAX {
                Some(Content::Bomb(lex::digits_val(rest) as u64, 0))
            } else {
                None
            }
        } else if h == 't' || h == 'T' {
            if rest.len() > 0 && all_digits(rest) && 1 <= lex::digits_val(rest) <= 400 {
                Some(Content::Target((lex::digits_val(rest) - 1) as u32))
            } else {
                None
            }
        } else if h == 'm' || h == 'M' {
            if rest.len() > 0 && all_digits(rest) && lex::digits_val(rest) <= 30 {
                Some(Content::Money(lex::digits_val(rest) as u32, false))
            } else {
                None
            }
        } else if h == 'd' || h == 'D' {
            if rest.len() > 0 && all_digits(rest) && lex::digits_val(rest) <= u32::MAX {
                Some(Content::Turner(lex::digits_val(rest) as u32))
            } else {
                None
            }
        } else if h == 's' || h == 'S' {
            if rest.len() > 0 && all_digits(rest) && lex::digits_val(rest) <= u32::MAX {
                Some(Content::Griever(lex::digits_val(rest) as u32))
            } else {
                None
            }
        } else {
            None
        }
    }
}

impl Content {
    /// Decode one grid token, or nothing when it is malformed.
    pub fn parse(text: &Vec<char>) -> (r: Option<Content>)
        ensures
            r == spec_parse_cell(text@),
    {
        if text.len() == 0 {
            return None;
        }
        let h = text[0];
        let rest = lex::subvec(text, 1, text.len());
        if h == 'q' || h == 'Q' || h == 'w' || h == 'W' || h == 'g' || h == 'G' || h == 'r' || h
            == 'R' || h == 'o' || h == 'O' || h == 'y' || h == 'Y' || h == 'e' || h == 'E' || h
            == 'b' || h == 'B' || h == 'p' || h == 'P' || h == 'l' || h == 'L' {
            if !lex::all_digits_exec(&rest) {
                return None;
            }
            if h == 'q' || h == 'Q' {
                Some(Content::Obstacle)
            } else if h == 'w' || h == 'W' {
                Some(Content::WhiteSquare)
            } else if h == 'g' || h == 'G' {
                Some(Content::GraySquare)
            } else if h == 'r' || h == 'R' {
                Some(Content::RedSquare)
            } else if h == 'o' || h == 'O' {
                Some(Content::OrangeSquare)
            } else if h == 'y' || h == 'Y' {
                Some(Content::YellowSquare)
            } else if h == 'e' || h == 'E' {
                Some(Content::GreenSquare)
            } else if h == 'b' || h == 'B' {
                Some(Content::BlueSquare)
            } else if h == 'p' || h == 'P' {
                Some(Content::PurpleSquare)
            } else {
                Some(Content::BlackSquare)
            }
        } else if h == 'x' || h == 'X' {
            match lex::parse_u64(&rest) {
                Some(v) => Some(Content::Bomb(v, 0)),
                None => None,
            }
        } else if h == 't' || h == 'T' {
            match lex::parse_u32(&rest) {
                Some(v) => if 1 <= v && v <= 400 {
                    Some(Content::Target(v - 1))
                } else {
                    None
                },
                None => None,
            }
        } else if h == 'm' || h == 'M' {
            match lex::parse_u32(&rest) {
                Some(v) => if v <= 30 {
                    Some(Content::Money(v, false))
                } else {
                    None
                },
                None => None,
            }
        } else if h == 's' || h == 'S' {
            match lex::parse_u32(&rest) {
                Some(v) => Some(Content::Griever(v)),
                None => None,
            }
        } else if h == 'd' || h == 'D' {
            match lex::parse_u32(&rest) {
                Some(v) => Some(Content::Turner(v)),
                None => None,
            }
        } else {
            None
        }
    }
}

/// `s` incremented by one tick, sticking at the top of the machine range.
pub open spec fn sat_inc(s: u64) -> u64 {
    if s == u64::MAX {
        s
    } else {
        (s + 1) as u64
    }
}

/// `s` advanced by `k` ticks, sticking at the top of the machine range.
pub open spec fn sat_add(s: u64, k: nat) -> u64
    decreases k,
{
    if k == 0 {
        s
    } else {
        sat_inc(sat_add(s, (k - 1) as nat))
    }
}

/// Two raised to the power `e`.
pub open spec fn pow2(e: nat) -> nat
    decreases e,
{
    if e == 0 {
        1
    } else {
        2 * pow2((e - 1) as nat)
    }
}

/// `pow2` grows monotonically with the exponent.
pub proof fn lemma_pow2_mono(a: nat, b: nat)
    requires
        a <= b,
    ensures
        pow2(a) <= pow2(b),
    decreases b,
{
    if a < b {
        lemma_pow2_mono(a, (b - 1) as nat);
    }
}

/// Compute `2^e` as a payoff value.
fn pow2_exec(e: u32) -> (r: i32)
    requires
        e <= 30,
    ensures
        r == pow2(e as nat),
        1 <= r <= 0x4000_0000,
{
    proof {
        lemma_pow2_mono(e as nat, 30);
        assert(pow2(30) == 0x4000_0000) by {
            reveal_with_fuel(pow2, 31);
        }
    }
    let mut r: i32 = 1;
    let mut i: u32 = 0;
    while i < e
        invariant
            i <= e <= 30,
            r == pow2(i as nat),
            pow2(e as nat) <= 0x4000_0000,
        decreases e - i,
    {
        proof {
            lemma_pow2_mono((i + 1) as nat, e as nat);
        }
        r = r * 2;
        i = i + 1;
    }
    r
}

/// The walker: its grid position and heading.
#[derive(Clone, Copy, Debug, PartialEq, Eq, Structural)]
pub struct Griever {
    pub x: usize,
    pub y: usize,
    pub direction: Direction,
}

impl Griever {
    /// Report the heading as its small-integer code.
    pub fn kompas(&self) -> (r: i32)
        ensures
            r == self.direction.index(),
    {
        match self.direction {
            Direction::North => 0,
            Direction::East => 1,
            Direction::South => 2,
            Direction::West => 3,
        }
    }
}

/// Bounds on the payloads a loaded cell may carry: a money exponent must
/// keep its payoff inside the payoff type, and a target index must fit the
/// grid (a contiguous run of targets cannot outnumber the cells).
pub open spec fn cell_ok(c: Content) -> bool {
    match c {
        Content::Money(e, _) => e <= 30,
        Content::Target(i) => i < 400,
        _ => true,
    }
}

/// The field: the grid, the walker, the tick counter, the target progression,
/// and the trace of announcements the run has made so far.
///
/// The grid is stored row-major: the cell at column `x` and row `y` sits at
/// index `y * 20 + x`.
#[derive(Clone, Debug)]
pub struct Glade {
    pub map: Vec<Content>,
    pub griever: Griever,
    pub seconds: u64,
    pub target_count: i32,
    pub last_target: i32,
    pub trace: Vec<Trace>,
}

/// The mathematical value of a [`Glade`].
#[verifier::ext_equal]
pub ghost struct GladeView {
    pub map: Seq<Content>,
    pub griever: Griever,
    pub seconds: u64,
    pub target_count: int,
    pub last_target: int,
    pub trace: Seq<Trace>,
}

impl View for Glade {
    type V = GladeView;

    open spec fn view(&self) -> GladeView {
        GladeView {
            map: self.map@,
            griever: self.griever,
            seconds: self.seconds,
            target_count: self.target_count as int,
            last_target: self.last_target as int,
            trace: self.trace@,
        }
    }
}

impl GladeView {
    /// The cell at column `x`, row `y`.
    pub open spec fn cell(self, x: int, y: int) -> Content {
        self.map[y * 20 + x]
    }

    /// Well-formedness: the grid holds exactly 400 cells, the walker stands
    /// inside it and never on an obstacle, the target progression counters
    /// stay inside the grid's capacity, and every cell's payload is in
    /// bounds. Spawn markers never survive loading.
    pub open spec fn wf(self) -> bool {
        &&& self.map.len() == 400
        &&& self.griever.x < 20
        &&& self.griever.y < 20
        &&& !(self.cell(self.griever.x as int, self.griever.y as int) is Obstacle)
        &&& -1 <= self.target_count <= self.last_target
        &&& 0 <= self.last_target < 400
        &&& forall|i: int| 0 <= i < 400 ==> cell_ok(#[trigger] self.map[i])
        &&& forall|i: int| 0 <= i < 400 ==> !((#[trigger] self.map[i]) is Griever)
        &&& forall|i: int|
            0 <= i < 400 ==> ((#[trigger] self.map[i]) matches Content::Target(t) ==> t
                <= self.last_target)
    }

    /// One tick later.
    pub open spec fn tick(self) -> GladeView {
        GladeView { seconds: sat_inc(self.seconds), ..self }
    }

    /// The walker rotated in place to `d`.
    pub open spec fn with_dir(self, d: Direction) -> GladeView {
        GladeView { griever: Griever { direction: d, ..self.griever }, ..self }
    }

    /// The walker standing at `(x, y)`.
    pub open spec fn walker_at(self, x: int, y: int) -> GladeView {
        GladeView {
            griever: Griever { x: x as usize, y: y as usize, direction: self.griever.direction },
            ..self
        }
    }

    /// The cell at `(x, y)` replaced by `c`.
    pub open spec fn with_cell(self, x: int, y: int, c: Content) -> GladeView {
        GladeView { map: self.map.update(y * 20 + x, c), ..self }
    }

    /// Whether every numbered target has been reached in order.
    pub open spec fn succeeded(self) -> bool {
        self.target_count != -1 && self.target_count == self.last_target
    }

    /// The square one step ahead of the walker, if it is on the grid.
    pub open spec fn forward_target(self) -> Option<(int, int)> {
        let x = self.griever.x as int;
        let y = self.griever.y as int;
        match self.griever.direction {
            Direction::North => if y > 0 { Some((x, y - 1)) } else { None },
            Direction::East => if x < 19 { Some((x + 1, y)) } else { None },
            Direction::South => if y < 19 { Some((x, y + 1)) } else { None },
            Direction::West => if x > 0 { Some((x - 1, y)) } else { None },
        }
    }

    /// The square one step behind the walker, if it is on the grid.
    pub open spec fn backward_target(self) -> Option<(int, int)> {
        let x = self.griever.x as int;
        let y = self.griever.y as int;
        match self.griever.direction {
            Direction::North => if y < 19 { Some((x, y + 1)) } else { None },
            Direction::East => if x > 0 { Some((x - 1, y)) } else { None },
            Direction::South => if y > 0 { Some((x, y - 1)) } else { None },
            Direction::West => if x < 19 { Some((x + 1, y)) } else { None },
        }
    }
}

/// How many automatic right turns `k` a turner cell with payload `n` may
/// perform: exactly `n` when `n > 0`, a random draw below 4 when `n == 0`.
/// Every other cell performs none.
pub open spec fn turn_ok(c: Content, k: nat) -> bool {
    match c {
        Content::Turner(n) => (n == 0 && k < 4) || (n > 0 && k == n),
        _ => k == 0,
    }
}

/// The cell-entry state machine: the field after the walker enters the cell
/// at `(x, y)` of `pre`, and the outcome handed back — `Ok(Ok(payoff))` for a
/// completed entry, `Ok(Err(()))` for a blocked one, `Err(fault)` for a
/// detonation. `k` is the number of automatic right turns a turner performs.
/// Entry by itself never moves the walker.
pub open spec fn enter_step(pre: GladeView, x: int, y: int, k: nat) -> (
    GladeView,
    Result<Result<i32, ()>, Fault>,
) {
    match pre.cell(x, y) {
        Content::Obstacle => (pre, Ok(Err(()))),
        Content::Bomb(fuse, armed_at) => if fuse == 0 || armed_at + fuse == pre.seconds {
            (pre, Err(Fault::Detonation { x: x as usize, y: y as usize }))
        } else if armed_at == 0 {
            (pre.with_cell(x, y, Content::Bomb(fuse, pre.seconds)), Ok(Ok(0)))
        } else {
            (pre, Ok(Ok(0)))
        },
        Content::Money(e, taken) => if !taken {
            (pre.with_cell(x, y, Content::Money(e, true)), Ok(Ok(pow2(e as nat) as i32)))
        } else {
            (pre, Ok(Ok(0)))
        },
        Content::Target(idx) => (
            GladeView {
                trace: pre.trace.push(Trace::PassedTarget { number: (idx + 1) as u32 }),
                target_count: if idx == pre.target_count + 1 {
                    idx as int
                } else {
                    pre.target_count
                },
                ..pre
            },
            Ok(Ok(0)),
        ),
        Content::Turner(_) => (
            GladeView {
                griever: Griever {
                    direction: pre.griever.direction.spec_right_n(k),
                    ..pre.griever
                },
                seconds: sat_add(pre.seconds, k),
                ..pre
            },
            Ok(Ok(0)),
        ),
        _ => (pre, Ok(Ok(0))),
    }
}

/// The relational form of [`enter_step`]: some admissible turn count took the
/// field from `pre` to `post` with outcome `r`.
pub open spec fn enter_rel(
    pre: GladeView,
    post: GladeView,
    x: int,
    y: int,
    r: Result<Result<i32, ()>, Fault>,
) -> bool {
    exists|k: nat|
        #![trigger enter_step(pre, x, y, k)]
        turn_ok(pre.cell(x, y), k) && post == enter_step(pre, x, y, k).0 && r == enter_step(
            pre,
            x,
            y,
            k,
        ).1
}

/// What a step (forward or backward) guarantees: out of bounds when the
/// target square `t` is off the grid, otherwise one tick followed by entry of
/// `t`, with the pose moved onto `t` exactly when the entry completed.
pub open spec fn move_post(
    pre: GladeView,
    post: GladeView,
    target: Option<(int, int)>,
    r: Result<Result<i32, ()>, Fault>,
) -> bool {
    match target {
        None => r == Err::<Result<i32, ()>, Fault>(
            Fault::OutOfBounds { x: pre.griever.x, y: pre.griever.y, dir: pre.griever.direction },
        ) && post == pre.tick(),
        Some(t) => exists|k: nat|
            #![trigger enter_step(pre.tick(), t.0, t.1, k)]
            {
                let stepped = enter_step(pre.tick(), t.0, t.1, k);
                turn_ok(pre.cell(t.0, t.1), k) && r == stepped.1 && post == (
                if r matches Ok(Ok(_)) {
                    stepped.0.walker_at(t.0, t.1)
                } else {
                    stepped.0
                })
            },
    }
}

/// What a turn guarantees: one tick and a quarter rotation to `d`, followed,
/// for a manual turn, by re-entry of the cell under the walker.
pub open spec fn turn_post(
    pre: GladeView,
    post: GladeView,
    d: Direction,
    auto: bool,
    r: Result<(), Fault>,
) -> bool {
    let mid = pre.tick().with_dir(d);
    if auto {
        r is Ok && post == mid
    } else {
        exists|k: nat|
            #![trigger enter_step(mid, pre.griever.x as int, pre.griever.y as int, k)]
            {
                let stepped = enter_step(mid, pre.griever.x as int, pre.griever.y as int, k);
                turn_ok(pre.cell(pre.griever.x as int, pre.griever.y as int), k) && post
                    == stepped.0 && r == (match stepped.1 {
                    Ok(_) => Ok::<(), Fault>(()),
                    Err(f) => Err(f),
                })
            }
    }
}

/// Whatever a cell entry does, the shape of the grid, the walker's position,
/// and the recorded maximum target index stay put; the target progression
/// never falls back; the trace only grows.
pub proof fn lemma_enter_step_frame(pre: GladeView, x: int, y: int, k: nat)
    requires
        0 <= x < 20,
        0 <= y < 20,
        -1 <= pre.target_count < 400,
        pre.map.len() == 400,
    ensures
        ({
            let post = enter_step(pre, x, y, k).0;
            &&& post.map.len() == pre.map.len()
            &&& post.griever.x == pre.griever.x
            &&& post.griever.y == pre.griever.y
            &&& post.last_target == pre.last_target
            &&& post.target_count >= pre.target_count
            &&& pre.trace.is_prefix_of(post.trace)
        }),
{
    let post = enter_step(pre, x, y, k).0;
    match pre.cell(x, y) {
        Content::Target(idx) => {
            assert(post.trace.drop_last() =~= pre.trace);
        },
        _ => {
            assert(post.trace =~= pre.trace);
            assert(pre.trace.is_prefix_of(pre.trace)) by {
                assert(pre.trace.subrange(0, pre.trace.len() as int) =~= pre.trace);
            }
        },
    }
}

/// A cell entry preserves well-formedness.
pub proof fn lemma_enter_step_wf(pre: GladeView, x: int, y: int, k: nat)
    requires
        pre.wf(),
        0 <= x < 20,
        0 <= y < 20,
    ensures
        enter_step(pre, x, y, k).0.wf(),
{
    let post = enter_step(pre, x, y, k).0;
    assert(cell_ok(pre.cell(x, y)));
    match pre.cell(x, y) {
        Content::Bomb(fuse, armed_at) => {
            assert(post.cell(post.griever.x as int, post.griever.y as int) == pre.cell(
                pre.griever.x as int,
                pre.griever.y as int,
            ) || post.cell(post.griever.x as int, post.griever.y as int) == Content::Bomb(
                fuse,
                pre.seconds,
            ));
        },
        Content::Money(e, taken) => {
            assert(post.cell(post.griever.x as int, post.griever.y as int) == pre.cell(
                pre.griever.x as int,
                pre.griever.y as int,
            ) || post.cell(post.griever.x as int, post.griever.y as int) == Content::Money(
                e,
                true,
            ));
        },
        _ => {},
    }
}

/// Relies on `rand::thread_rng` and `rand::Rng::gen_range` for the randomised
/// turner: of the drawn value, only membership in `0..4` is assumed.
#[verifier::external_body]
fn draw_turn_count() -> (k: u32)
    ensures
        k < 4,
{
    rand::Rng::gen_range(&mut rand::thread_rng(), 0..4u32)
}

impl Glade {
    /// Well-formedness of the field's value.
    pub open spec fn wf(self) -> bool {
        self@.wf()
    }

    /// Advance the tick counter by one.
    fn s_inc(&mut self)
        ensures
            final(self)@ == old(self)@.tick(),
    {
        if self.seconds < u64::MAX {
            self.seconds = self.seconds + 1;
        }
        proof {
            assert(final(self)@ =~= old(self)@.tick());
        }
    }

    /// Announce a target and advance progress exactly when the target is the
    /// next one in order.
    fn target_inc(&mut self, n: u32)
        requires
            old(self).wf(),
            n < 400,
        ensures
            final(self)@ == (GladeView {
                trace: old(self)@.trace.push(Trace::PassedTarget { number: (n + 1) as u32 }),
                target_count: if n == old(self)@.target_count + 1 {
                    n as int
                } else {
                    old(self)@.target_count
                },
                ..old(self)@
            }),
    {
        self.trace.push(Trace::PassedTarget { number: n + 1 });
        if self.target_count < 400 && n as i64 == self.target_count as i64 + 1 {
            self.target_count = n as i32;
        }
        proof {
            assert(final(self)@ =~= (GladeView {
                trace: old(self)@.trace.push(Trace::PassedTarget { number: (n + 1) as u32 }),
                target_count: if n == old(self)@.target_count + 1 {
                    n as int
                } else {
                    old(self)@.target_count
                },
                ..old(self)@
            }));
        }
    }

    /// Whether every numbered target has been reached in order.
    pub fn success(&self) -> (r: bool)
        ensures
            r == self@.succeeded(),
    {
        self.target_count != -1 && self.target_count == self.last_target
    }

    fn get_forward(&self) -> (r: Result<(usize, usize), Fault>)
        requires
            self.wf(),
        ensures
            match r {
                Ok(p) => self@.forward_target() == Some((p.0 as int, p.1 as int)) && p.0 < 20
                    && p.1 < 20,
                Err(f) => self@.forward_target() is None && f == (Fault::OutOfBounds {
                    x: self.griever.x,
                    y: self.griever.y,
                    dir: self.griever.direction,
                }),
            },
    {
        let oob = Fault::OutOfBounds {
            x: self.griever.x,
            y: self.griever.y,
            dir: self.griever.direction,
        };
        match self.griever.direction {
            Direction::North => if self.griever.y > 0 {
                Ok((self.griever.x, self.griever.y - 1))
            } else {
                Err(oob)
            },
            Direction::East => if self.griever.x < 19 {
                Ok((self.griever.x + 1, self.griever.y))
            } else {
                Err(oob)
            },
            Direction::South => if self.griever.y < 19 {
                Ok((self.griever.x, self.griever.y + 1))
            } else {
                Err(oob)
            },
            Direction::West => if self.griever.x > 0 {
                Ok((self.griever.x - 1, self.griever.y))
            } else {
                Err(oob)
            },
        }
    }

    fn get_backward(&self) -> (r: Result<(usize, usize), Fault>)
        requires
            self.wf(),
        ensures
            match r {
                Ok(p) => self@.backward_target() == Some((p.0 as int, p.1 as int)) && p.0 < 20
                    && p.1 < 20,
                Err(f) => self@.backward_target() is None && f == (Fault::OutOfBounds {
                    x: self.griever.x,
                    y: self.griever.y,
                    dir: self.griever.direction,
                }),
            },
    {
        let oob = Fault::OutOfBounds {
            x: self.griever.x,
            y: self.griever.y,
            dir: self.griever.direction,
        };
        match self.griever.direction {
            Direction::North => if self.griever.y < 19 {
                Ok((self.griever.x, self.griever.y + 1))
            } else {
                Err(oob)
            },
            Direction::East => if self.griever.x > 0 {
                Ok((self.griever.x - 1, self.griever.y))
            } else {
                Err(oob)
            },
            Direction::South => if self.griever.y > 0 {
                Ok((self.griever.x, self.griever.y - 1))
            } else {
                Err(oob)
            },
            Direction::West => if self.griever.x < 19 {
                Ok((self.griever.x + 1, self.griever.y))
            } else {
                Err(oob)
            },
        }
    }

    fn get_pos(&self, x: usize, y: usize) -> (r: Content)
        requires
            self.wf(),
            x < 20,
            y < 20,
        ensures
            r == self@.cell(x as int, y as int),
    {
        self.map[y * 20 + x]
    }

    fn set_pos(&mut self, x: usize, y: usize, content: Content)
        requires
            old(self).wf(),
            x < 20,
            y < 20,
        ensures
            final(self)@ == old(self)@.with_cell(x as int, y as int, content),
    {
        self.map[y * 20 + x] = content;
        proof {
            assert(final(self)@ =~= old(self)@.with_cell(x as int, y as int, content));
        }
    }

    /// One quarter turn to the right with its tick, with no re-entry of the
    /// cell under the walker.
    fn rotate_right_only(&mut self)
        ensures
            final(self)@ == old(self)@.tick().with_dir(old(self).griever.direction.spec_right()),
    {
        self.s_inc();
        self.griever.direction = match self.griever.direction {
            Direction::North => Direction::East,
            Direction::East => Direction::South,
            Direction::South => Direction::West,
            Direction::West => Direction::North,
        };
        proof {
            assert(final(self)@ =~= old(self)@.tick().with_dir(
                old(self).griever.direction.spec_right(),
            ));
        }
    }

    /// `spec_right_n` steps one further turn at the top.
    proof fn lemma_right_n_succ(d: Direction, k: nat)
        ensures
            d.spec_right_n(k + 1) == d.spec_right_n(k).spec_right(),
        decreases k,
    {
        if k == 0 {
            assert(d.spec_right_n(1) == d.spec_right().spec_right_n(0));
        } else {
            Self::lemma_right_n_succ(d.spec_right(), (k - 1) as nat);
            assert(d.spec_right_n(k + 1) == d.spec_right().spec_right_n(k));
            assert(d.spec_right_n(k) == d.spec_right().spec_right_n((k - 1) as nat));
        }
    }

    /// Enter the cell at `(x, y)` holding `c`, dispatching on its variant.
    fn handle_new_pos(&mut self, x: usize, y: usize, c: &Content) -> (r: Result<
        Result<i32, ()>,
        Fault,
    >)
        requires
            old(self).wf(),
            x < 20,
            y < 20,
            *c == old(self)@.cell(x as int, y as int),
        ensures
            final(self).wf(),
            enter_rel(old(self)@, final(self)@, x as int, y as int, r),
    {
        let ghost pre = self@;
        match c {
            Content::Money(e, taken) => {
                if !*taken {
                    proof {
                        assert(cell_ok(pre.cell(x as int, y as int)));
                    }
                    self.set_pos(x, y, Content::Money(*e, true));
                    let amount = pow2_exec(*e);
                    let res: Result<Result<i32, ()>, Fault> = Ok(Ok(amount));
                    proof {
                        assert(turn_ok(pre.cell(x as int, y as int), 0) && self@ =~= enter_step(
                            pre,
                            x as int,
                            y as int,
                            0,
                        ).0 && res == enter_step(pre, x as int, y as int, 0).1);
                        lemma_enter_step_wf(pre, x as int, y as int, 0);
                    }
                    res
                } else {
                    let res: Result<Result<i32, ()>, Fault> = Ok(Ok(0));
                    proof {
                        assert(turn_ok(pre.cell(x as int, y as int), 0) && self@ =~= enter_step(
                            pre,
                            x as int,
                            y as int,
                            0,
                        ).0 && res == enter_step(pre, x as int, y as int, 0).1);
                    }
                    res
                }
            },
            Content::Bomb(fuse, armed_at) => {
                let detonates = *fuse == 0 || (*armed_at as u128) + (*fuse as u128) == (
                self.seconds as u128);
                let res: Result<Result<i32, ()>, Fault> = if detonates {
                    Err(Fault::Detonation { x, y })
                } else if *armed_at == 0 {
                    self.set_pos(x, y, Content::Bomb(*fuse, self.seconds));
                    Ok(Ok(0))
                } else {
                    Ok(Ok(0))
                };
                proof {
                    assert(turn_ok(pre.cell(x as int, y as int), 0) && self@ =~= enter_step(
                        pre,
                        x as int,
                        y as int,
                        0,
                    ).0 && res == enter_step(pre, x as int, y as int, 0).1);
                    lemma_enter_step_wf(pre, x as int, y as int, 0);
                }
                res
            },
            Content::Target(times) => {
                proof {
                    assert(cell_ok(pre.cell(x as int, y as int)));
                }
                self.target_inc(*times);
                let res: Result<Result<i32, ()>, Fault> = Ok(Ok(0));
                proof {
                    assert(turn_ok(pre.cell(x as int, y as int), 0) && self@ =~= enter_step(
                        pre,
                        x as int,
                        y as int,
                        0,
                    ).0 && res == enter_step(pre, x as int, y as int, 0).1);
                    lemma_enter_step_wf(pre, x as int, y as int, 0);
                }
                res
            },
            Content::Obstacle => {
                let res: Result<Result<i32, ()>, Fault> = Ok(Err(()));
                proof {
                    assert(turn_ok(pre.cell(x as int, y as int), 0) && self@ =~= enter_step(
                        pre,
                        x as int,
                        y as int,
                        0,
                    ).0 && res == enter_step(pre, x as int, y as int, 0).1);
                }
                res
            },
            Content::Turner(times) => {
                let k: u32 = if *times == 0 {
                    draw_turn_count()
                } else {
                    *times
                };
                let mut i: u32 = 0;
                while i < k
                    invariant
                        i <= k,
                        self@.griever.direction == pre.griever.direction.spec_right_n(i as nat),
                        self@.griever.x == pre.griever.x,
                        self@.griever.y == pre.griever.y,
                        self@.seconds == sat_add(pre.seconds, i as nat),
                        self@.map == pre.map,
                        self@.target_count == pre.target_count,
                        self@.last_target == pre.last_target,
                        self@.trace == pre.trace,
                    decreases k - i,
                {
                    proof {
                        Self::lemma_right_n_succ(pre.griever.direction, i as nat);
                    }
                    self.rotate_right_only();
                    i = i + 1;
                }
                let res: Result<Result<i32, ()>, Fault> = Ok(Ok(0));
                proof {
                    let kw = k as nat;
                    assert(turn_ok(pre.cell(x as int, y as int), kw) && self@ =~= enter_step(
                        pre,
                        x as int,
                        y as int,
                        kw,
                    ).0 && res == enter_step(pre, x as int, y as int, kw).1);
                    lemma_enter_step_wf(pre, x as int, y as int, kw);
                }
                res
            },
            _ => {
                let res: Result<Result<i32, ()>, Fault> = Ok(Ok(0));
                proof {
                    assert(turn_ok(pre.cell(x as int, y as int), 0) && self@ =~= enter_step(
                        pre,
                        x as int,
                        y as int,
                        0,
                    ).0 && res == enter_step(pre, x as int, y as int, 0).1);
                }
                res
            },
        }
    }

    /// Step one square ahead: tick, then dispatch entry of the square the
    /// walker faces; the pose moves only when the entry is neither blocked
    /// nor fatal.
    pub fn forward(&mut self) -> (r: Result<Result<i32, ()>, Fault>)
        requires
            old(self).wf(),
        ensures
            final(self).wf(),
            final(self)@.target_count >= old(self)@.target_count,
            old(self)@.trace.is_prefix_of(final(self)@.trace),
            final(self)@.last_target == old(self)@.last_target,
            move_post(old(self)@, final(self)@, old(self)@.forward_target(), r),
    {
        let ghost pre = self@;
        self.s_inc();
        let f = match self.get_forward() {
            Ok(p) => p,
            Err(e) => {
                proof {
                    assert(pre.trace.is_prefix_of(self@.trace)) by {
                        assert(pre.trace.subrange(0, pre.trace.len() as int) =~= pre.trace);
                    }
                }
                return Err(e);
            },
        };
        let ghost mid = self@;
        let p = self.get_pos(f.0, f.1);
        let res = self.handle_new_pos(f.0, f.1, &p);
        proof {
            let k = choose|k: nat|
                #![trigger enter_step(mid, f.0 as int, f.1 as int, k)]
                turn_ok(mid.cell(f.0 as int, f.1 as int), k) && self@ == enter_step(
                    mid,
                    f.0 as int,
                    f.1 as int,
                    k,
                ).0 && res == enter_step(mid, f.0 as int, f.1 as int, k).1;
            lemma_enter_step_frame(mid, f.0 as int, f.1 as int, k);
        }
        let ghost post_e = self@;
        match &res {
            Ok(inner) => match inner {
                Ok(_) => {
                    self.griever.x = f.0;
                    self.griever.y = f.1;
                    proof {
                        let k = choose|k: nat|
                            #![trigger enter_step(mid, f.0 as int, f.1 as int, k)]
                            turn_ok(mid.cell(f.0 as int, f.1 as int), k) && post_e == enter_step(
                                mid,
                                f.0 as int,
                                f.1 as int,
                                k,
                            ).0 && res == enter_step(mid, f.0 as int, f.1 as int, k).1;
                        lemma_enter_step_wf(mid, f.0 as int, f.1 as int, k);
                        assert(self@ =~= enter_step(mid, f.0 as int, f.1 as int, k).0.walker_at(
                            f.0 as int,
                            f.1 as int,
                        ));
                        assert(!(self@.cell(f.0 as int, f.1 as int) is Obstacle));
                        lemma_enter_step_frame(mid, f.0 as int, f.1 as int, k);
                    }
                },
                Err(_) => {},
            },
            Err(_) => {},
        }
        res
    }

    /// Step one square back: tick, then dispatch entry of the square behind
    /// the walker; the pose moves only when the entry is neither blocked nor
    /// fatal.
    pub fn backward(&mut self) -> (r: Result<Result<i32, ()>, Fault>)
        requires
            old(self).wf(),
        ensures
            final(self).wf(),
            final(self)@.target_count >= old(self)@.target_count,
            old(self)@.trace.is_prefix_of(final(self)@.trace),
            final(self)@.last_target == old(self)@.last_target,
            move_post(old(self)@, final(self)@, old(self)@.backward_target(), r),
    {
        let ghost pre = self@;
        self.s_inc();
        let b = match self.get_backward() {
            Ok(p) => p,
            Err(e) => {
                proof {
                    assert(pre.trace.is_prefix_of(self@.trace)) by {
                        assert(pre.trace.subrange(0, pre.trace.len() as int) =~= pre.trace);
                    }
                }
                return Err(e);
            },
        };
        let ghost mid = self@;
        let p = self.get_pos(b.0, b.1);
        let res = self.handle_new_pos(b.0, b.1, &p);
        proof {
            let k = choose|k: nat|
                #![trigger enter_step(mid, b.0 as int, b.1 as int, k)]
                turn_ok(mid.cell(b.0 as int, b.1 as int), k) && self@ == enter_step(
                    mid,
                    b.0 as int,
                    b.1 as int,
                    k,
                ).0 && res == enter_step(mid, b.0 as int, b.1 as int, k).1;
            lemma_enter_step_frame(mid, b.0 as int, b.1 as int, k);
        }
        let ghost post_e = self@;
        match &res {
            Ok(inner) => match inner {
                Ok(_) => {
                    self.griever.x = b.0;
                    self.griever.y = b.1;
                    proof {
                        let k = choose|k: nat|
                            #![trigger enter_step(mid, b.0 as int, b.1 as int, k)]
                            turn_ok(mid.cell(b.0 as int, b.1 as int), k) && post_e == enter_step(
                                mid,
                                b.0 as int,
                                b.1 as int,
                                k,
                            ).0 && res == enter_step(mid, b.0 as int, b.1 as int, k).1;
                        lemma_enter_step_wf(mid, b.0 as int, b.1 as int, k);
                        assert(self@ =~= enter_step(mid, b.0 as int, b.1 as int, k).0.walker_at(
                            b.0 as int,
                            b.1 as int,
                        ));
                        assert(!(self@.cell(b.0 as int, b.1 as int) is Obstacle));
                        lemma_enter_step_frame(mid, b.0 as int, b.1 as int, k);
                    }
                },
                Err(_) => {},
            },
            Err(_) => {},
        }
        res
    }

    /// Report 1 when the cell under the walker shows any colour, 0 when it
    /// shows black.
    pub fn bw_eye(&self) -> (r: i32)
        requires
            self.wf(),
        ensures
            r == (if spec_color_value(self@.cell(self.griever.x as int, self.griever.y as int))
                == 0 {
                0int
            } else {
                1int
            }),
    {
        let p = self.get_pos(self.griever.x, self.griever.y);
        if p.get_color_value() == 0 {
            0
        } else {
            1
        }
    }

    /// Report the colour code of the cell under the walker.
    pub fn color_eye(&self) -> (r: i32)
        requires
            self.wf(),
        ensures
            r == spec_color_value(self@.cell(self.griever.x as int, self.griever.y as int)),
    {
        let p = self.get_pos(self.griever.x, self.griever.y);
        p.get_color_value()
    }

    /// Turn one quarter to the left with its tick. A manual turn
    /// (`auto == false`) re-enters the cell under the walker, so bombs and
    /// turners beneath retrigger; an automatic one does not.
    pub fn turn_left(&mut self, auto: bool) -> (r: Result<(), Fault>)
        requires
            old(self).wf(),
        ensures
            final(self).wf(),
            final(self)@.target_count >= old(self)@.target_count,
            old(self)@.trace.is_prefix_of(final(self)@.trace),
            final(self)@.last_target == old(self)@.last_target,
            turn_post(old(self)@, final(self)@, old(self).griever.direction.spec_left(), auto, r),
    {
        let ghost pre = self@;
        self.s_inc();
        self.griever.direction = match self.griever.direction {
            Direction::North => Direction::West,
            Direction::East => Direction::North,
            Direction::South => Direction::East,
            Direction::West => Direction::South,
        };
        proof {
            assert(self@ =~= pre.tick().with_dir(pre.griever.direction.spec_left()));
            assert(pre.trace.is_prefix_of(self@.trace)) by {
                assert(pre.trace.subrange(0, pre.trace.len() as int) =~= pre.trace);
            }
        }
        if !auto {
            let ghost mid = self@;
            let c = self.get_pos(self.griever.x, self.griever.y);
            let res = self.handle_new_pos(self.griever.x, self.griever.y, &c);
            let rv: Result<(), Fault> = match res {
                Ok(_) => Ok(()),
                Err(f) => Err(f),
            };
            proof {
                let gx = pre.griever.x as int;
                let gy = pre.griever.y as int;
                let k = choose|k: nat|
                    #![trigger enter_step(mid, gx, gy, k)]
                    turn_ok(mid.cell(gx, gy), k) && self@ == enter_step(mid, gx, gy, k).0 && res
                        == enter_step(mid, gx, gy, k).1;
                lemma_enter_step_frame(mid, gx, gy, k);
                assert(turn_ok(pre.cell(gx, gy), k) && self@ == enter_step(mid, gx, gy, k).0 && rv
                    == (match enter_step(mid, gx, gy, k).1 {
                    Ok(_) => Ok::<(), Fault>(()),
                    Err(f) => Err(f),
                }));
            }
            rv
        } else {
            Ok(())
        }
    }

    /// Turn one quarter to the right with its tick. A manual turn
    /// (`auto == false`) re-enters the cell under the walker, so bombs and
    /// turners beneath retrigger; an automatic one does not.
    pub fn turn_right(&mut self, auto: bool) -> (r: Result<(), Fault>)
        requires
            old(self).wf(),
        ensures
            final(self).wf(),
            final(self)@.target_count >= old(self)@.target_count,
            old(self)@.trace.is_prefix_of(final(self)@.trace),
            final(self)@.last_target == old(self)@.last_target,
            turn_post(old(self)@, final(self)@, old(self).griever.direction.spec_right(), auto, r),
    {
        let ghost pre = self@;
        self.s_inc();
        self.griever.direction = match self.griever.direction {
            Direction::North => Direction::East,
            Direction::East => Direction::South,
            Direction::South => Direction::West,
            Direction::West => Direction::North,
        };
        proof {
            assert(self@ =~= pre.tick().with_dir(pre.griever.direction.spec_right()));
            assert(pre.trace.is_prefix_of(self@.trace)) by {
                assert(pre.trace.subrange(0, pre.trace.len() as int) =~= pre.trace);
            }
        }
        if !auto {
            let ghost mid = self@;
            let c = self.get_pos(self.griever.x, self.griever.y);
            let res = self.handle_new_pos(self.griever.x, self.griever.y, &c);
            let rv: Result<(), Fault> = match res {
                Ok(_) => Ok(()),
                Err(f) => Err(f),
            };
            proof {
                let gx = pre.griever.x as int;
                let gy = pre.griever.y as int;
                let k = choose|k: nat|
                    #![trigger enter_step(mid, gx, gy, k)]
                    turn_ok(mid.cell(gx, gy), k) && self@ == enter_step(mid, gx, gy, k).0 && res
                        == enter_step(mid, gx, gy, k).1;
                lemma_enter_step_frame(mid, gx, gy, k);
                assert(turn_ok(pre.cell(gx, gy), k) && self@ == enter_step(mid, gx, gy, k).0 && rv
                    == (match enter_step(mid, gx, gy, k).1 {
                    Ok(_) => Ok::<(), Fault>(()),
                    Err(f) => Err(f),
                }));
            }
            rv
        } else {
            Ok(())
        }
    }
}

/// The payoff still stored in a cell: the untaken money's worth, 0 for
/// every other cell.
pub open spec fn cell_pot(c: Content) -> nat {
    match c {
        Content::Money(e, taken) => if !taken {
            pow2(e as nat)
        } else {
            0
        },
        _ => 0,
    }
}

/// The total payoff still stored in the grid.
pub open spec fn money_pot(map: Seq<Content>) -> nat
    decreases map.len(),
{
    if map.len() == 0 {
        0
    } else {
        cell_pot(map.last()) + money_pot(map.drop_last())
    }
}

/// Replacing one cell moves the stored payoff by the difference of the two
/// cells' worth.
pub proof fn lemma_money_pot_update(map: Seq<Content>, i: int, c: Content)
    requires
        0 <= i < map.len(),
    ensures
        money_pot(map.update(i, c)) + cell_pot(map[i]) == money_pot(map) + cell_pot(c),
    decreases map.len(),
{
    let u = map.update(i, c);
    if i == map.len() - 1 {
        assert(u.drop_last() =~= map.drop_last());
        assert(u.last() == c);
    } else {
        assert(u.drop_last() =~= map.drop_last().update(i, c));
        assert(u.last() == map.last());
        lemma_money_pot_update(map.drop_last(), i, c);
    }
}

/// The payoff carried by an entry outcome.
pub open spec fn payoff_val(r: Result<Result<i32, ()>, Fault>) -> int {
    match r {
        Ok(rr) => match rr {
            Ok(p) => p as int,
            Err(_) => 0,
        },
        Err(_) => 0,
    }
}

/// A cell entry conserves worth: whatever payoff it hands out leaves the
/// grid, and the payoff is a bounded non-negative amount.
pub proof fn lemma_enter_step_pot(pre: GladeView, x: int, y: int, k: nat)
    requires
        0 <= x < 20,
        0 <= y < 20,
        pre.map.len() == 400,
        cell_ok(pre.cell(x, y)),
    ensures
        ({
            let post = enter_step(pre, x, y, k).0;
            let r = enter_step(pre, x, y, k).1;
            money_pot(post.map) + payoff_val(r) == money_pot(pre.map) && 0 <= payoff_val(r)
                <= 0x4000_0000
        }),
{
    let post = enter_step(pre, x, y, k).0;
    let r = enter_step(pre, x, y, k).1;
    match pre.cell(x, y) {
        Content::Money(e, taken) => {
            if !taken {
                lemma_money_pot_update(pre.map, y * 20 + x, Content::Money(e, true));
                lemma_pow2_mono(e as nat, 30);
                assert(pow2(30) == 0x4000_0000) by {
                    reveal_with_fuel(pow2, 31);
                }
            }
        },
        Content::Bomb(fuse, armed_at) => {
            if !(fuse == 0 || armed_at + fuse == pre.seconds) && armed_at == 0 {
                lemma_money_pot_update(pre.map, y * 20 + x, Content::Bomb(fuse, pre.seconds));
            }
        },
        _ => {},
    }
}

/// A step conserves worth: the grid loses exactly the payoff handed out,
/// which is bounded and non-negative.
pub proof fn lemma_move_post_pot(
    pre: GladeView,
    post: GladeView,
    target: Option<(int, int)>,
    r: Result<Result<i32, ()>, Fault>,
)
    requires
        move_post(pre, post, target, r),
        pre.wf(),
        target matches Some(t) ==> 0 <= t.0 < 20 && 0 <= t.1 < 20,
    ensures
        money_pot(post.map) + payoff_val(r) == money_pot(pre.map),
        0 <= payoff_val(r) <= 0x4000_0000,
{
    match target {
        None => {},
        Some(t) => {
            let k = choose|k: nat|
                #![trigger enter_step(pre.tick(), t.0, t.1, k)]
                {
                    let stepped = enter_step(pre.tick(), t.0, t.1, k);
                    turn_ok(pre.cell(t.0, t.1), k) && r == stepped.1 && post == (
                    if r matches Ok(Ok(_)) {
                        stepped.0.walker_at(t.0, t.1)
                    } else {
                        stepped.0
                    })
                };
            assert(cell_ok(pre.tick().cell(t.0, t.1)));
            lemma_enter_step_pot(pre.tick(), t.0, t.1, k);
        },
    }
}

/// A turn never adds worth to the grid.
pub proof fn lemma_turn_post_pot(
    pre: GladeView,
    post: GladeView,
    d: Direction,
    auto: bool,
    r: Result<(), Fault>,
)
    requires
        turn_post(pre, post, d, auto, r),
        pre.wf(),
    ensures
        money_pot(post.map) <= money_pot(pre.map),
{
    if !auto {
        let mid = pre.tick().with_dir(d);
        let gx = pre.griever.x as int;
        let gy = pre.griever.y as int;
        let k = choose|k: nat|
            #![trigger enter_step(mid, gx, gy, k)]
            {
                let stepped = enter_step(mid, gx, gy, k);
                turn_ok(pre.cell(gx, gy), k) && post == stepped.0 && r == (match stepped.1 {
                    Ok(_) => Ok::<(), Fault>(()),
                    Err(f) => Err(f),
                })
            };
        assert(cell_ok(mid.cell(gx, gy)));
        lemma_enter_step_pot(mid, gx, gy, k);
    }
}

} // verus!
