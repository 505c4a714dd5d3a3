//! Laws of the field model, proved once and for all over the cell-entry
//! state machine and the turn relations.

use crate::fault::Fault;
use crate::map::{
    enter_step, move_post, sat_add, sat_inc, turn_ok, turn_post, Content, Direction, GladeView,
};
use vstd::prelude::*;

verus! {

/// A money cell whose payoff has been taken.
pub open spec fn taken_money(c: Content) -> bool {
    match c {
        Content::Money(_, taken) => taken,
        _ => false,
    }
}

/// A quarter turn right then a quarter turn left — or the other way round —
/// is the identity on the heading.
pub proof fn lemma_turn_inverses(d: Direction)
    ensures
        d.spec_right().spec_left() == d,
        d.spec_left().spec_right() == d,
{
}

/// Four quarter turns right return to the original heading.
pub proof fn lemma_four_rights(d: Direction)
    ensures
        d.spec_right_n(4) == d,
{
    reveal_with_fuel(Direction::spec_right_n, 5);
}

/// Entering a cell leaves the progression where it is or advances it by
/// exactly one.
pub proof fn lemma_progress_step(pre: GladeView, x: int, y: int, k: nat)
    ensures
        ({
            let post = enter_step(pre, x, y, k).0;
            post.target_count == pre.target_count || post.target_count == pre.target_count + 1
        }),
{
}

/// A cell pays out at most once: a strictly positive payoff comes only from
/// an untaken money cell, which the entry marks taken, and a taken money
/// cell never reverts.
pub proof fn lemma_money_pays_once(pre: GladeView, x: int, y: int, k: nat)
    requires
        0 <= x < 20,
        0 <= y < 20,
        pre.map.len() == 400,
    ensures
        ({
            let post = enter_step(pre, x, y, k).0;
            let r = enter_step(pre, x, y, k).1;
            &&& (r matches Ok(rr) && rr matches Ok(p) && p > 0 ==> (pre.cell(x, y)
                matches Content::Money(e, taken) && !taken) && post.cell(x, y)
                == (match pre.cell(x, y) {
                Content::Money(e2, _) => Content::Money(e2, true),
                c => c,
            }))
            &&& forall|i: int|
                0 <= i < 400 && taken_money(#[trigger] pre.map[i]) ==> post.map[i] == pre.map[i]
        }),
{
    let post = enter_step(pre, x, y, k).0;
    match pre.cell(x, y) {
        Content::Money(e, taken) => {
            if !taken {
                crate::map::lemma_pow2_mono(0, e as nat);
            }
        },
        _ => {},
    }
}

/// A bomb's arming time is 0 until the walker first survives an entry, and
/// that entry stamps it with the tick of the entry; a bomb with a zero fuse
/// detonates on any entry, and an armed bomb detonates exactly on the entry
/// at tick `armed_at + fuse`.
pub proof fn lemma_bomb_entry(pre: GladeView, x: int, y: int, k: nat, fuse: u64, armed_at: u64)
    requires
        0 <= x < 20,
        0 <= y < 20,
        pre.map.len() == 400,
        pre.cell(x, y) == Content::Bomb(fuse, armed_at),
    ensures
        ({
            let post = enter_step(pre, x, y, k).0;
            let r = enter_step(pre, x, y, k).1;
            &&& (r is Err <==> (fuse == 0 || armed_at + fuse == pre.seconds))
            &&& (r is Ok && armed_at == 0 ==> post.cell(x, y) == Content::Bomb(fuse, pre.seconds))
            &&& (r is Ok && armed_at != 0 ==> post.cell(x, y) == pre.cell(x, y))
        }),
{
}

/// A blocked step leaves the walker's position and heading and the whole
/// grid unchanged, but still costs one tick.
pub proof fn lemma_blocked_step(
    pre: GladeView,
    post: GladeView,
    target: Option<(int, int)>,
    r: Result<Result<i32, ()>, Fault>,
)
    requires
        move_post(pre, post, target, r),
        r == Ok::<Result<i32, ()>, Fault>(Err(())),
    ensures
        post.griever == pre.griever,
        post.seconds == sat_inc(pre.seconds),
        post.map == pre.map,
        post.target_count == pre.target_count,
        post.trace == pre.trace,
{
    match target {
        None => {},
        Some(t) => {
            let k = choose|k: nat|
                #![trigger enter_step(pre.tick(), t.0, t.1, k)]
                {
                    let stepped = enter_step(pre.tick(), t.0, t.1, k);
                    turn_ok(pre.cell(t.0, t.1), k) && r == stepped.1 && post == (
                    if r matches Ok(Ok(_)) {
                        stepped.0.walker_at(t.0, t.1)
                    } else {
                        stepped.0
                    })
                };
        },
    }
}

/// A round trip of one manual right turn and one manual left turn over a
/// cell that is not a turner restores the heading and the position, and
/// advances the clock by exactly two ticks.
pub proof fn lemma_turn_round_trip(
    pre: GladeView,
    mid: GladeView,
    post: GladeView,
    r1: Result<(), Fault>,
    r2: Result<(), Fault>,
)
    requires
        turn_post(pre, mid, pre.griever.direction.spec_right(), false, r1),
        turn_post(mid, post, mid.griever.direction.spec_left(), false, r2),
        0 <= pre.griever.x < 20,
        0 <= pre.griever.y < 20,
        pre.map.len() == 400,
        !(pre.cell(pre.griever.x as int, pre.griever.y as int) is Turner),
    ensures
        post.griever.direction == pre.griever.direction,
        post.griever.x == pre.griever.x,
        post.griever.y == pre.griever.y,
        post.seconds == sat_add(pre.seconds, 2),
{
    let gx = pre.griever.x as int;
    let gy = pre.griever.y as int;
    let m1 = pre.tick().with_dir(pre.griever.direction.spec_right());
    let k1 = choose|k: nat|
        #![trigger enter_step(m1, gx, gy, k)]
        {
            let stepped = enter_step(m1, gx, gy, k);
            turn_ok(pre.cell(gx, gy), k) && mid == stepped.0 && r1 == (match stepped.1 {
                Ok(_) => Ok::<(), Fault>(()),
                Err(f) => Err(f),
            })
        };
    assert(k1 == 0);
    assert(!(mid.cell(gx, gy) is Turner));
    assert(mid.griever.x == pre.griever.x && mid.griever.y == pre.griever.y);
    let m2 = mid.tick().with_dir(mid.griever.direction.spec_left());
    let k2 = choose|k: nat|
        #![trigger enter_step(m2, gx, gy, k)]
        {
            let stepped = enter_step(m2, gx, gy, k);
            turn_ok(mid.cell(gx, gy), k) && post == stepped.0 && r2 == (match stepped.1 {
                Ok(_) => Ok::<(), Fault>(()),
                Err(f) => Err(f),
            })
        };
    assert(k2 == 0);
    assert(sat_add(pre.seconds, 2) == sat_inc(sat_inc(pre.seconds))) by {
        reveal_with_fuel(sat_add, 3);
    }
}

} // verus!
