//! Tests of the field model: token decoding, loading, sensors, actuators,
//! bombs, money, turners and targets.

use gladerun::fault::{Fault, Trace};
use gladerun::map::{Content, Direction, Glade};

fn base_rows() -> Vec<Vec<String>> {
    let mut rows = Vec::new();
    for _ in 0..20 {
        let mut row = Vec::new();
        for _ in 0..20 {
            row.push(String::from("w"));
        }
        rows.push(row);
    }
    rows
}

fn set(rows: &mut Vec<Vec<String>>, x: usize, y: usize, tok: &str) {
    rows[y][x] = String::from(tok);
}

fn chars(s: &str) -> Vec<char> {
    let mut v = Vec::new();
    for c in s.chars() {
        v.push(c);
    }
    v
}

#[test]
fn token_variants() {
    assert_eq!(Content::parse(&chars("q")), Some(Content::Obstacle));
    assert_eq!(Content::parse(&chars("x2")), Some(Content::Bomb(2, 0)));
    assert_eq!(Content::parse(&chars("t1")), Some(Content::Target(0)));
    assert_eq!(Content::parse(&chars("T3")), Some(Content::Target(2)));
    assert_eq!(Content::parse(&chars("m3")), Some(Content::Money(3, false)));
    assert_eq!(Content::parse(&chars("d0")), Some(Content::Turner(0)));
    assert_eq!(Content::parse(&chars("s1")), Some(Content::Griever(1)));
    assert_eq!(Content::parse(&chars("w")), Some(Content::WhiteSquare));
    assert_eq!(Content::parse(&chars("e")), Some(Content::GreenSquare));
    assert_eq!(Content::parse(&chars("l")), Some(Content::BlackSquare));
    assert_eq!(Content::parse(&chars("b")), Some(Content::BlueSquare));
    assert_eq!(Content::parse(&chars("")), None);
    assert_eq!(Content::parse(&chars("z")), None);
    assert_eq!(Content::parse(&chars("t0")), None);
    assert_eq!(Content::parse(&chars("m31")), None);
    assert_eq!(Content::parse(&chars("x")), None);
    assert_eq!(Content::parse(&chars("q1x")), None);
}

#[test]
fn direction_codes() {
    assert_eq!(Direction::parse(0), Ok(Direction::North));
    assert_eq!(Direction::parse(1), Ok(Direction::East));
    assert_eq!(Direction::parse(2), Ok(Direction::South));
    assert_eq!(Direction::parse(3), Ok(Direction::West));
    assert_eq!(Direction::parse(4), Err(Fault::BadDirection { value: 4 }));
}

#[test]
fn load_sets_pose_and_replaces_spawn() {
    let mut rows = base_rows();
    set(&mut rows, 1, 1, "s1");
    set(&mut rows, 3, 1, "t1");
    let g = Glade::parse(&rows).unwrap();
    assert_eq!(g.griever.x, 1);
    assert_eq!(g.griever.y, 1);
    assert_eq!(g.griever.direction, Direction::East);
    assert_eq!(g.map[1 * 20 + 1], Content::BlackSquare);
    assert_eq!(g.map[1 * 20 + 3], Content::Target(0));
    assert_eq!(g.last_target, 0);
    assert_eq!(g.target_count, -1);
    assert_eq!(g.seconds, 0);
}

#[test]
fn load_rejects_two_spawns() {
    let mut rows = base_rows();
    set(&mut rows, 1, 1, "s1");
    set(&mut rows, 2, 2, "s0");
    assert_eq!(Glade::parse(&rows).unwrap_err(), Fault::MultipleSpawns { row: 2, col: 2 });
}

#[test]
fn load_rejects_duplicate_target() {
    let mut rows = base_rows();
    set(&mut rows, 1, 1, "s1");
    set(&mut rows, 2, 1, "t1");
    set(&mut rows, 3, 1, "t1");
    assert_eq!(Glade::parse(&rows).unwrap_err(), Fault::DuplicateTargetIdx { idx: 0 });
}

#[test]
fn load_rejects_gap_in_targets() {
    let mut rows = base_rows();
    set(&mut rows, 1, 1, "s1");
    set(&mut rows, 2, 1, "t1");
    set(&mut rows, 3, 1, "t3");
    assert_eq!(Glade::parse(&rows).unwrap_err(), Fault::MissingTargetIdx { idx: 1 });
}

#[test]
fn load_rejects_duplicate_money() {
    let mut rows = base_rows();
    set(&mut rows, 1, 1, "s1");
    set(&mut rows, 2, 1, "m2");
    set(&mut rows, 3, 1, "m2");
    assert_eq!(Glade::parse(&rows).unwrap_err(), Fault::DuplicateMoneyExponent { exponent: 2 });
}

#[test]
fn load_rejects_bad_direction() {
    let mut rows = base_rows();
    set(&mut rows, 1, 1, "s5");
    assert_eq!(Glade::parse(&rows).unwrap_err(), Fault::BadDirection { value: 5 });
}

#[test]
fn load_rejects_bad_token() {
    let mut rows = base_rows();
    set(&mut rows, 1, 1, "s1");
    set(&mut rows, 4, 7, "zz");
    assert_eq!(Glade::parse(&rows).unwrap_err(), Fault::BadCell { row: 7, col: 4 });
}

#[test]
fn load_rejects_short_grid() {
    let mut rows = base_rows();
    rows.pop();
    assert_eq!(Glade::parse(&rows).unwrap_err(), Fault::BadCell { row: 19, col: 0 });
}

#[test]
fn load_from_delimited_bytes() {
    let mut rows = base_rows();
    set(&mut rows, 1, 1, "s2");
    set(&mut rows, 5, 9, "t1");
    let mut text = String::new();
    for (y, row) in rows.iter().enumerate() {
        if y > 0 {
            text.push('\n');
        }
        text.push_str(&row.join(";"));
    }
    let g = Glade::load(text.as_bytes()).unwrap();
    assert_eq!(g.griever.x, 1);
    assert_eq!(g.griever.y, 1);
    assert_eq!(g.griever.direction, Direction::South);
    assert_eq!(g.map[9 * 20 + 5], Content::Target(0));
}

#[test]
fn load_from_bytes_rejects_short_grid() {
    let text = "w;w\nw;w";
    assert!(Glade::load(text.as_bytes()).is_err());
}

#[test]
fn forward_moves_and_ticks() {
    let mut rows = base_rows();
    set(&mut rows, 1, 1, "s1");
    let mut g = Glade::parse(&rows).unwrap();
    assert_eq!(g.forward(), Ok(Ok(0)));
    assert_eq!((g.griever.x, g.griever.y), (2, 1));
    assert_eq!(g.seconds, 1);
}

#[test]
fn backward_moves_opposite() {
    let mut rows = base_rows();
    set(&mut rows, 2, 1, "s1");
    let mut g = Glade::parse(&rows).unwrap();
    assert_eq!(g.backward(), Ok(Ok(0)));
    assert_eq!((g.griever.x, g.griever.y), (1, 1));
    assert_eq!(g.seconds, 1);
}

#[test]
fn blocked_step_keeps_pose() {
    let mut rows = base_rows();
    set(&mut rows, 1, 1, "s1");
    set(&mut rows, 2, 1, "q");
    let mut g = Glade::parse(&rows).unwrap();
    assert_eq!(g.forward(), Ok(Err(())));
    assert_eq!((g.griever.x, g.griever.y), (1, 1));
    assert_eq!(g.griever.direction, Direction::East);
    assert_eq!(g.seconds, 1);
}

#[test]
fn edge_step_is_out_of_bounds() {
    let mut rows = base_rows();
    set(&mut rows, 0, 0, "s0");
    let mut g = Glade::parse(&rows).unwrap();
    assert_eq!(
        g.forward(),
        Err(Fault::OutOfBounds { x: 0, y: 0, dir: Direction::North })
    );
}

#[test]
fn zero_fuse_bomb_detonates_on_entry() {
    let mut rows = base_rows();
    set(&mut rows, 1, 1, "s1");
    set(&mut rows, 2, 1, "x0");
    let mut g = Glade::parse(&rows).unwrap();
    assert_eq!(g.forward(), Err(Fault::Detonation { x: 2, y: 1 }));
}

#[test]
fn bomb_arms_then_detonates_at_armed_plus_fuse() {
    let mut rows = base_rows();
    set(&mut rows, 1, 1, "s1");
    set(&mut rows, 2, 1, "x2");
    let mut g = Glade::parse(&rows).unwrap();
    // entry at tick 1 arms the bomb
    assert_eq!(g.forward(), Ok(Ok(0)));
    assert_eq!(g.map[1 * 20 + 2], Content::Bomb(2, 1));
    // re-entry by a manual turn at tick 2 survives (1 + 2 != 2)
    assert_eq!(g.turn_right(false), Ok(()));
    // re-entry by a manual turn at tick 3 detonates (1 + 2 == 3)
    assert_eq!(g.turn_left(false), Err(Fault::Detonation { x: 2, y: 1 }));
}

#[test]
fn money_pays_exactly_once() {
    let mut rows = base_rows();
    set(&mut rows, 1, 1, "s1");
    set(&mut rows, 2, 1, "m3");
    let mut g = Glade::parse(&rows).unwrap();
    assert_eq!(g.forward(), Ok(Ok(8)));
    assert_eq!(g.map[1 * 20 + 2], Content::Money(3, true));
    assert_eq!(g.backward(), Ok(Ok(0)));
    assert_eq!(g.forward(), Ok(Ok(0)));
}

#[test]
fn fixed_turner_rotates_and_ticks() {
    let mut rows = base_rows();
    set(&mut rows, 1, 1, "s1");
    set(&mut rows, 2, 1, "d2");
    let mut g = Glade::parse(&rows).unwrap();
    assert_eq!(g.forward(), Ok(Ok(0)));
    assert_eq!((g.griever.x, g.griever.y), (2, 1));
    assert_eq!(g.griever.direction, Direction::West);
    assert_eq!(g.seconds, 3);
}

#[test]
fn random_turner_stays_in_place_and_bounds() {
    let mut rows = base_rows();
    set(&mut rows, 1, 1, "s1");
    set(&mut rows, 2, 1, "d0");
    let mut g = Glade::parse(&rows).unwrap();
    assert_eq!(g.forward(), Ok(Ok(0)));
    assert_eq!((g.griever.x, g.griever.y), (2, 1));
    assert!(g.seconds >= 1 && g.seconds <= 4);
}

#[test]
fn targets_advance_only_in_order() {
    let mut rows = base_rows();
    set(&mut rows, 1, 1, "s1");
    set(&mut rows, 2, 1, "t2");
    set(&mut rows, 3, 1, "t1");
    let mut g = Glade::parse(&rows).unwrap();
    assert_eq!(g.forward(), Ok(Ok(0)));
    // the out-of-order target is announced but progress stays put
    assert_eq!(g.trace, vec![Trace::PassedTarget { number: 2 }]);
    assert_eq!(g.target_count, -1);
    assert_eq!(g.forward(), Ok(Ok(0)));
    assert_eq!(
        g.trace,
        vec![Trace::PassedTarget { number: 2 }, Trace::PassedTarget { number: 1 }]
    );
    assert_eq!(g.target_count, 0);
    assert!(!g.success());
}

#[test]
fn sensors_read_current_cell() {
    let mut rows = base_rows();
    set(&mut rows, 1, 1, "s1");
    set(&mut rows, 2, 1, "r");
    let mut g = Glade::parse(&rows).unwrap();
    // the spawn square is stored black
    assert_eq!(g.color_eye(), 0);
    assert_eq!(g.bw_eye(), 0);
    assert_eq!(g.griever.kompas(), 1);
    assert_eq!(g.forward(), Ok(Ok(0)));
    assert_eq!(g.color_eye(), 3);
    assert_eq!(g.bw_eye(), 1);
}

#[test]
fn four_right_turns_restore_heading() {
    let mut rows = base_rows();
    set(&mut rows, 1, 1, "s1");
    let mut g = Glade::parse(&rows).unwrap();
    for _ in 0..4 {
        assert_eq!(g.turn_right(false), Ok(()));
    }
    assert_eq!(g.griever.direction, Direction::East);
    assert_eq!(g.seconds, 4);
}

#[test]
fn right_then_left_turn_restores_heading() {
    let mut rows = base_rows();
    set(&mut rows, 1, 1, "s1");
    let mut g = Glade::parse(&rows).unwrap();
    assert_eq!(g.turn_right(false), Ok(()));
    assert_eq!(g.griever.direction, Direction::South);
    assert_eq!(g.turn_left(false), Ok(()));
    assert_eq!(g.griever.direction, Direction::East);
    assert_eq!(g.seconds, 2);
}
