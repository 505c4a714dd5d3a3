//! Loading the field from delimited rows: token decoding, the load-time
//! invariants (one spawn, distinct contiguous targets, distinct money
//! exponents), and the replacement of the spawn marker by a black square.

use crate::fault::{Fault, Trace};
use crate::lex;
use crate::map::{spec_parse_cell, Content, Direction, Glade, GladeView, Griever};
use vstd::prelude::*;

verus! {

/// Whether token `i` (row-major) of the rows parses as a cell.
pub open spec fn tok_ok(rv: Seq<Seq<Seq<char>>>, i: int) -> bool {
    spec_parse_cell(rv[i / 20][i % 20]) is Some
}

/// The parsed content of token `i` (row-major).
pub open spec fn cell_at(rv: Seq<Seq<Seq<char>>>, i: int) -> Content {
    spec_parse_cell(rv[i / 20][i % 20])->Some_0
}

/// The stored form of a parsed token: a spawn marker becomes a black square.
pub open spec fn stored_cell(c: Content) -> Content {
    match c {
        Content::Griever(_) => Content::BlackSquare,
        _ => c,
    }
}

/// Whether `c` is the target with 0-based index `t`.
pub open spec fn is_target_with(c: Content, t: int) -> bool {
    match c {
        Content::Target(u) => u == t,
        _ => false,
    }
}

/// Whether `c` is a money cell with exponent `e`.
pub open spec fn is_money_with(c: Content, e: int) -> bool {
    match c {
        Content::Money(u, _) => u == e,
        _ => false,
    }
}

/// The 0-based index of a target cell (0 for any other cell).
pub open spec fn target_idx(c: Content) -> int {
    match c {
        Content::Target(u) => u as int,
        _ => 0,
    }
}

/// The direction digit of a spawn marker (0 for any other cell).
pub open spec fn griever_dir(c: Content) -> int {
    match c {
        Content::Griever(d) => d as int,
        _ => 0,
    }
}

/// Some token parses as the target with 0-based index `t`.
pub open spec fn has_target(rv: Seq<Seq<Seq<char>>>, t: int) -> bool {
    exists|j: int| 0 <= j < 400 && #[trigger] is_target_with(cell_at(rv, j), t)
}

/// A loadable field: 20 rows of 20 parseable tokens, at most one spawn and
/// its direction in range, pairwise distinct target indices forming a run
/// that starts at 0, pairwise distinct money exponents, and — when no spawn
/// names a pose — no obstacle under the default pose.
pub open spec fn load_good(rv: Seq<Seq<Seq<char>>>) -> bool {
    &&& rv.len() == 20
    &&& forall|y: int| 0 <= y < 20 ==> (#[trigger] rv[y]).len() == 20
    &&& forall|i: int| 0 <= i < 400 ==> #[trigger] tok_ok(rv, i)
    &&& forall|i: int, j: int|
        0 <= i < 400 && 0 <= j < 400 && i != j && (#[trigger] cell_at(rv, i)) is Griever ==> !((
        #[trigger] cell_at(rv, j)) is Griever)
    &&& forall|i: int|
        0 <= i < 400 && (#[trigger] cell_at(rv, i)) is Griever ==> griever_dir(cell_at(rv, i))
            <= 3
    &&& forall|i: int, j: int, t: int|
        0 <= i < 400 && 0 <= j < 400 && #[trigger] is_target_with(cell_at(rv, i), t)
            && #[trigger] is_target_with(cell_at(rv, j), t) ==> i == j
    &&& forall|i: int, j: int, e: int|
        0 <= i < 400 && 0 <= j < 400 && #[trigger] is_money_with(cell_at(rv, i), e)
            && #[trigger] is_money_with(cell_at(rv, j), e) ==> i == j
    &&& forall|i: int, u: int|
        0 <= i < 400 && 0 <= u && (#[trigger] cell_at(rv, i)) is Target && u < target_idx(
            cell_at(rv, i),
        ) ==> #[trigger] has_target(rv, u)
    &&& (forall|i: int| 0 <= i < 400 ==> !((#[trigger] cell_at(rv, i)) is Griever)) ==> !(
    cell_at(rv, 21) is Obstacle)
}

/// What a successful load builds: the stored cells in row-major order, the
/// walker posed by the spawn token (or at the default pose facing North), a
/// zeroed clock and an empty trace, progress not yet begun, and the maximum
/// target index on record.
pub open spec fn loaded_from(rv: Seq<Seq<Seq<char>>>, gv: GladeView) -> bool {
    &&& gv.map.len() == 400
    &&& forall|i: int| 0 <= i < 400 ==> gv.map[i] == stored_cell(#[trigger] cell_at(rv, i))
    &&& forall|i: int|
        0 <= i < 400 && (#[trigger] cell_at(rv, i)) is Griever ==> gv.griever.x == i % 20
            && gv.griever.y == i / 20 && gv.griever.direction.index() == griever_dir(
            cell_at(rv, i),
        )
    &&& (forall|i: int| 0 <= i < 400 ==> !((#[trigger] cell_at(rv, i)) is Griever))
        ==> gv.griever == (Griever { x: 1, y: 1, direction: Direction::North })
    &&& gv.seconds == 0
    &&& gv.target_count == -1
    &&& gv.trace == Seq::<Trace>::empty()
    &&& forall|i: int|
        0 <= i < 400 && (#[trigger] cell_at(rv, i)) is Target ==> target_idx(cell_at(rv, i))
            <= gv.last_target
    &&& gv.last_target == 0 || has_target(rv, gv.last_target)
    &&& 0 <= gv.last_target < 400
    &&& gv.wf()
}

impl Glade {
    /// Build the field from 20 rows of 20 tokens, enforcing the load-time
    /// invariants.
    #[verifier::rlimit(100)]
    #[verifier::spinoff_prover]
    pub fn parse(rows: &Vec<Vec<String>>) -> (r: Result<Glade, Fault>)
        ensures
            r is Ok <==> load_good(rows.deep_view()),
            r matches Ok(g) ==> loaded_from(rows.deep_view(), g@),
            r matches Err(Fault::BadCell { row, col }) ==> rows.deep_view().len() != 20 || (
            row < 20 && rows.deep_view()[row as int].len() != 20) || (row < 20 && col < 20
                && !tok_ok(rows.deep_view(), row * 20 + col)) || (row == 1 && col == 1 && cell_at(
                rows.deep_view(),
                21,
            ) is Obstacle),
            r matches Err(Fault::MultipleSpawns { row, col }) ==> exists|i: int, j: int|
                0 <= i < 400 && 0 <= j < 400 && i != j && (#[trigger] cell_at(
                    rows.deep_view(),
                    i,
                )) is Griever && (#[trigger] cell_at(rows.deep_view(), j)) is Griever,
            r matches Err(Fault::BadDirection { value }) ==> value > 3 && exists|i: int|
                0 <= i < 400 && (#[trigger] cell_at(rows.deep_view(), i)) is Griever
                    && griever_dir(cell_at(rows.deep_view(), i)) == value,
            r matches Err(Fault::DuplicateTargetIdx { idx }) ==> exists|i: int, j: int, t: int|
                0 <= i < 400 && 0 <= j < 400 && i != j && #[trigger] is_target_with(
                    cell_at(rows.deep_view(), i),
                    t,
                ) && #[trigger] is_target_with(cell_at(rows.deep_view(), j), t) && t == idx as int,
            r matches Err(Fault::DuplicateMoneyExponent { exponent }) ==> exists|i: int, j: int, e: int|
                0 <= i < 400 && 0 <= j < 400 && i != j && #[trigger] is_money_with(
                    cell_at(rows.deep_view(), i),
                    e,
                ) && #[trigger] is_money_with(cell_at(rows.deep_view(), j), e) && e == exponent as int,
            r matches Err(Fault::MissingTargetIdx { idx }) ==> !has_target(
                rows.deep_view(),
                idx as int,
            ) && exists|i: int|
                0 <= i < 400 && (#[trigger] cell_at(rows.deep_view(), i)) is Target && target_idx(
                    cell_at(rows.deep_view(), i),
                ) > idx,
            r matches Err(f) ==> (f is BadCell || f is MultipleSpawns || f is BadDirection
                || f is DuplicateTargetIdx || f is DuplicateMoneyExponent
                || f is MissingTargetIdx),
    {
        let ghost rv = rows.deep_view();
        if rows.len() != 20 {
            return Err(
                Fault::BadCell { row: if rows.len() < 20 { rows.len() } else { 20 }, col: 0 },
            );
        }
        let mut y0: usize = 0;
        while y0 < 20
            invariant
                rows@.len() == 20,
                rv == rows.deep_view(),
                y0 <= 20,
                forall|y: int| 0 <= y < y0 ==> (#[trigger] rv[y]).len() == 20,
            decreases 20 - y0,
        {
            if rows[y0].len() != 20 {
                proof {
                    assert(rv[y0 as int].len() == rows@[y0 as int]@.len());
                }
                return Err(
                    Fault::BadCell {
                        row: y0,
                        col: if rows[y0].len() < 20 {
                            rows[y0].len()
                        } else {
                            20
                        },
                    },
                );
            }
            proof {
                assert(rv[y0 as int].len() == rows@[y0 as int]@.len());
            }
            y0 = y0 + 1;
        }
        let mut seen_t: Vec<bool> = Vec::new();
        while seen_t.len() < 400
            invariant
                seen_t@.len() <= 400,
                forall|j: int| 0 <= j < seen_t@.len() ==> !(#[trigger] seen_t@[j]),
            decreases 400 - seen_t@.len(),
        {
            seen_t.push(false);
        }
        let mut seen_m: Vec<bool> = Vec::new();
        while seen_m.len() < 31
            invariant
                seen_m@.len() <= 31,
                forall|j: int| 0 <= j < seen_m@.len() ==> !(#[trigger] seen_m@[j]),
            decreases 31 - seen_m@.len(),
        {
            seen_m.push(false);
        }
        let mut map: Vec<Content> = Vec::new();
        let mut spawn: Option<Griever> = None;
        let ghost mut spawn_i: int = 0;
        let mut last_target: u32 = 0;
        let mut has_t: bool = false;
        let mut i: usize = 0;
        while i < 400
            invariant
                rows@.len() == 20,
                rv == rows.deep_view(),
                rv.len() == 20,
                forall|y: int| 0 <= y < 20 ==> (#[trigger] rv[y]).len() == 20,
                i <= 400,
                map@.len() == i,
                forall|j: int| 0 <= j < i ==> #[trigger] tok_ok(rv, j),
                forall|j: int| 0 <= j < i ==> map@[j] == stored_cell(#[trigger] cell_at(rv, j)),
                match spawn {
                    None => forall|j: int|
                        0 <= j < i ==> !((#[trigger] cell_at(rv, j)) is Griever),
                    Some(g) => 0 <= spawn_i < i && g.x == spawn_i % 20 && g.y == spawn_i / 20
                        && cell_at(rv, spawn_i) is Griever && griever_dir(cell_at(rv, spawn_i))
                        == g.direction.index() && griever_dir(cell_at(rv, spawn_i)) <= 3
                        && forall|j: int|
                        0 <= j < i && j != spawn_i ==> !((#[trigger] cell_at(rv, j)) is Griever),
                },
                seen_t@.len() == 400,
                forall|t: int|
                    0 <= t < 400 ==> ((#[trigger] seen_t@[t]) == exists|j: int|
                        0 <= j < i && #[trigger] is_target_with(cell_at(rv, j), t)),
                seen_m@.len() == 31,
                forall|e: int|
                    0 <= e < 31 ==> ((#[trigger] seen_m@[e]) == exists|j: int|
                        0 <= j < i && #[trigger] is_money_with(cell_at(rv, j), e)),
                forall|j: int, j2: int, t: int|
                    0 <= j < i && 0 <= j2 < i && #[trigger] is_target_with(cell_at(rv, j), t)
                        && #[trigger] is_target_with(cell_at(rv, j2), t) ==> j == j2,
                forall|j: int, j2: int, e: int|
                    0 <= j < i && 0 <= j2 < i && #[trigger] is_money_with(cell_at(rv, j), e)
                        && #[trigger] is_money_with(cell_at(rv, j2), e) ==> j == j2,
                last_target < 400,
                forall|j: int|
                    0 <= j < i && (#[trigger] cell_at(rv, j)) is Target ==> target_idx(
                        cell_at(rv, j),
                    ) <= last_target,
                has_t == exists|j: int| 0 <= j < i && (#[trigger] cell_at(rv, j)) is Target,
                has_t ==> exists|j: int|
                    0 <= j < i && is_target_with(#[trigger] cell_at(rv, j), last_target as int),
                !has_t ==> last_target == 0,
            decreases 400 - i,
        {
            let y = i / 20;
            let x = i % 20;
            let chs = lex::to_chars(rows[y][x].as_str());
            proof {
                assert(chs@ == rv[i as int / 20][i as int % 20]);
            }
            let c = match Content::parse(&chs) {
                Some(c) => c,
                None => {
                    proof {
                        assert(!tok_ok(rv, i as int));
                    }
                    return Err(Fault::BadCell { row: y, col: x });
                },
            };
            proof {
                assert(tok_ok(rv, i as int) && c == cell_at(rv, i as int));
                crate::map::lemma_parsed_cell_ok(rv[i as int / 20][i as int % 20]);
            }
            match c {
                Content::Griever(d) => {
                    if spawn.is_some() {
                        proof {
                            assert(cell_at(rv, spawn_i) is Griever && cell_at(
                                rv,
                                i as int,
                            ) is Griever && spawn_i != i as int);
                        }
                        return Err(Fault::MultipleSpawns { row: y, col: x });
                    }
                    let dir = match Direction::parse(d) {
                        Ok(dir) => dir,
                        Err(f) => {
                            proof {
                                assert(cell_at(rv, i as int) is Griever && griever_dir(
                                    cell_at(rv, i as int),
                                ) == d as int && d > 3);
                            }
                            return Err(f);
                        },
                    };
                    spawn = Some(Griever { x, y, direction: dir });
                    proof {
                        spawn_i = i as int;
                    }
                    map.push(Content::BlackSquare);
                },
                Content::Target(t) => {
                    proof {
                        assert(is_target_with(cell_at(rv, i as int), t as int));
                    }
                    if seen_t[t as usize] {
                        proof {
                            let jw = choose|j: int|
                                0 <= j < i && is_target_with(#[trigger] cell_at(rv, j), t as int);
                            assert(is_target_with(cell_at(rv, jw), t as int) && is_target_with(
                                cell_at(rv, i as int),
                                t as int,
                            ) && jw != i as int);
                            assert(exists|i2: int, j2: int|
                                0 <= i2 < 400 && 0 <= j2 < 400 && i2 != j2
                                    && #[trigger] is_target_with(
                                    cell_at(rows.deep_view(), i2),
                                    t as int,
                                ) && #[trigger] is_target_with(
                                    cell_at(rows.deep_view(), j2),
                                    t as int,
                                ));
                        }
                        return Err(Fault::DuplicateTargetIdx { idx: t });
                    }
                    seen_t[t as usize] = true;
                    if t > last_target {
                        last_target = t;
                    }
                    has_t = true;
                    map.push(Content::Target(t));
                },
                Content::Money(e, taken) => {
                    proof {
                        assert(is_money_with(cell_at(rv, i as int), e as int));
                    }
                    if seen_m[e as usize] {
                        proof {
                            let jw = choose|j: int|
                                0 <= j < i && is_money_with(#[trigger] cell_at(rv, j), e as int);
                            assert(is_money_with(cell_at(rv, jw), e as int) && is_money_with(
                                cell_at(rv, i as int),
                                e as int,
                            ) && jw != i as int);
                            assert(exists|i2: int, j2: int|
                                0 <= i2 < 400 && 0 <= j2 < 400 && i2 != j2
                                    && #[trigger] is_money_with(
                                    cell_at(rows.deep_view(), i2),
                                    e as int,
                                ) && #[trigger] is_money_with(
                                    cell_at(rows.deep_view(), j2),
                                    e as int,
                                ));
                        }
                        return Err(Fault::DuplicateMoneyExponent { exponent: e });
                    }
                    seen_m[e as usize] = true;
                    map.push(Content::Money(e, taken));
                },
                _ => {
                    map.push(c);
                },
            }
            i = i + 1;
        }
        if has_t {
            let mut t2: u32 = 0;
            while t2 <= last_target
                invariant
                    rv == rows.deep_view(),
                    rv.len() == 20,
                    forall|y: int| 0 <= y < 20 ==> (#[trigger] rv[y]).len() == 20,
                    t2 <= last_target + 1,
                    last_target < 400,
                    seen_t@.len() == 400,
                    forall|t: int|
                        0 <= t < 400 ==> ((#[trigger] seen_t@[t]) == exists|j: int|
                            0 <= j < 400 && #[trigger] is_target_with(cell_at(rv, j), t)),
                    forall|u: int| 0 <= u < t2 ==> has_target(rv, u),
                    exists|j: int|
                        0 <= j < 400 && is_target_with(
                            #[trigger] cell_at(rv, j),
                            last_target as int,
                        ),
                decreases last_target + 1 - t2,
            {
                if !seen_t[t2 as usize] {
                    proof {
                        assert(!has_target(rv, t2 as int));
                        let jw = choose|j: int|
                            0 <= j < 400 && is_target_with(
                                #[trigger] cell_at(rv, j),
                                last_target as int,
                            );
                        assert(cell_at(rv, jw) is Target && target_idx(cell_at(rv, jw))
                            == last_target as int);
                        assert(t2 != last_target);
                        assert(target_idx(cell_at(rv, jw)) > t2 as int);
                        if load_good(rv) {
                            let j = choose|j: int|
                                0 <= j < 400 && is_target_with(
                                    #[trigger] cell_at(rv, j),
                                    last_target as int,
                                );
                            assert(cell_at(rv, j) is Target);
                            assert(target_idx(cell_at(rv, j)) == last_target as int);
                            if (t2 as int) < last_target as int {
                                assert(has_target(rv, t2 as int));
                            } else {
                                assert(is_target_with(cell_at(rv, j), t2 as int));
                                assert(has_target(rv, t2 as int));
                            }
                            assert(false);
                        }
                    }
                    return Err(Fault::MissingTargetIdx { idx: t2 });
                }
                t2 = t2 + 1;
            }
        }
        let griever = match spawn {
            Some(g) => g,
            None => Griever { x: 1, y: 1, direction: Direction::North },
        };
        if spawn.is_none() {
            proof {
                assert(map@[21] == stored_cell(cell_at(rv, 21)));
            }
            match map[21] {
                Content::Obstacle => {
                    return Err(Fault::BadCell { row: 1, col: 1 });
                },
                _ => {},
            }
        }
        let g = Glade {
            map,
            griever,
            seconds: 0,
            target_count: -1,
            last_target: last_target as i32,
            trace: Vec::new(),
        };
        proof {
            assert(load_good(rv));
            assert forall|j: int| 0 <= j < 400 implies !((#[trigger] g@.map[j]) is Griever) by {
                assert(g@.map[j] == stored_cell(cell_at(rv, j)));
            }
            assert forall|j: int|
                0 <= j < 400 implies crate::map::cell_ok(#[trigger] g@.map[j]) by {
                assert(g@.map[j] == stored_cell(cell_at(rv, j)));
                assert(tok_ok(rv, j));
                crate::map::lemma_parsed_cell_ok(rv[j / 20][j % 20]);
                assert(crate::map::cell_ok(cell_at(rv, j)));
            }
            assert forall|j: int|
                0 <= j < 400 && (#[trigger] g@.map[j]) is Target implies target_idx(g@.map[j])
                <= g@.last_target by {
                assert(g@.map[j] == stored_cell(cell_at(rv, j)));
            }
            assert(!(g@.cell(g@.griever.x as int, g@.griever.y as int) is Obstacle)) by {
                match spawn {
                    Some(sg) => {
                        assert(g@.map[spawn_i] == stored_cell(cell_at(rv, spawn_i)));
                        assert(spawn_i == sg.y * 20 + sg.x);
                    },
                    None => {
                        assert(g@.map[21] == stored_cell(cell_at(rv, 21)));
                    },
                }
            }
            assert(g@.wf());
            assert(loaded_from(rv, g@));
        }
        Ok(g)
    }
}

/// The rows that the delimited-text reader yields for the given bytes —
/// header-less, `;`-separated — or nothing when a row cannot be read. A pure
/// function of the bytes.
pub uninterp spec fn csv_rows_of(data: Seq<u8>) -> Option<Seq<Seq<Seq<char>>>>;

/// Relies on `csv::ReaderBuilder` and `csv::Reader::records`: with headers
/// off and `;` as the delimiter, the reader splits the bytes into rows of
/// string fields, deterministically in the bytes.
#[verifier::external_body]
fn split_rows(data: &[u8]) -> (r: Result<Vec<Vec<String>>, ()>)
    ensures
        match r {
            Ok(rows) => csv_rows_of(data@) == Some(rows.deep_view()),
            Err(_) => csv_rows_of(data@) is None,
        },
{
    let mut rdr = csv::ReaderBuilder::new().has_headers(false).delimiter(b';').from_reader(data);
    let mut rows: Vec<Vec<String>> = Vec::new();
    for rec in rdr.records() {
        match rec {
            Ok(rec) => rows.push(rec.iter().map(String::from).collect()),
            Err(_) => return Err(()),
        }
    }
    Ok(rows)
}

impl Glade {
    /// Build the field from the raw bytes of a delimited file.
    pub fn load(data: &[u8]) -> (r: Result<Glade, Fault>)
        ensures
            match csv_rows_of(data@) {
                Some(rv) => (r is Ok <==> load_good(rv)) && (r matches Ok(g) ==> loaded_from(
                    rv,
                    g@,
                )),
                None => r is Err,
            },
    {
        let rows = match split_rows(data) {
            Ok(rows) => rows,
            Err(_) => {
                return Err(Fault::BadCell { row: 0, col: 0 });
            },
        };
        Glade::parse(&rows)
    }
}

} // verus!
