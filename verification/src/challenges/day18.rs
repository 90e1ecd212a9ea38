use vstd::prelude::*;

verus! {

use vstd::string::*;
use crate::bytegrid::{ByteGrid, Point, orth_adjacent};
use crate::challenges::day15::{in_grid, cell, put};

broadcast use vstd::string::group_string_axioms;

/// One move of the memory-grid walk: an orthogonal step onto a cell that
/// exists and is not corrupted.
pub open spec fn grid_step(w: int, h: int, data: Seq<u8>, a: Point, b: Point) -> bool {
    &&& orth_adjacent(a, b)
    &&& in_grid(w, h, b)
    &&& cell(w, data, b) != 35
}

/// A walk from `start` to `goal` over safe cells.
#[verifier::opaque]
pub open spec fn is_walk(
    w: int,
    h: int,
    data: Seq<u8>,
    start: Point,
    goal: Point,
    path: Seq<Point>,
) -> bool {
    &&& path.len() >= 1
    &&& path[0] == start
    &&& path.last() == goal
    &&& forall|i: int|
        0 <= i < path.len() - 1 ==> grid_step(w, h, data, #[trigger] path[i], path[i + 1])
}

/// The in-grid safe orthogonal neighbours of `p`, each at unit cost.
fn successors_of(world: &ByteGrid, p: Point) -> (r: Vec<(Point, u32)>)
    requires
        world.wf(),
    ensures
        forall|k: int|
            0 <= k < r@.len() ==> grid_step(
                world.width as int,
                world.height as int,
                world.data@,
                p,
                (#[trigger] r@[k]).0,
            ) && r@[k].1 == 1,
        forall|q: Point|
            grid_step(world.width as int, world.height as int, world.data@, p, q) ==> exists|
                k: int,
            | 0 <= k < r@.len() && (#[trigger] r@[k]).0 == q,
{
    let mut r: Vec<(Point, u32)> = Vec::new();
    let deltas: [(i32, i32); 4] = [(-1, 0), (0, -1), (0, 1), (1, 0)];
    let ghost w = world.width as int;
    let ghost h = world.height as int;
    let mut t: usize = 0;
    while t < 4
        invariant
            world.wf(),
            w == world.width as int,
            h == world.height as int,
            0 <= t <= 4,
            deltas@ =~= seq![(-1i32, 0i32), (0i32, -1i32), (0i32, 1i32), (1i32, 0i32)],
            forall|k: int|
                0 <= k < r@.len() ==> grid_step(w, h, world.data@, p, (#[trigger] r@[k]).0)
                    && r@[k].1 == 1,
            forall|q: Point|
                grid_step(w, h, world.data@, p, q) && (exists|d: int|
                    0 <= d < t && q.row == p.row + deltas@[d].0 && q.col == p.col + deltas@[d].1)
                    ==> exists|k: int| 0 <= k < r@.len() && (#[trigger] r@[k]).0 == q,
        decreases 4 - t,
    {
        let ghost pre_r = r@;
        let (dr, dc) = deltas[t];
        let nr = p.row as i64 + dr as i64;
        let nc = p.col as i64 + dc as i64;
        if 0 <= nr && nr < world.height as i64 && 0 <= nc && nc < world.width as i64 {
            let q = Point { row: nr as i32, col: nc as i32 };
            if world.at(q) != 35 {
                r.push((q, 1));
                proof {
                    assert(r@[r@.len() - 1].0 == q);
                }
            }
        }
        proof {
            assert forall|q: Point|
                grid_step(w, h, world.data@, p, q) && (exists|d: int|
                    0 <= d < t + 1 && q.row == p.row + deltas@[d].0 && q.col == p.col
                        + deltas@[d].1) implies exists|k: int|
                0 <= k < r@.len() && (#[trigger] r@[k]).0 == q by {
                let d = choose|d: int|
                    0 <= d < t + 1 && q.row == p.row + deltas@[d].0 && q.col == p.col
                        + deltas@[d].1;
                if d < t {
                    let k = choose|k: int| 0 <= k < pre_r.len() && (#[trigger] pre_r[k]).0 == q;
                    assert(r@[k].0 == q);
                } else {
                    assert(q.row == nr && q.col == nc);
                    assert(r@[r@.len() - 1].0 == q);
                }
            }
        }
        t = t + 1;
    }
    proof {
        assert forall|q: Point| grid_step(w, h, world.data@, p, q) implies exists|k: int|
            0 <= k < r@.len() && (#[trigger] r@[k]).0 == q by {
            if q.row == p.row - 1 && q.col == p.col {
                assert(q.row == p.row + deltas@[0].0 && q.col == p.col + deltas@[0].1);
            } else if q.row == p.row && q.col == p.col - 1 {
                assert(q.row == p.row + deltas@[1].0 && q.col == p.col + deltas@[1].1);
            } else if q.row == p.row && q.col == p.col + 1 {
                assert(q.row == p.row + deltas@[2].0 && q.col == p.col + deltas@[2].1);
            } else {
                assert(q.row == p.row + deltas@[3].0 && q.col == p.col + deltas@[3].1);
            }
        }
    }
    r
}

/// The taxicab distance to the goal, capped at the cost range; a lower
/// bound on the remaining walk either way.
fn manhattan_to(p: Point, goal: Point) -> (r: u32)
    ensures
        r <= crate::challenges::day16::abs_int(p.row - goal.row)
            + crate::challenges::day16::abs_int(p.col - goal.col),
{
    let dr = p.row as i64 - goal.row as i64;
    let dc = p.col as i64 - goal.col as i64;
    let adr = if dr < 0 {
        -dr
    } else {
        dr
    };
    let adc = if dc < 0 {
        -dc
    } else {
        dc
    };
    let sum = adr + adc;
    if sum > u32::MAX as i64 {
        u32::MAX
    } else {
        sum as u32
    }
}

/// Relies on pathfinding's astar: with the unit-cost successor list above
/// and the taxicab heuristic, which never overestimates a unit-step walk,
/// it returns a cheapest walk from `start` to a cell satisfying the goal
/// test, or nothing when no walk reaches one.  The goal must lie in the
/// grid and the grid must be small, so that the search's cost-plus-estimate
/// sums stay inside the cost word.
#[verifier::external_body]
fn astar_grid(world: &ByteGrid, start: Point, goal: Point) -> (r: Option<(Vec<Point>, u32)>)
    requires
        world.wf(),
        world.valid(goal),
        world.data@.len() <= i32::MAX,
    ensures
        r matches Some((path, cost)) ==> is_walk(
            world.width as int,
            world.height as int,
            world.data@,
            start,
            goal,
            path@,
        ) && cost == path@.len() - 1 && (forall|other: Seq<Point>|
            is_walk(world.width as int, world.height as int, world.data@, start, goal, other)
                ==> other.len() - 1 >= cost),
        r is None ==> forall|other: Seq<Point>|
            !is_walk(world.width as int, world.height as int, world.data@, start, goal, other),
{
    pathfinding::prelude::astar(
        &start,
        |p: &Point| successors_of(world, *p),
        |p: &Point| manhattan_to(*p, goal),
        |p: &Point| *p == goal,
    )
}

/// The all-clear memory grid.
pub open spec fn fresh_grid(w: int, h: int) -> Seq<u8> {
    Seq::new((w * h) as nat, |i: int| 46u8)
}

/// The grid after the first `upto` coordinate lines have corrupted their
/// cells: each usable line carries "x,y" and marks column `x` of row `y`.
#[verifier::opaque]
pub open spec fn corrupted(w: int, h: int, lines: Seq<Seq<u8>>, upto: int) -> Seq<u8>
    decreases upto,
{
    if upto <= 0 {
        fresh_grid(w, h)
    } else {
        let d = corrupted(w, h, lines, upto - 1);
        drop_coord(w, h, d, lines[upto - 1])
    }
}

/// One coordinate line applied to the grid.
pub open spec fn drop_coord(w: int, h: int, data: Seq<u8>, line: Seq<u8>) -> Seq<u8> {
    let c = crate::piece_len(line, 44);
    if c < line.len() {
        let x = crate::token_val(line.take(c));
        let y = crate::token_val(line.skip(c + 1));
        match (x, y) {
            (Some(xv), Some(yv)) => if 0 <= yv < h && 0 <= xv < w {
                put(w, data, Point { row: yv as i32, col: xv as i32 }, 35)
            } else {
                data
            },
            _ => data,
        }
    } else {
        data
    }
}

/// How many lines corrupt the grid for a run capped at `sim_before`.
pub open spec fn drop_count(nlines: int, sim_before: int) -> int {
    if sim_before > 0 && sim_before < nlines {
        sim_before
    } else {
        nlines
    }
}

/// Whether the given number of dropped coordinates seals the standard
/// 71-cell crossing: every walk, if any, is longer than the answer range.
#[verifier::opaque]
pub open spec fn crossing_sealed(input: Seq<u8>, upto: int) -> bool {
    let lines = crate::challenges::day13::byte_lines(input);
    let data = corrupted(71, 71, lines, drop_count(lines.len() as int, upto));
    forall|path: Seq<Point>|
        #[trigger] is_walk(71, 71, data, Point { row: 0, col: 0 }, Point { row: 70, col: 70 }, path)
            ==> path.len() - 1 >= u32::MAX
}

/// Drop the first `sim_before` corrupted coordinates onto a fresh grid and
/// walk from the top-left corner to the bottom-right one.  The answer is
/// the fewest steps of such a walk; the largest count comes back when the
/// dimensions are unusable, no walk crosses, or every walk is longer than
/// the count can say.
pub fn part1(input: &str, width: i32, height: i32, sim_before: i32) -> (r: u32)
    ensures
        ({
            let lines = crate::challenges::day13::byte_lines(input.spec_bytes());
            let cnt = drop_count(lines.len() as int, sim_before as int);
            let data = corrupted(width as int, height as int, lines, cnt);
            let start = Point { row: 0, col: 0 };
            let goal = Point { row: (height - 1) as i32, col: (width - 1) as i32 };
            &&& (r != u32::MAX ==> 0 < width && 0 < height && width * height <= i32::MAX
                && exists|path: Seq<Point>|
                #![trigger path.len()]
                is_walk(width as int, height as int, data, start, goal, path) && r == path.len()
                    - 1 && (forall|other: Seq<Point>|
                    is_walk(width as int, height as int, data, start, goal, other) ==> other.len()
                        - 1 >= r))
            &&& (r == u32::MAX ==> !(0 < width && 0 < height && width * height <= i32::MAX) || (
            forall|other: Seq<Point>|
                is_walk(width as int, height as int, data, start, goal, other) ==> other.len() - 1
                    >= u32::MAX))
            &&& (width == 71 && height == 71 ==> ((r == u32::MAX) == crossing_sealed(
                input.spec_bytes(),
                sim_before as int,
            )))
        }),
{
    if width <= 0 || height <= 0 {
        return u32::MAX;
    }
    proof {
        crate::bytegrid::lemma_i32_mul_bound(width, height);
    }
    if width as i64 * height as i64 > i32::MAX as i64 {
        return u32::MAX;
    }
    let mut world = ByteGrid::new_empty(46, width, height);
    proof {
        reveal(corrupted);
        assert(world.data@ =~= fresh_grid(width as int, height as int));
        assert(world.data@ == corrupted(width as int, height as int,
            crate::challenges::day13::byte_lines(input.spec_bytes()), 0));
    }
    let bytes = input.as_bytes();
    let lines = crate::challenges::day13::split_lines(bytes);
    let ghost all_lines = crate::challenges::day13::byte_lines(input.spec_bytes());
    let ghost cnt = drop_count(all_lines.len() as int, sim_before as int);
    let mut i: usize = 0;
    while i < lines.len()
        invariant
            world.wf(),
            world.width == width && world.height == height,
            0 < width && 0 < height,
            bytes@ == input.spec_bytes(),
            lines@.len() == all_lines.len(),
            forall|k: int|
                0 <= k < lines@.len() ==> {
                    let (a, b) = #[trigger] lines@[k];
                    a <= b <= bytes@.len() && bytes@.subrange(a as int, b as int) == all_lines[k]
                },
            0 <= i <= lines@.len(),
            sim_before > 0 ==> i as int <= sim_before as int,
            world.data@ == corrupted(width as int, height as int, all_lines, i as int),
            cnt == drop_count(all_lines.len() as int, sim_before as int),
        ensures
            world.wf(),
            world.width == width && world.height == height,
            world.data@ == corrupted(width as int, height as int, all_lines, cnt),
        decreases lines@.len() - i,
    {
        if sim_before > 0 && i >= sim_before as usize {
            proof {
                assert(i as int == cnt);
            }
            break;
        }
        let (a, b) = lines[i];
        let ghost line = all_lines[i as int];
        // a line carries "x,y"
        let comma = crate::scan_to_byte(bytes, a, 44);
        proof {
            if comma < b {
                assert(forall|k: int|
                    0 <= k < comma - a ==> #[trigger] line[k] == bytes@[a + k] && line[k] != 44);
                crate::lemma_piece_len_at(line, 44, comma - a);
                assert(line.take(comma - a) =~= bytes@.subrange(a as int, comma as int));
                assert(line.skip(comma - a + 1) =~= bytes@.subrange(comma + 1, b as int));
            } else {
                assert(forall|k: int|
                    0 <= k < line.len() ==> #[trigger] line[k] == bytes@[a + k] && line[k] != 44);
                crate::lemma_piece_len_at(line, 44, line.len() as int);
            }
        }
        let ghost pre_data = world.data@;
        if comma < b {
            let x_tok = crate::parse_token(vstd::slice::slice_subrange(bytes, a, comma));
            let y_tok = crate::parse_token(vstd::slice::slice_subrange(bytes, comma + 1, b));
            match (x_tok, y_tok) {
                (Some(x), Some(y)) => {
                    if 0 <= y && y < height as i64 && 0 <= x && x < width as i64 {
                        world.set_coord(y as i32, x as i32, 35);
                    }
                },
                _ => (),
            }
        }
        proof {
            reveal(corrupted);
            assert(world.data@ == drop_coord(width as int, height as int, pre_data, line));
            assert(world.data@ == corrupted(width as int, height as int, all_lines, i + 1));
        }
        i = i + 1;
    }
    let goal = Point { row: height - 1, col: width - 1 };
    match astar_grid(&world, Point { row: 0, col: 0 }, goal) {
        Some((path, cost)) => {
            proof {
                if width == 71 && height == 71 {
                    reveal(crossing_sealed);
                    assert(goal == (Point { row: 70, col: 70 }));
                    assert(world.data@ == corrupted(
                        71,
                        71,
                        crate::challenges::day13::byte_lines(input.spec_bytes()),
                        drop_count(
                            crate::challenges::day13::byte_lines(input.spec_bytes()).len() as int,
                            sim_before as int,
                        ),
                    ));
                    if cost != u32::MAX {
                        assert(is_walk(71, 71, world.data@, Point { row: 0, col: 0 }, goal, path@)
                            && path@.len() - 1 < u32::MAX);
                        assert(!crossing_sealed(input.spec_bytes(), sim_before as int));
                    } else {
                        assert(crossing_sealed(input.spec_bytes(), sim_before as int));
                    }
                }
            }
            if cost == u32::MAX {
                return u32::MAX;
            }
            cost
        },
        None => {
            proof {
                if width == 71 && height == 71 {
                    reveal(crossing_sealed);
                    assert(world.data@ == corrupted(
                        71,
                        71,
                        crate::challenges::day13::byte_lines(input.spec_bytes()),
                        drop_count(
                            crate::challenges::day13::byte_lines(input.spec_bytes()).len() as int,
                            sim_before as int,
                        ),
                    ));
                    assert(crossing_sealed(input.spec_bytes(), sim_before as int));
                }
            }
            u32::MAX
        },
    }
}

/// The characters of one ascii byte line.
pub open spec fn ascii_line(line: Seq<u8>) -> Seq<char> {
    Seq::new(line.len(), |i: int| line[i] as char)
}

/// The first corrupted coordinate that seals the way across, as its own
/// text line; a plain "not found" when none of the listed coordinates does
/// or the input is not plain text.
#[verifier::rlimit(100)]
#[verifier::spinoff_prover]
pub fn part2(input: &str) -> (r: String)
    ensures
        ({
            let lines = crate::challenges::day13::byte_lines(input.spec_bytes());
            &&& (!(r@ =~= "not found"@) ==> exists|k: int|
                0 <= k < lines.len() && #[trigger] crossing_sealed(input.spec_bytes(), k + 1))
            &&& ((forall|k: int|
                0 <= k < lines.len() ==> !#[trigger] crossing_sealed(input.spec_bytes(), k + 1))
                ==> r@ =~= "not found"@)
            &&& ((is_ascii(input) && lines.len() < 0x7fff_fffe && exists|k: int|
                0 <= k < lines.len() && #[trigger] crossing_sealed(input.spec_bytes(), k + 1))
                ==> exists|k: int|
                {
                    &&& 0 <= k < lines.len()
                    &&& #[trigger] crossing_sealed(input.spec_bytes(), k + 1)
                    &&& (forall|j: int|
                        0 <= j < k ==> !#[trigger] crossing_sealed(input.spec_bytes(), j + 1))
                    &&& r@ == ascii_line(lines[k])
                })
        }),
{
    proof {
        reveal_strlit("not found");
    }
    let bytes = input.as_bytes();
    let lines = crate::challenges::day13::split_lines(bytes);
    let ghost all_lines = crate::challenges::day13::byte_lines(input.spec_bytes());
    let mut i: usize = 0;
    while i < lines.len()
        invariant
            bytes@ == input.spec_bytes(),
            all_lines == crate::challenges::day13::byte_lines(input.spec_bytes()),
            lines@.len() == all_lines.len(),
            forall|k: int|
                0 <= k < lines@.len() ==> {
                    let (a, b) = #[trigger] lines@[k];
                    a <= b <= bytes@.len() && bytes@.subrange(a as int, b as int) == all_lines[k]
                },
            0 <= i <= lines@.len(),
            forall|j: int|
                0 <= j < i ==> !#[trigger] crossing_sealed(input.spec_bytes(), j + 1),
        ensures
            forall|j: int|
                0 <= j < i ==> !#[trigger] crossing_sealed(input.spec_bytes(), j + 1),
            i as int == all_lines.len() || i as int >= 0x7fff_fffe,
            all_lines == crate::challenges::day13::byte_lines(input.spec_bytes()),
        decreases lines@.len() - i,
    {
        if i >= 0x7fff_fffe {
            break;
        }
        let blocked = crossing_blocked(input, (i + 1) as i32);
        if blocked {
            proof {
                assert((((i + 1) as i32) as int) == i as int + 1);
                assert(crossing_sealed(input.spec_bytes(), i as int + 1));
                assert(0 <= i as int && (i as int) < crate::challenges::day13::byte_lines(
                    input.spec_bytes(),
                ).len());
                assert(exists|k: int|
                    0 <= k < crate::challenges::day13::byte_lines(input.spec_bytes()).len()
                        && #[trigger] crossing_sealed(input.spec_bytes(), k + 1)) by {
                    assert(crossing_sealed(input.spec_bytes(), i as int + 1));
                }
            }
            let (a, b) = lines[i];
            let out = line_text(input, a, b);
            proof {
                if is_ascii(input) {
                    assert(bytes@.subrange(a as int, b as int) == all_lines[i as int]);
                    assert(out@ == ascii_line(all_lines[i as int]));
                }
            }
            return out;
        }
        i = i + 1;
    }
    "not found".to_owned()
}

/// Whether dropping the first `k` coordinates seals the standard crossing.
fn crossing_blocked(input: &str, k: i32) -> (r: bool)
    requires
        1 <= k,
    ensures
        r == crossing_sealed(input.spec_bytes(), k as int),
{
    part1(input, 71, 71, k) == u32::MAX
}

/// One line of the input as its own text, for reporting a coordinate.
fn line_text(input: &str, a: usize, b: usize) -> (r: String)
    ensures
        is_ascii(input) && a <= b <= input.spec_bytes().len() ==> r@ == ascii_line(
            input.spec_bytes().subrange(a as int, b as int),
        ),
{
    let bytes = input.as_bytes();
    if a <= b && b <= bytes.len() && input.is_ascii() {
        let piece = input.substring_ascii(a, b);
        proof {
            assert(input@.subrange(a as int, b as int).len() == b - a);
            assert(input.spec_bytes() =~= Seq::new(input@.len(), |i: int| input@.index(i) as u8));
            assert forall|i: int| 0 <= i < b - a implies piece@[i] == ascii_line(
                input.spec_bytes().subrange(a as int, b as int),
            )[i] by {
                assert(input.spec_bytes()[a + i] == input@[a + i] as u8);
            }
            assert(piece@ =~= ascii_line(input.spec_bytes().subrange(a as int, b as int)));
        }
        piece.to_owned()
    } else {
        "not found".to_owned()
    }
}

} // verus!
