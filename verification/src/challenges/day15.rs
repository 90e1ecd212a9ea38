use vstd::prelude::*;

verus! {

use vstd::string::*;
use crate::bytegrid::{ByteGrid, Point, north, south, east, west};

/// The direction a move byte names.
pub open spec fn spec_heading(towards: u8) -> Option<Point> {
    if towards == 94 {
        Some(Point { row: -1i32, col: 0i32 })
    } else if towards == 62 {
        Some(Point { row: 0i32, col: 1i32 })
    } else if towards == 60 {
        Some(Point { row: 0i32, col: -1i32 })
    } else if towards == 118 {
        Some(Point { row: 1i32, col: 0i32 })
    } else {
        None
    }
}

/// A position lies on a `w` by `h` grid.
pub open spec fn in_grid(w: int, h: int, p: Point) -> bool {
    0 <= p.row < h && 0 <= p.col < w
}

/// The byte of a cell in the flat row-major buffer.
pub open spec fn cell(w: int, data: Seq<u8>, p: Point) -> u8 {
    data[p.row * w + p.col]
}

/// The buffer with one cell overwritten.
pub open spec fn put(w: int, data: Seq<u8>, p: Point, b: u8) -> Seq<u8> {
    data.update(p.row * w + p.col, b)
}

/// One step beyond `p` in direction `d`, for unit directions from a cell
/// of the grid.
pub open spec fn step_of(p: Point, d: Point) -> Point {
    Point { row: (p.row + d.row) as i32, col: (p.col + d.col) as i32 }
}

/// How far the walk can still go along the move's direction; the measure
/// every recursive push shrinks.
pub open spec fn room(w: int, h: int, p: Point, towards: u8) -> int {
    if towards == 94 {
        p.row as int
    } else if towards == 118 {
        h - p.row
    } else if towards == 60 {
        p.col as int
    } else {
        w - p.col
    }
}

/// One step of the single-width walk: the buffer afterwards and where the
/// mover stands.  A line of crates rolls forward exactly when a free cell
/// ends it inside the grid; otherwise nothing changes, and a byte that
/// names no direction changes nothing and reports so.
pub open spec fn spec_step1(w: int, h: int, data: Seq<u8>, from: Point, towards: u8) -> (
    Seq<u8>,
    Option<Point>,
)
    decreases room(w, h, from, towards),
    via spec_step1_decreases
{
    match spec_heading(towards) {
        None => (data, None),
        Some(d) => {
            if !in_grid(w, h, from) || w > i32::MAX || h > i32::MAX {
                (data, Some(from))
            } else {
                let mover = cell(w, data, from);
                let nrow = from.row + d.row;
                let ncol = from.col + d.col;
                if !(0 <= nrow < h && 0 <= ncol < w) {
                    (data, Some(from))
                } else {
                    let next = Point { row: nrow as i32, col: ncol as i32 };
                    let brow = nrow + d.row;
                    let bcol = ncol + d.col;
                    if !(0 <= brow < h && 0 <= bcol < w) {
                        (data, Some(from))
                    } else {
                        let behind = Point { row: brow as i32, col: bcol as i32 };
                        let a = cell(w, data, next);
                        let b = cell(w, data, behind);
                        if a == 79 && b == 46 {
                            (
                                put(w, put(w, put(w, data, from, 46), next, mover), behind, 79),
                                Some(next),
                            )
                        } else if a == 79 && b == 79 {
                            let sub = spec_step1(w, h, data, next, towards);
                            match sub.1 {
                                Some(p2) => if p2 != next {
                                    (
                                        put(
                                            w,
                                            put(w, put(w, sub.0, from, 46), next, mover),
                                            behind,
                                            79,
                                        ),
                                        Some(next),
                                    )
                                } else {
                                    (sub.0, Some(from))
                                },
                                None => (sub.0, Some(from)),
                            }
                        } else if a == 46 {
                            (put(w, put(w, data, from, 46), next, mover), Some(next))
                        } else {
                            (data, Some(from))
                        }
                    }
                }
            }
        },
    }
}

#[via_fn]
proof fn spec_step1_decreases(w: int, h: int, data: Seq<u8>, from: Point, towards: u8) {
    match spec_heading(towards) {
        None => {},
        Some(d) => {
            if in_grid(w, h, from) && w <= i32::MAX && h <= i32::MAX {
                let nrow = from.row + d.row;
                let ncol = from.col + d.col;
                if 0 <= nrow < h && 0 <= ncol < w {
                    let next = Point { row: nrow as i32, col: ncol as i32 };
                    assert(0 <= room(w, h, next, towards) < room(w, h, from, towards));
                }
            }
        },
    }
}

/// One step of the single-width crate walk over the grid.
pub fn take_step(world: &mut ByteGrid, from: Point, towards: u8) -> (r: Option<Point>)
    requires
        old(world).wf(),
        old(world).valid(from),
    ensures
        final(world).wf(),
        final(world).width == old(world).width && final(world).height == old(world).height,
        final(world).data@ == spec_step1(
            old(world).width as int,
            old(world).height as int,
            old(world).data@,
            from,
            towards,
        ).0,
        r == spec_step1(
            old(world).width as int,
            old(world).height as int,
            old(world).data@,
            from,
            towards,
        ).1,
        r matches Some(p) ==> final(world).valid(p),
    decreases room(old(world).width as int, old(world).height as int, from, towards),
{
    let my_char = world.at(from);
    let heading_opt = if towards == 94 {
        Some(north())
    } else if towards == 62 {
        Some(east())
    } else if towards == 60 {
        Some(west())
    } else if towards == 118 {
        Some(south())
    } else {
        None
    };
    let heading = match heading_opt {
        Some(h) => h,
        None => {
            return None;
        },
    };
    let next_pos = from.plus(heading);
    if !world.is_valid_point(next_pos) {
        return Some(from);
    }
    let behind_ok = {
        let br = next_pos.row as i64 + heading.row as i64;
        let bc = next_pos.col as i64 + heading.col as i64;
        0 <= br && br < world.height as i64 && 0 <= bc && bc < world.width as i64
    };
    if !behind_ok {
        return Some(from);
    }
    let behind_next_pos = next_pos.plus(heading);
    let at_next = world.at(next_pos);
    let at_behind = world.at(behind_next_pos);
    if at_next == 79 && at_behind == 46 {
        // a crate with a free cell behind it rolls forward
        world.set_point(from, 46);
        world.set_point(next_pos, my_char);
        world.set_point(behind_next_pos, 79);
        Some(next_pos)
    } else if at_next == 79 && at_behind == 79 {
        // a line of crates: try to shove the next one first
        let moved = take_step(world, next_pos, towards);
        match moved {
            Some(point) => {
                if !(point.row == next_pos.row && point.col == next_pos.col) {
                    world.set_point(from, 46);
                    world.set_point(next_pos, my_char);
                    world.set_point(behind_next_pos, 79);
                    Some(next_pos)
                } else {
                    Some(from)
                }
            },
            None => Some(from),
        }
    } else if at_next == 46 {
        world.set_point(from, 46);
        world.set_point(next_pos, my_char);
        Some(next_pos)
    } else {
        Some(from)
    }
}

/// Push a double-width crate one column east: every crate in the way rolls
/// with it, and the buffer is handed back only when a free cell ends the
/// line inside the grid.
pub open spec fn spec_push_east(w: int, h: int, data: Seq<u8>, from: Point) -> Option<Seq<u8>>
    decreases w - from.col,
    via spec_push_east_decreases
{
    if !in_grid(w, h, from) || w > i32::MAX || h > i32::MAX {
        None
    } else if !(from.col + 2 < w) {
        None
    } else {
        let p = Point { row: from.row, col: (from.col + 2) as i32 };
        let c = cell(w, data, p);
        let after = if c == 91 {
            spec_push_east(w, h, data, p)
        } else if c == 46 {
            Some(data)
        } else {
            None
        };
        match after {
            Some(dd) => Some(
                put(
                    w,
                    put(w, put(w, dd, p, 93), Point { row: p.row, col: (p.col - 1) as i32 }, 91),
                    from,
                    46,
                ),
            ),
            None => None,
        }
    }
}

#[via_fn]
proof fn spec_push_east_decreases(w: int, h: int, data: Seq<u8>, from: Point) {
}

pub fn push_east(world: &mut ByteGrid, from: Point) -> (r: bool)
    requires
        old(world).wf(),
        old(world).valid(from),
    ensures
        final(world).wf(),
        final(world).width == old(world).width && final(world).height == old(world).height,
        r == spec_push_east(
            old(world).width as int,
            old(world).height as int,
            old(world).data@,
            from,
        ) is Some,
        r ==> final(world).data@ == spec_push_east(
            old(world).width as int,
            old(world).height as int,
            old(world).data@,
            from,
        ).unwrap(),
        !r ==> *final(world) == *old(world),
    decreases old(world).width as int - from.col,
{
    let pr = from.row as i64;
    let pc = from.col as i64 + 2;
    if !(0 <= pr && pr < world.height as i64 && 0 <= pc && pc < world.width as i64) {
        return false;
    }
    let p = Point { row: from.row, col: from.col + 2 };
    let next_byte = world.at(p);
    if next_byte == 91 {
        if !push_east(world, p) {
            return false;
        }
    } else if next_byte != 46 {
        return false;
    }
    world.set_point(p, 93);
    world.set_point(Point { row: p.row, col: p.col - 1 }, 91);
    world.set_point(from, 46);
    true
}

/// Push a double-width crate one column west.
pub open spec fn spec_push_west(w: int, h: int, data: Seq<u8>, from: Point) -> Option<Seq<u8>>
    decreases from.col as int,
    via spec_push_west_decreases
{
    if !in_grid(w, h, from) || w > i32::MAX || h > i32::MAX {
        None
    } else if !(0 <= from.col - 2) {
        None
    } else {
        let p = Point { row: from.row, col: (from.col - 2) as i32 };
        let c = cell(w, data, p);
        let after = if c == 93 {
            spec_push_west(w, h, data, p)
        } else if c == 46 {
            Some(data)
        } else {
            None
        };
        match after {
            Some(dd) => Some(
                put(
                    w,
                    put(w, put(w, dd, p, 91), Point { row: p.row, col: (p.col + 1) as i32 }, 93),
                    from,
                    46,
                ),
            ),
            None => None,
        }
    }
}

#[via_fn]
proof fn spec_push_west_decreases(w: int, h: int, data: Seq<u8>, from: Point) {
}

pub fn push_west(world: &mut ByteGrid, from: Point) -> (r: bool)
    requires
        old(world).wf(),
        old(world).valid(from),
    ensures
        final(world).wf(),
        final(world).width == old(world).width && final(world).height == old(world).height,
        r == spec_push_west(
            old(world).width as int,
            old(world).height as int,
            old(world).data@,
            from,
        ) is Some,
        r ==> final(world).data@ == spec_push_west(
            old(world).width as int,
            old(world).height as int,
            old(world).data@,
            from,
        ).unwrap(),
        !r ==> *final(world) == *old(world),
    decreases from.col as int,
{
    let pr = from.row as i64;
    let pc = from.col as i64 - 2;
    if !(0 <= pr && pr < world.height as i64 && 0 <= pc && pc < world.width as i64) {
        return false;
    }
    let p = Point { row: from.row, col: from.col - 2 };
    let next_byte = world.at(p);
    if next_byte == 93 {
        if !push_west(world, p) {
            return false;
        }
    } else if next_byte != 46 {
        return false;
    }
    world.set_point(p, 91);
    world.set_point(Point { row: p.row, col: p.col + 1 }, 93);
    world.set_point(from, 46);
    true
}

/// Push a double-width crate one row up or down, carrying every crate
/// resting on it.  The buffer is handed back only when everything in the
/// way is free; the left and right halves above the crate are tried in
/// that order, the second against the buffer the first left behind.
pub open spec fn spec_push_vert(w: int, h: int, data: Seq<u8>, from: Point, dir: Point) -> Option<
    Seq<u8>,
>
    decreases (if dir == (Point { row: -1i32, col: 0i32 }) {
        from.row as int
    } else {
        h - from.row
    }),
    via spec_push_vert_decreases
{
    let dnorth = Point { row: -1i32, col: 0i32 };
    let dsouth = Point { row: 1i32, col: 0i32 };
    if !(dir == dnorth || dir == dsouth) || !in_grid(w, h, from) || w > i32::MAX || h
        > i32::MAX {
        None
    } else {
        let fb = cell(w, data, from);
        if fb != 91 && fb != 93 {
            None
        } else {
            let hcol = if fb == 91 {
                from.col as int
            } else {
                from.col - 1
            };
            let prow = from.row + dir.row;
            if !(0 <= prow < h && 0 <= hcol && hcol + 1 < w) {
                None
            } else {
                let p0 = Point { row: prow as i32, col: hcol as i32 };
                let p1 = Point { row: prow as i32, col: (hcol + 1) as i32 };
                let c0 = cell(w, data, p0);
                let after0 = if c0 == 91 || c0 == 93 {
                    spec_push_vert(w, h, data, p0, dir)
                } else if c0 == 46 {
                    Some(data)
                } else {
                    None
                };
                match after0 {
                    None => None,
                    Some(dd0) => {
                        let c1 = cell(w, dd0, p1);
                        let after1 = if c1 == 91 || c1 == 93 {
                            spec_push_vert(w, h, dd0, p1, dir)
                        } else if c1 == 46 {
                            Some(dd0)
                        } else {
                            None
                        };
                        match after1 {
                            None => None,
                            Some(dd1) => {
                                let dd2 = put(w, put(w, dd1, p0, 91), p1, 93);
                                let h0 = Point { row: from.row, col: hcol as i32 };
                                let h1 = Point { row: from.row, col: (hcol + 1) as i32 };
                                let dd3 = put(w, dd2, h0, 46);
                                let dd4 = put(w, dd3, h1, 46);
                                Some(dd4)
                            },
                        }
                    },
                }
            }
        }
    }
}

#[via_fn]
proof fn spec_push_vert_decreases(w: int, h: int, data: Seq<u8>, from: Point, dir: Point) {
    let dnorth = Point { row: -1i32, col: 0i32 };
    let dsouth = Point { row: 1i32, col: 0i32 };
    if (dir == dnorth || dir == dsouth) && in_grid(w, h, from) && w <= i32::MAX && h
        <= i32::MAX {
        let fb = cell(w, data, from);
        if fb == 91 || fb == 93 {
            let hcol = if fb == 91 {
                from.col as int
            } else {
                from.col - 1
            };
            let prow = from.row + dir.row;
            if 0 <= prow < h && 0 <= hcol && hcol + 1 < w {
                let p0 = Point { row: prow as i32, col: hcol as i32 };
                let p1 = Point { row: prow as i32, col: (hcol + 1) as i32 };
                assert(p0.row == from.row + dir.row && p1.row == from.row + dir.row);
            }
        }
    }
}

pub fn push_vert(world: &mut ByteGrid, from: Point, direction: Point) -> (r: bool)
    requires
        old(world).wf(),
        old(world).valid(from),
        direction == north() || direction == south(),
        old(world).spec_at(from) == 91 || old(world).spec_at(from) == 93,
    ensures
        final(world).wf(),
        final(world).width == old(world).width && final(world).height == old(world).height,
        r == spec_push_vert(
            old(world).width as int,
            old(world).height as int,
            old(world).data@,
            from,
            direction,
        ) is Some,
        r ==> final(world).data@ == spec_push_vert(
            old(world).width as int,
            old(world).height as int,
            old(world).data@,
            from,
            direction,
        ).unwrap(),
        !r ==> final(world).data@ == old(world).data@,
    decreases (if direction == north() {
        from.row as int
    } else {
        old(world).height - from.row
    }),
{
    let ghost pre = *world;
    let backup = clone_bytes(&world.data);
    let from_byte = world.at(from);
    // the two cells the crate moves into
    let half = if from_byte == 91 {
        from
    } else {
        Point { row: from.row, col: from.col - 1 }
    };
    let p0 = Point { row: from.row + direction.row, col: half.col };
    let p1 = Point { row: from.row + direction.row, col: half.col + 1 };
    if !world.is_valid_point(p0) || !world.is_valid_point(p1) {
        return false;
    }
    let c0 = world.at(p0);
    if c0 == 91 || c0 == 93 {
        if !push_vert(world, p0, direction) {
            return false;
        }
    } else if c0 != 46 {
        return false;
    }
    let c1 = world.at(p1);
    if c1 == 91 || c1 == 93 {
        if !push_vert(world, p1, direction) {
            proof {
                assert(world.data@.len() == pre.data@.len());
            }
            restore_bytes(world, &backup);
            return false;
        }
    } else if c1 != 46 {
        proof {
            assert(world.data@.len() == pre.data@.len());
        }
        restore_bytes(world, &backup);
        return false;
    }
    world.set_point(p0, 91);
    world.set_point(p1, 93);
    // clear the two cells the crate came from
    let h0 = Point { row: from.row, col: half.col };
    let h1 = Point { row: from.row, col: half.col + 1 };
    if world.is_valid_point(h0) && !(h0.row == p0.row && h0.col == p0.col) && !(h0.row == p1.row
        && h0.col == p1.col) {
        world.set_point(h0, 46);
    }
    if world.is_valid_point(h1) && !(h1.row == p0.row && h1.col == p0.col) && !(h1.row == p1.row
        && h1.col == p1.col) {
        world.set_point(h1, 46);
    }
    true
}

/// One step of the double-width walk: a free cell is stepped onto, a crate
/// half is pushed with everything it carries, anything else stands still.
pub open spec fn spec_step2(w: int, h: int, data: Seq<u8>, from: Point, towards: u8) -> (
    Seq<u8>,
    Option<Point>,
) {
    match spec_heading(towards) {
        None => (data, None),
        Some(d) => {
            if !in_grid(w, h, from) || w > i32::MAX || h > i32::MAX {
                (data, Some(from))
            } else {
                let mover = cell(w, data, from);
                let nrow = from.row + d.row;
                let ncol = from.col + d.col;
                if !(0 <= nrow < h && 0 <= ncol < w) {
                    (data, Some(from))
                } else {
                    let next = Point { row: nrow as i32, col: ncol as i32 };
                    let a = cell(w, data, next);
                    if a == 91 || a == 93 {
                        let pushed = if d.row != 0 {
                            spec_push_vert(w, h, data, next, d)
                        } else if d.col == 1 {
                            spec_push_east(w, h, data, next)
                        } else {
                            spec_push_west(w, h, data, next)
                        };
                        match pushed {
                            Some(dd) => (put(w, put(w, dd, from, 46), next, mover), Some(next)),
                            None => (data, Some(from)),
                        }
                    } else if a == 46 {
                        (put(w, put(w, data, from, 46), next, mover), Some(next))
                    } else {
                        (data, Some(from))
                    }
                }
            }
        },
    }
}

pub fn take_step_part2(world: &mut ByteGrid, from: Point, towards: u8) -> (r: Option<Point>)
    requires
        old(world).wf(),
        old(world).valid(from),
    ensures
        final(world).wf(),
        final(world).width == old(world).width && final(world).height == old(world).height,
        final(world).data@ == spec_step2(
            old(world).width as int,
            old(world).height as int,
            old(world).data@,
            from,
            towards,
        ).0,
        r == spec_step2(
            old(world).width as int,
            old(world).height as int,
            old(world).data@,
            from,
            towards,
        ).1,
        r matches Some(p) ==> final(world).valid(p),
{
    let my_char = world.at(from);
    let heading_opt = if towards == 94 {
        Some(north())
    } else if towards == 62 {
        Some(east())
    } else if towards == 60 {
        Some(west())
    } else if towards == 118 {
        Some(south())
    } else {
        None
    };
    let heading = match heading_opt {
        Some(h) => h,
        None => {
            return None;
        },
    };
    let next_pos = from.plus(heading);
    if !world.is_valid_point(next_pos) {
        return Some(from);
    }
    let at_next = world.at(next_pos);
    if at_next == 91 || at_next == 93 {
        let moved = if heading.row != 0 {
            push_vert(world, next_pos, heading)
        } else if heading.col == 1 {
            push_east(world, next_pos)
        } else {
            push_west(world, next_pos)
        };
        if moved {
            world.set_point(from, 46);
            world.set_point(next_pos, my_char);
            Some(next_pos)
        } else {
            Some(from)
        }
    } else if at_next == 46 {
        world.set_point(from, 46);
        world.set_point(next_pos, my_char);
        Some(next_pos)
    } else {
        Some(from)
    }
}

/// A copy of the world's cells, for undoing a failed push.
fn clone_bytes(data: &Vec<u8>) -> (r: Vec<u8>)
    ensures
        r@ == data@,
{
    let mut r: Vec<u8> = Vec::new();
    let mut i: usize = 0;
    while i < data.len()
        invariant
            0 <= i <= data@.len(),
            r@ =~= data@.take(i as int),
        decreases data@.len() - i,
    {
        r.push(data[i]);
        proof {
            assert(r@ =~= data@.take(i + 1));
        }
        i = i + 1;
    }
    proof {
        assert(data@.take(i as int) =~= data@);
    }
    r
}

/// Put a saved copy of the cells back.
fn restore_bytes(world: &mut ByteGrid, backup: &Vec<u8>)
    requires
        old(world).wf(),
        backup@.len() == old(world).data@.len(),
    ensures
        final(world).wf(),
        final(world).width == old(world).width && final(world).height == old(world).height,
        final(world).data@ == backup@,
{
    let fresh = clone_bytes(backup);
    world.data = fresh;
}


/// The index of the first blank line: the first newline directly followed
/// by another, or the end.
pub open spec fn first_blank(s: Seq<u8>) -> int
    decreases s.len(),
{
    if s.len() < 2 {
        s.len() as int
    } else if s[0] == 10 && s[1] == 10 {
        0
    } else {
        1 + first_blank(s.skip(1))
    }
}

/// Find the first blank line.
pub(crate) fn find_blank_line(bytes: &[u8]) -> (r: usize)
    ensures
        r == first_blank(bytes@),
        r <= bytes@.len(),
{
    let ghost whole = bytes@;
    let n = bytes.len();
    if n < 2 {
        return n;
    }
    let mut i: usize = 0;
    proof {
        assert(whole.skip(0) =~= whole);
    }
    while i < n - 1
        invariant
            n == whole.len() >= 2,
            bytes@ == whole,
            0 <= i <= n - 1,
            first_blank(whole) == i + first_blank(whole.skip(i as int)),
        decreases n - i,
    {
        if bytes[i] == 10 && bytes[i + 1] == 10 {
            proof {
                assert(whole.skip(i as int)[0] == 10 && whole.skip(i as int)[1] == 10);
            }
            return i;
        }
        proof {
            assert(whole.skip(i as int)[0] == whole[i as int]);
            assert(whole.skip(i as int)[1] == whole[i + 1]);
            assert(whole.skip(i as int).skip(1) =~= whole.skip(i + 1));
        }
        i = i + 1;
    }
    proof {
        assert(whole.skip(i as int).len() < 2);
    }
    n
}

/// The sum of the warehouse coordinates of every cell holding `target`:
/// one hundred times the row plus the column, over the first `n` cells.
pub open spec fn gps_of(w: int, data: Seq<u8>, target: u8, n: int) -> int
    decreases n,
{
    if n <= 0 {
        0
    } else {
        gps_of(w, data, target, n - 1) + if data[n - 1] == target {
            100 * ((n - 1) / w) + (n - 1) % w
        } else {
            0
        }
    }
}

/// Sum the warehouse coordinates of every `target` cell.
pub fn gps_score(world: &ByteGrid, target: u8) -> (r: i128)
    requires
        world.wf(),
        world.data@.len() <= 0x1fff_ffff,
    ensures
        r == gps_of(world.width as int, world.data@, target, world.data@.len() as int),
{
    let mut r: i128 = 0;
    let mut i: usize = 0;
    while i < world.data.len()
        invariant
            world.wf(),
            world.data@.len() <= 0x1fff_ffff,
            0 <= i <= world.data@.len(),
            r == gps_of(world.width as int, world.data@, target, i as int),
            0 <= r <= i * 0x80_0000_0000,
        decreases world.data@.len() - i,
    {
        if world.data[i] == target {
            let p = world.idx_to_point(i);
            let row = p.row;
            let col = p.col;
            proof {
                assert(0 <= row < world.height && 0 <= col < world.width);
                assert(row == i as int / world.width as int);
                assert(col == i as int % world.width as int);
                assert(100 * (row as int) + col <= 0x80_0000_0000int) by (nonlinear_arith)
                    requires
                        0 <= row <= 0x7fff_ffff,
                        0 <= col <= 0x7fff_ffff,
                ;
                assert(r + 0x80_0000_0000int <= (i + 1) * 0x80_0000_0000int) by (nonlinear_arith)
                    requires
                        0 <= r <= i * 0x80_0000_0000int,
                        i >= 0,
                ;
                assert((i + 1) * 0x80_0000_0000int <= 0x1_0000_0000_0000_0000int
                    * 0x80_0000_0000int) by (nonlinear_arith)
                    requires
                        0 <= i <= 0xffff_ffff_ffff_ffffint,
                ;
            }
            r = r + 100 * (row as i128) + (col as i128);
        } else {
            proof {
                assert(r <= (i + 1) * 0x80_0000_0000int) by (nonlinear_arith)
                    requires
                        0 <= r <= i * 0x80_0000_0000int,
                        i >= 0,
                ;
            }
        }
        i = i + 1;
    }
    r
}

/// The text describes a usable warehouse map: non-empty, small enough to
/// measure, rectangular, and with a mover on it.
pub open spec fn usable_map(m: Seq<u8>) -> bool {
    &&& m.len() > 0
    &&& m.len() <= 0x1fff_ffff
    &&& crate::bytegrid::first_line_width(m) > 0
    &&& ({
        let w = crate::bytegrid::first_line_width(m);
        let data = crate::bytegrid::without_newlines(m);
        data.len() == w * (data.len() as int / w) && data.len() as int / w > 0
    })
    &&& crate::piece_len(crate::bytegrid::without_newlines(m), 64)
        < crate::bytegrid::without_newlines(m).len()
}

/// The mover's cell: the first `@` of the buffer.
pub open spec fn mover_of(w: int, data: Seq<u8>) -> Point {
    let f = crate::piece_len(data, 64);
    Point { row: (f / w) as i32, col: (f % w) as i32 }
}

/// Run the whole move list over the single-width warehouse.
pub open spec fn walk1(w: int, h: int, data: Seq<u8>, pos: Point, moves: Seq<u8>) -> (Seq<u8>, Point)
    decreases moves.len(),
{
    if moves.len() == 0 {
        (data, pos)
    } else {
        let stepped = spec_step1(w, h, data, pos, moves[0]);
        let pos2 = match stepped.1 {
            Some(p) => p,
            None => pos,
        };
        walk1(w, h, stepped.0, pos2, moves.skip(1))
    }
}

/// Run the whole move list over the double-width warehouse.
pub open spec fn walk2(w: int, h: int, data: Seq<u8>, pos: Point, moves: Seq<u8>) -> (Seq<u8>, Point)
    decreases moves.len(),
{
    if moves.len() == 0 {
        (data, pos)
    } else {
        let stepped = spec_step2(w, h, data, pos, moves[0]);
        let pos2 = match stepped.1 {
            Some(p) => p,
            None => pos,
        };
        walk2(w, h, stepped.0, pos2, moves.skip(1))
    }
}

/// What the day answers for a map buffer and a move list: the crate
/// coordinate sum of the walked warehouse, minus one when the map is
/// unusable or the sum leaves the answer's range.
pub open spec fn spec_answer(m: Seq<u8>, moves: Seq<u8>, wide: bool) -> int {
    if usable_map(m) {
        let w = crate::bytegrid::first_line_width(m);
        let data = crate::bytegrid::without_newlines(m);
        let h = data.len() as int / w;
        let m0 = mover_of(w, data);
        let walked = if wide {
            walk2(w, h, data, m0, moves)
        } else {
            walk1(w, h, data, m0, moves)
        };
        let score = gps_of(w, walked.0, if wide {
            91
        } else {
            79
        }, data.len() as int);
        if 0 <= score <= i32::MAX {
            score
        } else {
            -1
        }
    } else {
        -1
    }
}

/// Walk the single-width warehouse and sum the crate coordinates.
pub fn part1(input: &str) -> (r: i32)
    ensures
        r == spec_answer(
            input.spec_bytes().take(first_blank(input.spec_bytes())),
            input.spec_bytes().skip(first_blank(input.spec_bytes())),
            false,
        ),
{
    let bytes = input.as_bytes();
    let split = find_blank_line(bytes);
    let map = crate::slice_copy(bytes, 0, split);
    proof {
        assert(map@ =~= bytes@.take(split as int));
    }
    walk_and_score(&map, bytes, split, false)
}

/// Widen the warehouse to double-width crates, walk it, and sum the crate
/// coordinates.
pub fn part2(input: &str) -> (r: i32)
    ensures
        r == spec_answer(
            widen(input.spec_bytes().take(first_blank(input.spec_bytes()))),
            input.spec_bytes().skip(first_blank(input.spec_bytes())),
            true,
        ),
{
    let bytes = input.as_bytes();
    let split = find_blank_line(bytes);
    let mut wide_map: Vec<u8> = Vec::new();
    let mut i: usize = 0;
    proof {
        assert(bytes@.take(0) =~= Seq::<u8>::empty());
        assert(widen(bytes@.take(0)) =~= Seq::<u8>::empty());
    }
    while i < split
        invariant
            split <= bytes@.len(),
            0 <= i <= split,
            wide_map@ == widen(bytes@.take(i as int)),
        decreases split - i,
    {
        let b = bytes[i];
        proof {
            assert(bytes@.take(i + 1).drop_last() =~= bytes@.take(i as int));
            assert(bytes@.take(i + 1).last() == b);
        }
        if b == 35 {
            wide_map.push(35);
            wide_map.push(35);
        } else if b == 46 {
            wide_map.push(46);
            wide_map.push(46);
        } else if b == 79 {
            wide_map.push(91);
            wide_map.push(93);
        } else if b == 64 {
            wide_map.push(64);
            wide_map.push(46);
        } else {
            wide_map.push(b);
        }
        i = i + 1;
    }
    proof {
        assert(bytes@.take(split as int).len() == split as int);
        assert(wide_map@ == widen(bytes@.take(split as int)));
    }
    walk_and_score(&wide_map, bytes, split, true)
}

/// The map with walls and floor doubled, each crate a bracket pair, and
/// the mover keeping a free cell at its right.
pub open spec fn widen(s: Seq<u8>) -> Seq<u8>
    decreases s.len(),
{
    if s.len() == 0 {
        seq![]
    } else {
        widen(s.drop_last()) + expand(s.last())
    }
}

/// What one map byte widens to.
pub open spec fn expand(b: u8) -> Seq<u8> {
    if b == 35 {
        seq![35u8, 35u8]
    } else if b == 46 {
        seq![46u8, 46u8]
    } else if b == 79 {
        seq![91u8, 93u8]
    } else if b == 64 {
        seq![64u8, 46u8]
    } else {
        seq![b]
    }
}

/// Build the warehouse from the map buffer, run every move byte, and score
/// the crates.
fn walk_and_score(map: &Vec<u8>, bytes: &[u8], split: usize, wide: bool) -> (r: i32)
    requires
        split <= bytes@.len(),
    ensures
        r == spec_answer(map@, bytes@.skip(split as int), wide),
{
    let target: u8 = if wide {
        91
    } else {
        79
    };
    if map.len() == 0 || map.len() > 0x1fff_ffff {
        return -1;
    }
    let l = crate::scan_to_byte(map.as_slice(), 0, 10);
    proof {
        crate::lemma_piece_len_at(map@, 10, l as int);
    }
    let w = if l < map.len() && l > 0 && map[l - 1] == 13 {
        l - 1
    } else {
        l
    };
    if w == 0 {
        return -1;
    }
    let mut world = crate::bytegrid::ByteGrid::from_bytes(map.as_slice());
    proof {
        crate::bytegrid::lemma_without_newlines_len(map@);
    }
    if !world.is_wf() {
        return -1;
    }
    let ghost w0 = world.width as int;
    let ghost h0 = world.height as int;
    let ghost data0 = world.data@;
    // find the mover
    let mover_idx = crate::scan_to_byte(world.data.as_slice(), 0, 64);
    proof {
        crate::lemma_piece_len_at(world.data@, 64, mover_idx as int);
    }
    if mover_idx >= world.data.len() {
        return -1;
    }
    let mut character = world.idx_to_point(mover_idx);
    proof {
        assert(usable_map(map@));
        assert(character == mover_of(w0, data0));
    }
    let mut i = split;
    let ghost moves = bytes@.skip(split as int);
    proof {
        assert(moves.skip(0) =~= moves);
    }
    while i < bytes.len()
        invariant
            split <= i <= bytes@.len(),
            moves == bytes@.skip(split as int),
            world.wf(),
            world.width == w0 && world.height == h0,
            world.valid(character),
            (if wide {
                walk2(w0, h0, data0, mover_of(w0, data0), moves)
            } else {
                walk1(w0, h0, data0, mover_of(w0, data0), moves)
            }) == (if wide {
                walk2(w0, h0, world.data@, character, moves.skip(i - split))
            } else {
                walk1(w0, h0, world.data@, character, moves.skip(i - split))
            }),
        decreases bytes@.len() - i,
    {
        let c = bytes[i];
        proof {
            assert(moves.skip(i - split)[0] == bytes@[i as int]);
            assert(moves.skip(i - split).skip(1) =~= moves.skip(i + 1 - split));
        }
        let stepped = if wide {
            take_step_part2(&mut world, character, c)
        } else {
            take_step(&mut world, character, c)
        };
        match stepped {
            Some(p) => {
                character = p;
            },
            None => (),
        }
        i = i + 1;
    }
    proof {
        assert(moves.skip(i - split) =~= Seq::<u8>::empty());
    }
    if world.data.len() > 0x1fff_ffff {
        return -1;
    }
    let score = gps_score(&world, target);
    if 0 <= score && score <= i32::MAX as i128 {
        score as i32
    } else {
        -1
    }
}


} // verus!
