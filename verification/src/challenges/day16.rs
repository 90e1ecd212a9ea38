use vstd::prelude::*;

verus! {

use crate::bytegrid::{Point, north, south, east, west};

/// A racer in the maze: a position and one of the four headings.
#[derive(Debug, PartialEq, Eq, Structural, Hash, Clone, Copy)]
pub struct Reindeer {
    pub pos: Point,
    pub heading: Point,
}

/// Magnitude of an integer.
pub open spec fn abs_int(x: int) -> int {
    if x < 0 {
        -x
    } else {
        x
    }
}

impl Reindeer {
    /// A racer facing east, as every run starts.
    pub fn new(pos: Point) -> (r: Reindeer)
        ensures
            r.pos == pos && r.heading == east(),
    {
        Reindeer { pos, heading: east() }
    }

    /// The heading is one of the four compass directions.
    pub open spec fn directed(self) -> bool {
        self.heading == north() || self.heading == south() || self.heading == east()
            || self.heading == west()
    }

    /// The three moves a racer can make: one step ahead for one point, or a
    /// quarter turn either way for a thousand.
    pub open spec fn spec_successors(self) -> Seq<(Reindeer, u32)> {
        if self.heading == north() {
            seq![
                (Reindeer { pos: self.pos.spec_add(north()), heading: north() }, 1u32),
                (Reindeer { pos: self.pos, heading: west() }, 1000u32),
                (Reindeer { pos: self.pos, heading: east() }, 1000u32),
            ]
        } else if self.heading == south() {
            seq![
                (Reindeer { pos: self.pos.spec_add(south()), heading: south() }, 1u32),
                (Reindeer { pos: self.pos, heading: west() }, 1000u32),
                (Reindeer { pos: self.pos, heading: east() }, 1000u32),
            ]
        } else if self.heading == east() {
            seq![
                (Reindeer { pos: self.pos.spec_add(east()), heading: east() }, 1u32),
                (Reindeer { pos: self.pos, heading: north() }, 1000u32),
                (Reindeer { pos: self.pos, heading: south() }, 1000u32),
            ]
        } else {
            seq![
                (Reindeer { pos: self.pos.spec_add(west()), heading: west() }, 1u32),
                (Reindeer { pos: self.pos, heading: north() }, 1000u32),
                (Reindeer { pos: self.pos, heading: south() }, 1000u32),
            ]
        }
    }

    /// The moves from this state, with their costs.
    pub fn successors(&self) -> (r: Vec<(Reindeer, u32)>)
        requires
            self.directed(),
            self.pos.small(),
        ensures
            r@ == self.spec_successors(),
    {
        let mut r: Vec<(Reindeer, u32)> = Vec::new();
        if self.heading.row == -1 && self.heading.col == 0 {
            r.push((Reindeer { pos: self.pos.plus(north()), heading: north() }, 1));
            r.push((Reindeer { pos: self.pos, heading: west() }, 1000));
            r.push((Reindeer { pos: self.pos, heading: east() }, 1000));
            proof {
                assert(r@ =~= self.spec_successors());
            }
        } else if self.heading.row == 1 && self.heading.col == 0 {
            r.push((Reindeer { pos: self.pos.plus(south()), heading: south() }, 1));
            r.push((Reindeer { pos: self.pos, heading: west() }, 1000));
            r.push((Reindeer { pos: self.pos, heading: east() }, 1000));
            proof {
                assert(r@ =~= self.spec_successors());
            }
        } else if self.heading.row == 0 && self.heading.col == 1 {
            r.push((Reindeer { pos: self.pos.plus(east()), heading: east() }, 1));
            r.push((Reindeer { pos: self.pos, heading: north() }, 1000));
            r.push((Reindeer { pos: self.pos, heading: south() }, 1000));
            proof {
                assert(r@ =~= self.spec_successors());
            }
        } else {
            r.push((Reindeer { pos: self.pos.plus(west()), heading: west() }, 1));
            r.push((Reindeer { pos: self.pos, heading: north() }, 1000));
            r.push((Reindeer { pos: self.pos, heading: south() }, 1000));
            proof {
                assert(r@ =~= self.spec_successors());
            }
        }
        r
    }

    /// The taxicab distance between two racers' positions.
    pub fn dist(&self, other: &Reindeer) -> (r: u32)
        requires
            abs_int(self.pos.row - other.pos.row) + abs_int(self.pos.col - other.pos.col)
                <= u32::MAX,
        ensures
            r == abs_int(self.pos.row - other.pos.row) + abs_int(self.pos.col - other.pos.col),
    {
        let dr = self.pos.row as i64 - other.pos.row as i64;
        let dc = self.pos.col as i64 - other.pos.col as i64;
        let adr = if dr < 0 {
            -dr
        } else {
            dr
        };
        let adc = if dc < 0 {
            -dc
        } else {
            dc
        };
        (adr + adc) as u32
    }
}

} // verus!
