use vstd::prelude::*;

verus! {

use vstd::string::*;

/// A row/column position of the older character-grid walker.
#[derive(Debug, Hash, Copy, Clone, PartialEq, Eq, Structural)]
pub struct Point {
    pub row: i32,
    pub col: i32,
}

/// The unit steps and the origin, by compass name.
#[verifier::allow_in_spec]
pub fn northwest() -> Point
    returns
        (Point { row: -1i32, col: -1i32 }),
{
    Point { row: -1, col: -1 }
}

#[verifier::allow_in_spec]
pub fn north() -> Point
    returns
        (Point { row: -1i32, col: 0i32 }),
{
    Point { row: -1, col: 0 }
}

#[verifier::allow_in_spec]
pub fn northeast() -> Point
    returns
        (Point { row: -1i32, col: 1i32 }),
{
    Point { row: -1, col: 1 }
}

#[verifier::allow_in_spec]
pub fn west() -> Point
    returns
        (Point { row: 0i32, col: -1i32 }),
{
    Point { row: 0, col: -1 }
}

#[verifier::allow_in_spec]
pub fn origin() -> Point
    returns
        (Point { row: 0i32, col: 0i32 }),
{
    Point { row: 0, col: 0 }
}

#[verifier::allow_in_spec]
pub fn east() -> Point
    returns
        (Point { row: 0i32, col: 1i32 }),
{
    Point { row: 0, col: 1 }
}

#[verifier::allow_in_spec]
pub fn southwest() -> Point
    returns
        (Point { row: 1i32, col: -1i32 }),
{
    Point { row: 1, col: -1 }
}

#[verifier::allow_in_spec]
pub fn south() -> Point
    returns
        (Point { row: 1i32, col: 0i32 }),
{
    Point { row: 1, col: 0 }
}

#[verifier::allow_in_spec]
pub fn southeast() -> Point
    returns
        (Point { row: 1i32, col: 1i32 }),
{
    Point { row: 1, col: 1 }
}

impl Default for Point {
    /// The origin.
    fn default() -> (r: Point)
        ensures
            r.row == 0 && r.col == 0,
    {
        Point { row: 0, col: 0 }
    }
}

impl Point {
    pub open spec fn can_add(self, other: Point) -> bool {
        &&& i32::MIN <= self.row + other.row <= i32::MAX
        &&& i32::MIN <= self.col + other.col <= i32::MAX
    }

    pub open spec fn spec_add(self, other: Point) -> Point {
        Point { row: (self.row + other.row) as i32, col: (self.col + other.col) as i32 }
    }

    pub open spec fn can_sub(self, other: Point) -> bool {
        &&& i32::MIN <= self.row - other.row <= i32::MAX
        &&& i32::MIN <= self.col - other.col <= i32::MAX
    }

    pub open spec fn small(self) -> bool {
        i32::MIN < self.row < i32::MAX && i32::MIN < self.col < i32::MAX
    }

    pub fn new(row: i32, col: i32) -> (r: Point)
        ensures
            r.row == row && r.col == col,
    {
        Point { row, col }
    }

    /// Componentwise sum.
    pub fn plus(self, other: Point) -> (r: Point)
        requires
            self.can_add(other),
        ensures
            r == self.spec_add(other),
    {
        Point { row: self.row + other.row, col: self.col + other.col }
    }

    /// Componentwise difference.
    pub fn minus(self, other: Point) -> (r: Point)
        requires
            self.can_sub(other),
        ensures
            r.row == self.row - other.row && r.col == self.col - other.col,
    {
        Point { row: self.row - other.row, col: self.col - other.col }
    }

    /// Both coordinates scaled by `k`.
    pub fn times(self, k: i32) -> (r: Point)
        requires
            i32::MIN <= self.row * k <= i32::MAX,
            i32::MIN <= self.col * k <= i32::MAX,
        ensures
            r.row == self.row * k && r.col == self.col * k,
    {
        Point { row: self.row * k, col: self.col * k }
    }

    /// The eight neighbours.
    pub fn adjacencies(self) -> (r: [Point; 8])
        requires
            self.small(),
        ensures
            r@ == seq![
                self.spec_add(north()),
                self.spec_add(northwest()),
                self.spec_add(northeast()),
                self.spec_add(west()),
                self.spec_add(east()),
                self.spec_add(southwest()),
                self.spec_add(south()),
                self.spec_add(southeast()),
            ],
    {
        let r = [
            self.plus(north()),
            self.plus(northwest()),
            self.plus(northeast()),
            self.plus(west()),
            self.plus(east()),
            self.plus(southwest()),
            self.plus(south()),
            self.plus(southeast()),
        ];
        proof {
            assert(r@ =~= seq![
                self.spec_add(north()),
                self.spec_add(northwest()),
                self.spec_add(northeast()),
                self.spec_add(west()),
                self.spec_add(east()),
                self.spec_add(southwest()),
                self.spec_add(south()),
                self.spec_add(southeast()),
            ]);
        }
        r
    }

    /// The four orthogonal neighbours.
    pub fn orthogonals(self) -> (r: [Point; 4])
        requires
            self.small(),
        ensures
            r@ == seq![
                self.spec_add(north()),
                self.spec_add(west()),
                self.spec_add(east()),
                self.spec_add(south()),
            ],
    {
        let r = [self.plus(north()), self.plus(west()), self.plus(east()), self.plus(south())];
        proof {
            assert(r@ =~= seq![
                self.spec_add(north()),
                self.spec_add(west()),
                self.spec_add(east()),
                self.spec_add(south()),
            ]);
        }
        r
    }

    /// The four diagonal neighbours.
    pub fn diagonals(self) -> (r: [Point; 4])
        requires
            self.small(),
        ensures
            r@ == seq![
                self.spec_add(northwest()),
                self.spec_add(northeast()),
                self.spec_add(southwest()),
                self.spec_add(southeast()),
            ],
    {
        let r = [
            self.plus(northwest()),
            self.plus(northeast()),
            self.plus(southwest()),
            self.plus(southeast()),
        ];
        proof {
            assert(r@ =~= seq![
                self.spec_add(northwest()),
                self.spec_add(northeast()),
                self.spec_add(southwest()),
                self.spec_add(southeast()),
            ]);
        }
        r
    }
}

/// The older character grid: a flat byte buffer addressed by row and
/// column.
pub struct ByteGrid {
    pub width: i32,
    pub height: i32,
    pub data: Vec<u8>,
}

impl ByteGrid {
    /// A well-formed grid: positive dimensions that exactly account for the
    /// buffer.
    pub open spec fn wf(&self) -> bool {
        &&& 0 < self.width
        &&& 0 < self.height
        &&& self.data@.len() == self.width * self.height
    }

    pub open spec fn valid(&self, p: Point) -> bool {
        0 <= p.row < self.height && 0 <= p.col < self.width
    }

    pub open spec fn spec_at(&self, p: Point) -> u8 {
        self.data@[p.row * self.width + p.col]
    }

    pub open spec fn spec_idx(&self, p: Point) -> int {
        p.row * self.width + p.col
    }

    /// The grid read from text, exactly as the byte grid reads it.
    pub fn new(input: &str) -> (r: ByteGrid)
        requires
            input.spec_bytes().len() > 0,
            input.spec_bytes().len() <= i32::MAX,
            crate::bytegrid::first_line_width(input.spec_bytes()) > 0,
        ensures
            r.width == crate::bytegrid::first_line_width(input.spec_bytes()),
            r.data@ == crate::bytegrid::without_newlines(input.spec_bytes()),
            r.height == r.data@.len() as int / r.width as int,
    {
        let core = crate::bytegrid::ByteGrid::new(input);
        ByteGrid { width: core.width, height: core.height, data: core.data }
    }

    /// Whether the stored dimensions exactly account for the buffer.
    pub fn is_wf(&self) -> (r: bool)
        ensures
            r == self.wf(),
    {
        if self.width <= 0 || self.height <= 0 {
            return false;
        }
        proof {
            crate::bytegrid::lemma_i32_mul_bound(self.width, self.height);
            assert(self.width * self.height > 0) by (nonlinear_arith)
                requires
                    self.width > 0 && self.height > 0,
            ;
        }
        let prod = self.width as i64 * self.height as i64;
        prod as u64 == self.data.len() as u64
    }

    /// The buffer index of the cell in row `row`, column `col`.
    pub fn coord_to_idx(&self, row: i32, col: i32) -> (r: usize)
        requires
            self.wf(),
            0 <= row < self.height,
            0 <= col < self.width,
        ensures
            r == row * self.width + col,
            r < self.data@.len(),
    {
        let core = self.core_copy();
        core.coord_to_idx(row, col)
    }

    /// This walker drops the width factor when it turns an index back into
    /// a coordinate, so only indexes inside the first row round-trip; the
    /// contract records exactly that arithmetic.
    pub fn idx_to_coord(&self, idx: usize) -> (r: (i32, i32))
        requires
            self.wf(),
            idx < self.data@.len(),
            idx <= i32::MAX,
        ensures
            r.0 == idx as int / self.width as int,
            r.1 == idx as int - idx as int / self.width as int,
    {
        proof {
            crate::bytegrid::lemma_i32_mul_bound(self.width, self.height);
            assert((idx as int / self.width as int) < self.height && 0 <= (idx as int
                / self.width as int)) by (nonlinear_arith)
                requires
                    0 <= idx && (idx as int) < self.width * self.height,
                    self.width > 0,
                    self.height > 0,
            ;
            assert((idx as int / self.width as int) * self.width as int <= idx) by (
            nonlinear_arith)
                requires
                    idx >= 0,
                    self.width > 0,
            ;
        }
        let idx_i = idx as i64;
        let w = self.width as i64;
        let div = idx_i / w;
        let rem = idx_i - div;
        proof {
            assert(div == idx as int / self.width as int);
        }
        (div as i32, rem as i32)
    }

    /// The point the dropped-factor arithmetic produces for an index.
    pub fn idx_to_point(&self, idx: usize) -> (r: Point)
        requires
            self.wf(),
            idx < self.data@.len(),
            idx <= i32::MAX,
        ensures
            r.row == idx as int / self.width as int,
            r.col == idx as int - idx as int / self.width as int,
    {
        let (row, col) = self.idx_to_coord(idx);
        Point { row, col }
    }

    /// The rows of the grid, each as its own vector of bytes.
    pub fn rows(&self) -> (r: Vec<Vec<u8>>)
        requires
            self.wf(),
        ensures
            r@.len() == self.height,
            forall|i: int|
                0 <= i < r@.len() ==> #[trigger] r@[i]@ == self.data@.subrange(
                    i * self.width,
                    (i + 1) * self.width,
                ),
    {
        let core = self.core_copy();
        core.rows()
    }

    /// The rows of the grid, copied; mutation goes through `set_point`.
    pub fn rows_mut(&mut self) -> (r: Vec<Vec<u8>>)
        requires
            old(self).wf(),
        ensures
            *final(self) == *old(self),
            r@.len() == old(self).height,
            forall|i: int|
                0 <= i < r@.len() ==> #[trigger] r@[i]@ == old(self).data@.subrange(
                    i * old(self).width,
                    (i + 1) * old(self).width,
                ),
    {
        self.rows()
    }

    /// The byte the raw index arithmetic of `p` reaches; this walker does
    /// not test the point against the grid edges first, so a point off a
    /// row's end aliases a neighbouring row.
    pub fn get_point(&self, p: Point) -> (r: Option<&u8>)
        ensures
            r matches Some(b) ==> 0 <= self.spec_idx(p) < self.data@.len() && *b == self.data@[
                self.spec_idx(p)
            ],
            r is None <==> !(0 <= self.spec_idx(p) < self.data@.len()),
    {
        proof {
            crate::bytegrid::lemma_i32_mul_bound(p.row, self.width);
        }
        let idx = p.row as i64 * self.width as i64 + p.col as i64;
        if 0 <= idx && (idx as u64) < (self.data.len() as u64) {
            Some(&self.data[idx as usize])
        } else {
            None
        }
    }

    /// The same raw lookup, handing the byte back by value.
    pub fn get_point_mut(&mut self, p: Point) -> (r: Option<u8>)
        ensures
            *final(self) == *old(self),
            r matches Some(b) ==> 0 <= old(self).spec_idx(p) < old(self).data@.len() && b == old(
                self,
            ).data@[old(self).spec_idx(p)],
            r is None <==> !(0 <= old(self).spec_idx(p) < old(self).data@.len()),
    {
        match self.get_point(p) {
            Some(b) => Some(*b),
            None => None,
        }
    }

    /// The byte at a valid point.
    pub fn at(&self, p: Point) -> (r: u8)
        requires
            self.wf(),
            self.valid(p),
        ensures
            r == self.spec_at(p),
    {
        let core = self.core_copy();
        core.at(p.to_core())
    }

    /// Write `b` at a valid point.
    pub fn set_point(&mut self, p: Point, b: u8)
        requires
            old(self).wf(),
            old(self).valid(p),
        ensures
            final(self).wf(),
            final(self).width == old(self).width && final(self).height == old(self).height,
            final(self).data@ == old(self).data@.update(old(self).spec_idx(p), b),
    {
        let idx = self.coord_to_idx(p.row, p.col);
        self.data[idx] = b;
    }

    pub fn is_valid_point(&self, p: Point) -> (r: bool)
        ensures
            r == self.valid(p),
    {
        0 <= p.row && p.row < self.height && 0 <= p.col && p.col < self.width
    }

    /// This grid's state seen as the shared byte-grid core.
    pub open spec fn core_view(self) -> crate::bytegrid::ByteGrid {
        crate::bytegrid::ByteGrid { width: self.width, height: self.height, data: self.data }
    }

    /// Flood the eight-way connected patch under `start` with `fill`.
    pub fn flood_adjacencies(&mut self, start: Point, fill: u8) -> (r: (usize, Vec<
        crate::bytegrid::Point,
    >))
        requires
            old(self).wf(),
        ensures
            final(self).wf(),
            final(self).width == old(self).width && final(self).height == old(self).height,
            r.0 == r.1@.len(),
            crate::bytegrid::is_component(
                old(self).core_view(),
                start.spec_core(),
                r.1@,
                false,
            ),
            forall|q: crate::bytegrid::Point|
                old(self).core_view().valid(q) ==> final(self).core_view().spec_at(q) == (
                if r.1@.contains(q) {
                    fill
                } else {
                    old(self).core_view().spec_at(q)
                }),
    {
        let mut taken: Vec<u8> = Vec::new();
        core::mem::swap(&mut taken, &mut self.data);
        let mut core = crate::bytegrid::ByteGrid {
            width: self.width,
            height: self.height,
            data: taken,
        };
        proof {
            assert(core == old(self).core_view());
        }
        let r = core.flood_adjacencies(start.to_core(), fill);
        self.width = core.width;
        self.height = core.height;
        self.data = core.data;
        r
    }

    /// Flood the four-way connected patch under `start` with `fill`.
    pub fn flood_orthogonals(&mut self, start: Point, fill: u8) -> (r: (usize, Vec<
        crate::bytegrid::Point,
    >))
        requires
            old(self).wf(),
        ensures
            final(self).wf(),
            final(self).width == old(self).width && final(self).height == old(self).height,
            r.0 == r.1@.len(),
            crate::bytegrid::is_component(old(self).core_view(), start.spec_core(), r.1@, true),
            forall|q: crate::bytegrid::Point|
                old(self).core_view().valid(q) ==> final(self).core_view().spec_at(q) == (
                if r.1@.contains(q) {
                    fill
                } else {
                    old(self).core_view().spec_at(q)
                }),
    {
        let mut taken: Vec<u8> = Vec::new();
        core::mem::swap(&mut taken, &mut self.data);
        let mut core = crate::bytegrid::ByteGrid {
            width: self.width,
            height: self.height,
            data: taken,
        };
        proof {
            assert(core == old(self).core_view());
        }
        let r = core.flood_orthogonals_mut(start.to_core(), fill);
        self.width = core.width;
        self.height = core.height;
        self.data = core.data;
        r
    }

    /// The bytes at `point` offset by each entry of `offsets`, when every
    /// such position lies in the grid.
    pub fn u8s_surrounding(&self, point: Point, offsets: &Vec<Point>) -> (r: Option<Vec<u8>>)
        requires
            self.wf(),
        ensures
            r matches Some(v) ==> v@.len() == offsets@.len(),
    {
        let mut result: Vec<u8> = Vec::new();
        let mut i: usize = 0;
        while i < offsets.len()
            invariant
                self.wf(),
                0 <= i <= offsets@.len(),
                result@.len() == i,
            decreases offsets@.len() - i,
        {
            let off = offsets[i];
            let nr = point.row as i64 + off.row as i64;
            let nc = point.col as i64 + off.col as i64;
            if 0 <= nr && nr < self.height as i64 && 0 <= nc && nc < self.width as i64 {
                let b = self.at(Point { row: nr as i32, col: nc as i32 });
                result.push(b);
            } else {
                return None;
            }
            i = i + 1;
        }
        Some(result)
    }

    /// A cursor that reads bytes along a ray.
    pub fn iter_from_point_with_offsets(
        &self,
        row: i32,
        col: i32,
        row_offset: i32,
        col_offset: i32,
    ) -> (r: ByteGridIter)
        requires
            i32::MIN <= row - row_offset <= i32::MAX,
            i32::MIN <= col - col_offset <= i32::MAX,
        ensures
            r.row == row - row_offset && r.col == col - col_offset && r.row_offset == row_offset
                && r.col_offset == col_offset,
    {
        ByteGridIter::new(self, row, col, row_offset, col_offset)
    }

    /// A cursor that walks cell positions along a ray, for writing through
    /// `set_point`.
    pub fn iter_mut_ray(
        &mut self,
        row: i32,
        col: i32,
        row_offset: i32,
        col_offset: i32,
    ) -> (r: ByteGridIterMut)
        requires
            i32::MIN <= row - row_offset <= i32::MAX,
            i32::MIN <= col - col_offset <= i32::MAX,
        ensures
            *final(self) == *old(self),
            r.row == row - row_offset && r.col == col - col_offset && r.row_offset == row_offset
                && r.col_offset == col_offset,
    {
        ByteGridIterMut::new(self, row, col, row_offset, col_offset)
    }

    /// A reading cursor from `pos` stepping by `vel`.
    pub fn iter_towards(&self, pos: Point, vel: Point) -> (r: ByteGridIter)
        requires
            pos.can_sub(vel),
        ensures
            r.row == pos.row - vel.row && r.col == pos.col - vel.col && r.row_offset == vel.row
                && r.col_offset == vel.col,
    {
        self.iter_from_point_with_offsets(pos.row, pos.col, vel.row, vel.col)
    }

    /// A writing cursor from `pos` stepping by `vel`.
    pub fn iter_mut_towards(&mut self, pos: Point, vel: Point) -> (r: ByteGridIterMut)
        requires
            pos.can_sub(vel),
        ensures
            *final(self) == *old(self),
            r.row == pos.row - vel.row && r.col == pos.col - vel.col && r.row_offset == vel.row
                && r.col_offset == vel.col,
    {
        self.iter_mut_ray(pos.row, pos.col, vel.row, vel.col)
    }

    /// A copy of this grid as the shared byte-grid core.
    fn core_copy(&self) -> (r: crate::bytegrid::ByteGrid)
        ensures
            r.width == self.width && r.height == self.height && r.data@ == self.data@,
    {
        crate::bytegrid::ByteGrid {
            width: self.width,
            height: self.height,
            data: crate::slice_copy(self.data.as_slice(), 0, self.data.len()),
        }
    }
}

impl Point {
    /// The same position in the shared byte-grid core.
    pub open spec fn spec_core(self) -> crate::bytegrid::Point {
        crate::bytegrid::Point { row: self.row, col: self.col }
    }

    /// The same position in the shared byte-grid core.
    fn to_core(self) -> (r: crate::bytegrid::Point)
        ensures
            r == self.spec_core(),
    {
        crate::bytegrid::Point { row: self.row, col: self.col }
    }
}

/// A reading cursor along a ray of the grid.
pub struct ByteGridIter {
    pub row: i32,
    pub col: i32,
    pub row_offset: i32,
    pub col_offset: i32,
}

impl ByteGridIter {
    pub fn new(grid: &ByteGrid, row: i32, col: i32, row_offset: i32, col_offset: i32) -> (r:
        ByteGridIter)
        requires
            i32::MIN <= row - row_offset <= i32::MAX,
            i32::MIN <= col - col_offset <= i32::MAX,
        ensures
            r.row == row - row_offset && r.col == col - col_offset && r.row_offset == row_offset
                && r.col_offset == col_offset,
    {
        ByteGridIter {
            row: row - row_offset,
            col: col - col_offset,
            row_offset,
            col_offset,
        }
    }

    /// The next in-grid position of the ray, or nothing once it has left
    /// the grid.
    pub open spec fn spec_next_pos(&self, g: ByteGrid) -> Option<Point> {
        let nr = self.row + self.row_offset;
        let nc = self.col + self.col_offset;
        if 0 <= nr < g.height && 0 <= nc < g.width {
            Some(Point { row: nr as i32, col: nc as i32 })
        } else {
            None
        }
    }

    /// The byte under the next cell of the ray, advancing the cursor onto
    /// it.
    pub fn next(&mut self, grid: &ByteGrid) -> (r: Option<u8>)
        requires
            grid.wf(),
        ensures
            old(self).spec_next_pos(*grid) matches Some(p) ==> (r == Some(grid.spec_at(p))
                && final(self).row == p.row && final(self).col == p.col
                && final(self).row_offset == old(self).row_offset
                && final(self).col_offset == old(self).col_offset),
            old(self).spec_next_pos(*grid) is None ==> r is None && *final(self) == *old(self),
    {
        let nr = self.row as i64 + self.row_offset as i64;
        let nc = self.col as i64 + self.col_offset as i64;
        if 0 <= nr && nr < grid.height as i64 && 0 <= nc && nc < grid.width as i64 {
            self.row = nr as i32;
            self.col = nc as i32;
            Some(grid.at(Point { row: self.row, col: self.col }))
        } else {
            None
        }
    }
}

/// A writing cursor along a ray of the grid: it yields each in-grid cell
/// position in turn, and the caller writes through `set_point`.
pub struct ByteGridIterMut {
    pub row: i32,
    pub col: i32,
    pub row_offset: i32,
    pub col_offset: i32,
}

impl ByteGridIterMut {
    pub fn new(grid: &ByteGrid, row: i32, col: i32, row_offset: i32, col_offset: i32) -> (r:
        ByteGridIterMut)
        requires
            i32::MIN <= row - row_offset <= i32::MAX,
            i32::MIN <= col - col_offset <= i32::MAX,
        ensures
            r.row == row - row_offset && r.col == col - col_offset && r.row_offset == row_offset
                && r.col_offset == col_offset,
    {
        ByteGridIterMut {
            row: row - row_offset,
            col: col - col_offset,
            row_offset,
            col_offset,
        }
    }

    pub open spec fn spec_next_pos(&self, g: ByteGrid) -> Option<Point> {
        let nr = self.row + self.row_offset;
        let nc = self.col + self.col_offset;
        if 0 <= nr < g.height && 0 <= nc < g.width {
            Some(Point { row: nr as i32, col: nc as i32 })
        } else {
            None
        }
    }

    /// The next in-grid cell of the ray, advancing onto it.
    pub fn next_point(&mut self, grid: &ByteGrid) -> (r: Option<Point>)
        ensures
            old(self).spec_next_pos(*grid) matches Some(p) ==> (r == Some(p) && grid.valid(p)
                && final(self).row == p.row && final(self).col == p.col
                && final(self).row_offset == old(self).row_offset
                && final(self).col_offset == old(self).col_offset),
            old(self).spec_next_pos(*grid) is None ==> r is None && *final(self) == *old(self),
    {
        let nr = self.row as i64 + self.row_offset as i64;
        let nc = self.col as i64 + self.col_offset as i64;
        if 0 <= nr && nr < grid.height as i64 && 0 <= nc && nc < grid.width as i64 {
            self.row = nr as i32;
            self.col = nc as i32;
            Some(Point { row: self.row, col: self.col })
        } else {
            None
        }
    }
}

} // verus!
