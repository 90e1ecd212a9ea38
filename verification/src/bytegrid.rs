use vstd::prelude::*;

verus! {

use std::collections::HashMap;
use vstd::string::*;

broadcast use vstd::std_specs::hash::group_hash_axioms;

/// A row/column position, possibly outside any particular grid.
#[derive(Debug, Hash, Copy, Clone, PartialEq, Eq, Structural, PartialOrd, Ord)]
pub struct Point {
    pub row: i32,
    pub col: i32,
}

/// The unit steps and the origin, by compass name.
#[verifier::allow_in_spec]
pub fn northwest() -> Point
    returns
        (Point { row: -1i32, col: -1i32 }),
{
    Point { row: -1, col: -1 }
}

#[verifier::allow_in_spec]
pub fn north() -> Point
    returns
        (Point { row: -1i32, col: 0i32 }),
{
    Point { row: -1, col: 0 }
}

#[verifier::allow_in_spec]
pub fn northeast() -> Point
    returns
        (Point { row: -1i32, col: 1i32 }),
{
    Point { row: -1, col: 1 }
}

#[verifier::allow_in_spec]
pub fn west() -> Point
    returns
        (Point { row: 0i32, col: -1i32 }),
{
    Point { row: 0, col: -1 }
}

#[verifier::allow_in_spec]
pub fn origin() -> Point
    returns
        (Point { row: 0i32, col: 0i32 }),
{
    Point { row: 0, col: 0 }
}

#[verifier::allow_in_spec]
pub fn east() -> Point
    returns
        (Point { row: 0i32, col: 1i32 }),
{
    Point { row: 0, col: 1 }
}

#[verifier::allow_in_spec]
pub fn southwest() -> Point
    returns
        (Point { row: 1i32, col: -1i32 }),
{
    Point { row: 1, col: -1 }
}

#[verifier::allow_in_spec]
pub fn south() -> Point
    returns
        (Point { row: 1i32, col: 0i32 }),
{
    Point { row: 1, col: 0 }
}

#[verifier::allow_in_spec]
pub fn southeast() -> Point
    returns
        (Point { row: 1i32, col: 1i32 }),
{
    Point { row: 1, col: 1 }
}

impl Default for Point {
    /// The origin.
    fn default() -> (r: Point)
        ensures
            r.row == 0 && r.col == 0,
    {
        Point { row: 0, col: 0 }
    }
}

impl Point {
    /// Both coordinates of the componentwise sum stay in the `i32` range.
    pub open spec fn can_add(self, other: Point) -> bool {
        &&& i32::MIN <= self.row + other.row <= i32::MAX
        &&& i32::MIN <= self.col + other.col <= i32::MAX
    }

    pub open spec fn spec_add(self, other: Point) -> Point
        recommends
            self.can_add(other),
    {
        Point { row: (self.row + other.row) as i32, col: (self.col + other.col) as i32 }
    }

    pub open spec fn can_sub(self, other: Point) -> bool {
        &&& i32::MIN <= self.row - other.row <= i32::MAX
        &&& i32::MIN <= self.col - other.col <= i32::MAX
    }

    pub open spec fn spec_sub(self, other: Point) -> Point
        recommends
            self.can_sub(other),
    {
        Point { row: (self.row - other.row) as i32, col: (self.col - other.col) as i32 }
    }

    /// `self` with one step in each of the eight directions within one row
    /// and one column.
    pub open spec fn small(self) -> bool {
        i32::MIN < self.row < i32::MAX && i32::MIN < self.col < i32::MAX
    }

    pub fn new(row: i32, col: i32) -> (r: Point)
        ensures
            r.row == row && r.col == col,
    {
        Point { row, col }
    }

    /// Componentwise sum.
    pub fn plus(self, other: Point) -> (r: Point)
        requires
            self.can_add(other),
        ensures
            r == self.spec_add(other),
    {
        Point { row: self.row + other.row, col: self.col + other.col }
    }

    /// Componentwise difference.
    pub fn minus(self, other: Point) -> (r: Point)
        requires
            self.can_sub(other),
        ensures
            r == self.spec_sub(other),
    {
        Point { row: self.row - other.row, col: self.col - other.col }
    }

    /// Both coordinates scaled by `k`.
    pub fn times(self, k: i32) -> (r: Point)
        requires
            i32::MIN <= self.row * k <= i32::MAX,
            i32::MIN <= self.col * k <= i32::MAX,
        ensures
            r.row == self.row * k && r.col == self.col * k,
    {
        Point { row: self.row * k, col: self.col * k }
    }

    /// The eight neighbours, clockwise from the north with the diagonals
    /// interleaved as the original ordering had them.
    pub fn adjacencies(self) -> (r: [Point; 8])
        requires
            self.small(),
        ensures
            r@ == seq![
                self.spec_add(north()),
                self.spec_add(northeast()),
                self.spec_add(west()),
                self.spec_add(southwest()),
                self.spec_add(south()),
                self.spec_add(southeast()),
                self.spec_add(east()),
                self.spec_add(northwest()),
            ],
    {
        let r = [
            self.plus(north()),
            self.plus(northeast()),
            self.plus(west()),
            self.plus(southwest()),
            self.plus(south()),
            self.plus(southeast()),
            self.plus(east()),
            self.plus(northwest()),
        ];
        proof {
            assert(r@ =~= seq![
                self.spec_add(north()),
                self.spec_add(northeast()),
                self.spec_add(west()),
                self.spec_add(southwest()),
                self.spec_add(south()),
                self.spec_add(southeast()),
                self.spec_add(east()),
                self.spec_add(northwest()),
            ]);
        }
        r
    }

    /// For each of the four corners, the two orthogonal neighbours flanking
    /// it and the diagonal between them.
    pub fn corners(self) -> (r: [[Point; 3]; 4])
        requires
            self.small(),
        ensures
            r@.len() == 4,
            r@[0]@ == seq![
                self.spec_add(north()),
                self.spec_add(northeast()),
                self.spec_add(east()),
            ],
            r@[1]@ == seq![self.spec_add(east()), self.spec_add(southeast()), self.spec_add(south())],
            r@[2]@ == seq![self.spec_add(south()), self.spec_add(southwest()), self.spec_add(west())],
            r@[3]@ == seq![self.spec_add(west()), self.spec_add(northwest()), self.spec_add(north())],
    {
        let r = [
            [self.plus(north()), self.plus(northeast()), self.plus(east())],
            [self.plus(east()), self.plus(southeast()), self.plus(south())],
            [self.plus(south()), self.plus(southwest()), self.plus(west())],
            [self.plus(west()), self.plus(northwest()), self.plus(north())],
        ];
        proof {
            assert(r@[0]@ =~= seq![
                self.spec_add(north()),
                self.spec_add(northeast()),
                self.spec_add(east()),
            ]);
            assert(r@[1]@ =~= seq![
                self.spec_add(east()),
                self.spec_add(southeast()),
                self.spec_add(south()),
            ]);
            assert(r@[2]@ =~= seq![
                self.spec_add(south()),
                self.spec_add(southwest()),
                self.spec_add(west()),
            ]);
            assert(r@[3]@ =~= seq![
                self.spec_add(west()),
                self.spec_add(northwest()),
                self.spec_add(north()),
            ]);
        }
        r
    }

    /// The four orthogonal neighbours: north, west, east, south.
    pub fn orthogonals(self) -> (r: [Point; 4])
        requires
            self.small(),
        ensures
            r@ == seq![
                self.spec_add(north()),
                self.spec_add(west()),
                self.spec_add(east()),
                self.spec_add(south()),
            ],
    {
        let r = [self.plus(north()), self.plus(west()), self.plus(east()), self.plus(south())];
        proof {
            assert(r@ =~= seq![
                self.spec_add(north()),
                self.spec_add(west()),
                self.spec_add(east()),
                self.spec_add(south()),
            ]);
        }
        r
    }

    /// The four diagonal neighbours.
    pub fn diagonals(self) -> (r: [Point; 4])
        requires
            self.small(),
        ensures
            r@ == seq![
                self.spec_add(northwest()),
                self.spec_add(northeast()),
                self.spec_add(southwest()),
                self.spec_add(southeast()),
            ],
    {
        let r = [
            self.plus(northwest()),
            self.plus(northeast()),
            self.plus(southwest()),
            self.plus(southeast()),
        ];
        proof {
            assert(r@ =~= seq![
                self.spec_add(northwest()),
                self.spec_add(northeast()),
                self.spec_add(southwest()),
                self.spec_add(southeast()),
            ]);
        }
        r
    }
}

/// A rectangular grid of bytes stored row-major in one flat buffer.
pub struct ByteGrid {
    pub width: i32,
    pub height: i32,
    pub data: Vec<u8>,
}

/// `s` with every newline byte removed.
pub open spec fn without_newlines(s: Seq<u8>) -> Seq<u8>
    decreases s.len(),
{
    if s.len() == 0 {
        seq![]
    } else if s.last() == 10 {
        without_newlines(s.drop_last())
    } else {
        without_newlines(s.drop_last()).push(s.last())
    }
}

/// Removing newlines never lengthens a byte sequence.
pub proof fn lemma_without_newlines_len(s: Seq<u8>)
    ensures
        without_newlines(s).len() <= s.len(),
    decreases s.len(),
{
    if s.len() > 0 {
        lemma_without_newlines_len(s.drop_last());
    }
}

/// Width of the first text line of `s`: its bytes before the first newline,
/// not counting one carriage return just before that newline.
pub open spec fn first_line_width(s: Seq<u8>) -> int {
    let l = crate::piece_len(s, 10);
    if l < s.len() && l > 0 && s[l - 1] == 13 {
        l - 1
    } else {
        l
    }
}

impl ByteGrid {
    /// A well-formed grid: positive dimensions that exactly account for the
    /// buffer.
    pub open spec fn wf(&self) -> bool {
        &&& 0 < self.width
        &&& 0 < self.height
        &&& self.data@.len() == self.width * self.height
    }

    pub open spec fn valid(&self, p: Point) -> bool {
        0 <= p.row < self.height && 0 <= p.col < self.width
    }

    /// The byte stored for the cell at `p`.
    pub open spec fn spec_at(&self, p: Point) -> u8 {
        self.data@[p.row * self.width + p.col]
    }

    pub open spec fn spec_idx(&self, p: Point) -> int {
        p.row * self.width + p.col
    }

    /// In a well-formed grid, a valid point indexes inside the buffer.
    pub proof fn lemma_valid_idx(&self, p: Point)
        requires
            self.wf(),
            self.valid(p),
        ensures
            0 <= self.spec_idx(p) < self.data@.len(),
    {
        let r = p.row as int;
        let c = p.col as int;
        let w = self.width as int;
        let h = self.height as int;
        assert(r * w + c < h * w) by (nonlinear_arith)
            requires
                0 <= c < w && 0 <= r < h,
        ;
        assert(r * w + c >= 0) by (nonlinear_arith)
            requires
                0 <= c && 0 <= r && w > 0,
        ;
    }

    /// Two distinct valid points index distinct cells.
    pub proof fn lemma_idx_injective(&self, p: Point, q: Point)
        requires
            self.wf(),
            self.valid(p),
            self.valid(q),
            p != q,
        ensures
            self.spec_idx(p) != self.spec_idx(q),
    {
        let w = self.width as int;
        assert(p.row * w + p.col != q.row * w + q.col) by (nonlinear_arith)
            requires
                0 <= p.col < w,
                0 <= q.col < w,
                !(p.row == q.row && p.col == q.col),
        ;
    }

    /// A well-formed grid's buffer is bounded by the largest product of
    /// two `i32` dimensions.
    pub proof fn lemma_wf_size(&self)
        requires
            self.wf(),
        ensures
            self.data@.len() <= 0x4000_0000_0000_0000,
    {
        assert(self.width * self.height <= 0x4000_0000_0000_0000) by (nonlinear_arith)
            requires
                0 < self.width <= 0x8000_0000,
                0 < self.height <= 0x8000_0000,
        ;
    }

    /// Whether the stored dimensions exactly account for the buffer.
    pub fn is_wf(&self) -> (r: bool)
        ensures
            r == self.wf(),
    {
        if self.width <= 0 || self.height <= 0 {
            return false;
        }
        proof {
            lemma_i32_mul_bound(self.width, self.height);
            assert(self.width * self.height > 0) by (nonlinear_arith)
                requires
                    self.width > 0 && self.height > 0,
            ;
        }
        let prod = self.width as i64 * self.height as i64;
        prod as u64 == self.data.len() as u64
    }

    /// The grid read from text: the first line fixes the width, and every
    /// byte other than newlines lands in the buffer in order.
    pub fn new(input: &str) -> (r: ByteGrid)
        requires
            input.spec_bytes().len() > 0,
            input.spec_bytes().len() <= i32::MAX,
            first_line_width(input.spec_bytes()) > 0,
        ensures
            r.width == first_line_width(input.spec_bytes()),
            r.data@ == without_newlines(input.spec_bytes()),
            r.height == r.data@.len() as int / r.width as int,
    {
        ByteGrid::from_bytes(input.as_bytes())
    }

    /// The grid read from raw text bytes.
    pub fn from_bytes(bytes: &[u8]) -> (r: ByteGrid)
        requires
            bytes@.len() > 0,
            bytes@.len() <= i32::MAX,
            first_line_width(bytes@) > 0,
        ensures
            r.width == first_line_width(bytes@),
            r.data@ == without_newlines(bytes@),
            r.height == r.data@.len() as int / r.width as int,
    {
        let ghost whole = bytes@;
        // the first line fixes the width
        let l = crate::scan_to_byte(bytes, 0, 10);
        proof {
            crate::lemma_piece_len_at(whole, 10, l as int);
        }
        let mut width = l;
        if l < bytes.len() && l > 0 && bytes[l - 1] == 13 {
            width = l - 1;
        }
        let mut data: Vec<u8> = Vec::new();
        let mut i: usize = 0;
        while i < bytes.len()
            invariant
                0 <= i <= bytes.len(),
                bytes@ == whole,
                data@ == without_newlines(whole.take(i as int)),
                data@.len() <= i,
            decreases bytes.len() - i,
        {
            let b = bytes[i];
            proof {
                assert(whole.take(i + 1).drop_last() =~= whole.take(i as int));
                assert(whole.take(i + 1).last() == b);
            }
            if b != 10 {
                data.push(b);
            }
            i = i + 1;
        }
        proof {
            assert(whole.take(i as int) =~= whole);
        }
        let height = data.len() / width;
        ByteGrid { width: width as i32, height: height as i32, data }
    }

    /// A `width` by `height` grid holding `fill` everywhere; a zero-sized
    /// grid holds nothing.
    pub fn new_empty(fill: u8, width: i32, height: i32) -> (r: ByteGrid)
        requires
            0 <= width,
            0 <= height,
            width * height <= i32::MAX,
        ensures
            r.width == width && r.height == height,
            r.data@.len() == width * height,
            0 < width && 0 < height ==> r.wf(),
            forall|i: int| 0 <= i < r.data@.len() ==> r.data@[i] == fill,
    {
        proof {
            assert(width * height >= 0) by (nonlinear_arith)
                requires
                    width >= 0 && height >= 0,
            ;
        }
        let n = (width as i64 * height as i64) as usize;
        let mut data: Vec<u8> = Vec::new();
        let mut i: usize = 0;
        while i < n
            invariant
                data@.len() == i <= n,
                forall|k: int| 0 <= k < i ==> data@[k] == fill,
            decreases n - i,
        {
            data.push(fill);
            i = i + 1;
        }
        ByteGrid { width, height, data }
    }

    /// The buffer index of the cell in row `row`, column `col`.
    pub fn coord_to_idx(&self, row: i32, col: i32) -> (r: usize)
        requires
            self.wf(),
            0 <= row < self.height,
            0 <= col < self.width,
        ensures
            r == row * self.width + col,
            r < self.data@.len(),
    {
        let n = self.data.len();
        proof {
            self.lemma_valid_idx(Point { row, col });
            self.lemma_wf_size();
            lemma_i32_mul_bound(row, self.width);
        }
        (row as i64 * self.width as i64 + col as i64) as usize
    }

    /// The buffer index of the cell at `p`.
    pub fn point_to_idx(&self, p: Point) -> (r: usize)
        requires
            self.wf(),
            self.valid(p),
        ensures
            r == self.spec_idx(p),
            r < self.data@.len(),
    {
        self.coord_to_idx(p.row, p.col)
    }

    /// The row and column of the cell at buffer index `idx`.
    pub fn idx_to_coord(&self, idx: usize) -> (r: (i32, i32))
        requires
            self.wf(),
            idx < self.data@.len(),
        ensures
            r.0 == idx as int / self.width as int,
            r.1 == idx as int % self.width as int,
    {
        proof {
            assert(idx < self.width * self.height);
            assert((idx as int / self.width as int) < self.height) by (nonlinear_arith)
                requires
                    0 <= idx && (idx as int) < self.width * self.height,
                    self.width > 0,
                    self.height > 0,
            ;
            assert((idx as int % self.width as int) < self.width && 0 <= (idx as int
                % self.width as int)) by (nonlinear_arith)
                requires
                    self.width > 0,
                    idx >= 0,
            ;
            assert((idx as int / self.width as int) >= 0) by (nonlinear_arith)
                requires
                    self.width > 0,
                    idx >= 0,
            ;
        }
        proof {
            self.lemma_wf_size();
        }
        let idx_i = idx as i64;
        let w = self.width as i64;
        let div = idx_i / w;
        proof {
            assert(0 <= (idx_i as int) / (w as int) && (idx_i as int) / (w as int) * (w as int)
                <= idx_i) by (nonlinear_arith)
                requires
                    idx_i >= 0,
                    w > 0,
            ;
        }
        let rem = idx_i - div * w;
        proof {
            assert(div == idx as int / self.width as int);
            assert(idx as int - (idx as int / self.width as int) * self.width as int == idx as int
                % self.width as int) by (nonlinear_arith)
                requires
                    self.width > 0,
                    idx >= 0,
            ;
        }
        (div as i32, rem as i32)
    }

    /// The point of the cell at buffer index `idx`.
    pub fn idx_to_point(&self, idx: usize) -> (r: Point)
        requires
            self.wf(),
            idx < self.data@.len(),
        ensures
            r == self.spec_point_of_idx(idx as int),
            self.valid(r),
            self.spec_idx(r) == idx,
    {
        let (row, col) = self.idx_to_coord(idx);
        proof {
            assert(0 <= (idx as int / self.width as int) < self.height && 0 <= (idx as int
                % self.width as int) < self.width) by (nonlinear_arith)
                requires
                    0 <= idx,
                    (idx as int) < self.width * self.height,
                    self.width > 0,
                    self.height > 0,
            ;
            assert(row * self.width + col == idx) by (nonlinear_arith)
                requires
                    row == idx as int / self.width as int,
                    col == idx as int % self.width as int,
                    self.width > 0,
                    idx >= 0,
            ;
        }
        Point { row, col }
    }

    /// The point that a buffer index denotes.
    pub open spec fn spec_point_of_idx(&self, idx: int) -> Point {
        Point {
            row: (idx / self.width as int) as i32,
            col: (idx % self.width as int) as i32,
        }
    }

    /// The rows of the grid, each as its own vector of bytes.
    pub fn rows(&self) -> (r: Vec<Vec<u8>>)
        requires
            self.wf(),
        ensures
            r@.len() == self.height,
            forall|i: int|
                0 <= i < r@.len() ==> #[trigger] r@[i]@ == self.data@.subrange(
                    i * self.width,
                    (i + 1) * self.width,
                ),
    {
        let mut r: Vec<Vec<u8>> = Vec::new();
        let mut row: i32 = 0;
        while row < self.height
            invariant
                self.wf(),
                0 <= row <= self.height,
                r@.len() == row,
                forall|i: int|
                    0 <= i < r@.len() ==> #[trigger] r@[i]@ == self.data@.subrange(
                        i * self.width,
                        (i + 1) * self.width,
                    ),
            decreases self.height - row,
        {
            let mut one: Vec<u8> = Vec::new();
            let mut col: i32 = 0;
            while col < self.width
                invariant
                    self.wf(),
                    0 <= row < self.height,
                    0 <= col <= self.width,
                    one@.len() == col,
                    forall|k: int|
                        0 <= k < col ==> #[trigger] one@[k] == self.data@[row * self.width + k],
                decreases self.width - col,
            {
                let idx = self.coord_to_idx(row, col);
                proof {
                    assert(row * self.width + (col + 1) <= row * self.width + self.width);
                }
                one.push(self.data[idx]);
                col = col + 1;
            }
            proof {
                assert(row * self.width >= 0 && (row + 1) * self.width <= self.data@.len()) by (
                nonlinear_arith)
                    requires
                        0 <= row < self.height,
                        self.width > 0,
                        self.data@.len() == self.width * self.height,
                ;
                assert((row + 1) * self.width == row * self.width + self.width) by (
                nonlinear_arith);
                assert(one@ =~= self.data@.subrange(
                    row as int * self.width,
                    (row + 1) * self.width,
                ));
            }
            r.push(one);
            row = row + 1;
        }
        r
    }

    /// The rows of the grid, copied; mutation goes through `set_point`.
    pub fn rows_mut(&mut self) -> (r: Vec<Vec<u8>>)
        requires
            old(self).wf(),
        ensures
            *final(self) == *old(self),
            r@.len() == old(self).height,
            forall|i: int|
                0 <= i < r@.len() ==> #[trigger] r@[i]@ == old(self).data@.subrange(
                    i * old(self).width,
                    (i + 1) * old(self).width,
                ),
    {
        self.rows()
    }

    /// The byte at a valid point.
    pub fn at(&self, p: Point) -> (r: u8)
        requires
            self.wf(),
            self.valid(p),
        ensures
            r == self.spec_at(p),
    {
        let idx = self.point_to_idx(p);
        self.data[idx]
    }

    /// Write `b` at a valid point.
    pub fn set_point(&mut self, p: Point, b: u8)
        requires
            old(self).wf(),
            old(self).valid(p),
        ensures
            final(self).wf(),
            final(self).width == old(self).width && final(self).height == old(self).height,
            final(self).data@ == old(self).data@.update(old(self).spec_idx(p), b),
            final(self).spec_at(p) == b,
            forall|q: Point|
                old(self).valid(q) && q != p ==> final(self).spec_at(q) == old(self).spec_at(q),
    {
        let idx = self.point_to_idx(p);
        self.data[idx] = b;
        proof {
            assert forall|q: Point|
                old(self).valid(q) && q != p implies final(self).spec_at(q) == old(self).spec_at(
                q,
            ) by {
                old(self).lemma_idx_injective(p, q);
                old(self).lemma_valid_idx(q);
            }
        }
    }

    /// The byte at the cell in row `row`, column `col`.
    pub fn at_coord(&self, row: i32, col: i32) -> (r: u8)
        requires
            self.wf(),
            0 <= row < self.height,
            0 <= col < self.width,
        ensures
            r == self.spec_at(Point { row, col }),
    {
        self.at(Point { row, col })
    }

    /// Write `b` at the cell in row `row`, column `col`.
    pub fn set_coord(&mut self, row: i32, col: i32, b: u8)
        requires
            old(self).wf(),
            0 <= row < old(self).height,
            0 <= col < old(self).width,
        ensures
            final(self).wf(),
            final(self).width == old(self).width && final(self).height == old(self).height,
            final(self).data@ == old(self).data@.update(
                old(self).spec_idx(Point { row, col }),
                b,
            ),
            final(self).spec_at(Point { row, col }) == b,
            forall|q: Point|
                old(self).valid(q) && q != (Point { row, col }) ==> final(self).spec_at(q) == old(
                    self,
                ).spec_at(q),
    {
        self.set_point(Point { row, col }, b)
    }

    /// The byte at `p`, or nothing when `p` lies outside the grid.
    pub fn get_point(&self, p: Point) -> (r: Option<&u8>)
        requires
            self.wf(),
        ensures
            r matches Some(b) ==> self.valid(p) && *b == self.spec_at(p),
            r is None <==> !self.valid(p),
    {
        if !self.is_valid_point(p) {
            return None;
        }
        let idx = self.point_to_idx(p);
        Some(&self.data[idx])
    }

    /// The byte the raw index arithmetic of `p` reaches, ignoring whether
    /// `p` itself names a cell; a point off the row ends can so alias a
    /// neighbouring row, as the flat-buffer addressing of the grid has it.
    pub fn get_point_mut(&mut self, p: Point) -> (r: Option<u8>)
        ensures
            *final(self) == *old(self),
            r matches Some(b) ==> 0 <= old(self).spec_idx(p) < old(self).data@.len() && b == old(
                self,
            ).data@[old(self).spec_idx(p)],
            r is None <==> !(0 <= old(self).spec_idx(p) < old(self).data@.len()),
    {
        proof {
            lemma_i32_mul_bound(p.row, self.width);
        }
        let idx = p.row as i64 * self.width as i64 + p.col as i64;
        if 0 <= idx && (idx as u64) < (self.data.len() as u64) {
            Some(self.data[idx as usize])
        } else {
            None
        }
    }

    /// How many cells hold `b`.
    pub fn count(&self, b: u8) -> (r: usize)
        ensures
            r == count_matching(self.data@, b),
    {
        let mut seen: usize = 0;
        let mut i: usize = 0;
        proof {
            lemma_count_matching_bound(self.data@, b);
        }
        while i < self.data.len()
            invariant
                0 <= i <= self.data@.len(),
                seen == count_matching(self.data@.take(i as int), b),
                seen <= i,
            decreases self.data@.len() - i,
        {
            proof {
                assert(self.data@.take(i + 1).drop_last() =~= self.data@.take(i as int));
                lemma_count_matching_bound(self.data@.take(i as int), b);
            }
            if self.data[i] == b {
                seen = seen + 1;
            }
            i = i + 1;
        }
        proof {
            assert(self.data@.take(i as int) =~= self.data@);
        }
        seen
    }

    pub fn is_valid_point(&self, p: Point) -> (r: bool)
        ensures
            r == self.valid(p),
    {
        0 <= p.row && p.row < self.height && 0 <= p.col && p.col < self.width
    }

    /// The points whose cells hold `b`, in buffer order.
    pub open spec fn points_of_upto(&self, b: u8, n: int) -> Seq<Point>
        decreases n,
    {
        if n <= 0 {
            seq![]
        } else if self.data@[n - 1] == b {
            self.points_of_upto(b, n - 1).push(self.spec_point_of_idx(n - 1))
        } else {
            self.points_of_upto(b, n - 1)
        }
    }

    /// A map from each byte that occurs in the grid to the points holding
    /// it, in buffer order.
    pub fn bytes_to_points(&self) -> (m: HashMap<u8, Vec<Point>>)
        requires
            self.wf(),
        ensures
            forall|b: u8|
                m@.contains_key(b) <==> #[trigger] self.points_of_upto(
                    b,
                    self.data@.len() as int,
                ).len() > 0,
            forall|b: u8| #[trigger]
                m@.contains_key(b) ==> m@[b]@ == self.points_of_upto(b, self.data@.len() as int),
    {
        let mut m: HashMap<u8, Vec<Point>> = HashMap::new();
        let mut i: usize = 0;
        while i < self.data.len()
            invariant
                self.wf(),
                0 <= i <= self.data@.len(),
                forall|b: u8|
                    m@.contains_key(b) <==> #[trigger] self.points_of_upto(b, i as int).len() > 0,
                forall|b: u8| #[trigger]
                    m@.contains_key(b) ==> m@[b]@ == self.points_of_upto(b, i as int),
            decreases self.data@.len() - i,
        {
            let c = self.data[i];
            let p = self.idx_to_point(i);
            let mut v: Vec<Point> = match m.remove(&c) {
                Some(v) => v,
                None => Vec::new(),
            };
            v.push(p);
            m.insert(c, v);
            proof {
                assert forall|b: u8|
                    m@.contains_key(b) <==> #[trigger] self.points_of_upto(b, i + 1).len() > 0 by {
                    if b != c {
                        assert(self.points_of_upto(b, i + 1) == self.points_of_upto(b, i as int));
                    }
                }
                assert forall|b: u8| #[trigger]
                    m@.contains_key(b) implies m@[b]@ == self.points_of_upto(b, i + 1) by {
                    if b != c {
                        assert(self.points_of_upto(b, i + 1) == self.points_of_upto(b, i as int));
                    } else {
                        assert(self.points_of_upto(c, i + 1) == self.points_of_upto(
                            c,
                            i as int,
                        ).push(self.spec_point_of_idx(i as int)));
                    }
                }
            }
            i = i + 1;
        }
        m
    }
}

/// The product of two `i32` values stays within `i64` range.
pub proof fn lemma_i32_mul_bound(a: i32, b: i32)
    ensures
        -0x4000_0000_0000_0000 <= a * b <= 0x4000_0000_0000_0000,
{
    assert(-0x4000_0000_0000_0000 <= a * b <= 0x4000_0000_0000_0000) by (nonlinear_arith)
        requires
            -0x8000_0000 <= a <= 0x7fff_ffff,
            -0x8000_0000 <= b <= 0x7fff_ffff,
    ;
}

/// How many entries of `s` equal `b`.
pub open spec fn count_matching(s: Seq<u8>, b: u8) -> int
    decreases s.len(),
{
    if s.len() == 0 {
        0
    } else {
        count_matching(s.drop_last(), b) + if s.last() == b {
            1int
        } else {
            0int
        }
    }
}

pub proof fn lemma_count_matching_bound(s: Seq<u8>, b: u8)
    ensures
        0 <= count_matching(s, b) <= s.len(),
    decreases s.len(),
{
    if s.len() > 0 {
        lemma_count_matching_bound(s.drop_last(), b);
    }
}


/// One step in one of the four orthogonal directions.
pub open spec fn orth_adjacent(a: Point, b: Point) -> bool {
    ||| a.row == b.row && (b.col == a.col + 1 || b.col + 1 == a.col)
    ||| a.col == b.col && (b.row == a.row + 1 || b.row + 1 == a.row)
}

/// One step in any of the eight directions.
pub open spec fn adjacent8(a: Point, b: Point) -> bool {
    &&& a != b
    &&& a.row - 1 <= b.row <= a.row + 1
    &&& a.col - 1 <= b.col <= a.col + 1
}

/// Steps of the mode a flood fill walks: four-way or eight-way.
pub open spec fn flood_adjacent(a: Point, b: Point, four_way: bool) -> bool {
    if four_way {
        orth_adjacent(a, b)
    } else {
        adjacent8(a, b)
    }
}

/// `p` is joined to `start` by a chain of cells that all hold `s`.
#[verifier::opaque]
pub open spec fn region_reach(g: ByteGrid, s: u8, start: Point, p: Point, four_way: bool) -> bool {
    exists|path: Seq<Point>|
        {
            &&& path.len() >= 1
            &&& path[0] == start
            &&& path.last() == p
            &&& forall|i: int|
                0 <= i < path.len() ==> g.valid(#[trigger] path[i]) && g.spec_at(path[i]) == s
            &&& forall|i: int|
                0 <= i < path.len() - 1 ==> flood_adjacent(#[trigger] path[i], path[i + 1], four_way)
        }
}

proof fn lemma_region_reach_start(g: ByteGrid, s: u8, start: Point, four_way: bool)
    requires
        g.valid(start),
        g.spec_at(start) == s,
    ensures
        region_reach(g, s, start, start, four_way),
{
    reveal(region_reach);
    let path = seq![start];
    assert(path.len() >= 1 && path[0] == start && path.last() == start);
    assert(forall|i: int| 0 <= i < path.len() ==> g.valid(#[trigger] path[i]) && g.spec_at(path[i]) == s);
}

proof fn lemma_region_reach_step(
    g: ByteGrid,
    s: u8,
    start: Point,
    from: Point,
    to: Point,
    four_way: bool,
)
    requires
        region_reach(g, s, start, from, four_way),
        flood_adjacent(from, to, four_way),
        g.valid(to),
        g.spec_at(to) == s,
    ensures
        region_reach(g, s, start, to, four_way),
{
    reveal(region_reach);
    let path = choose|path: Seq<Point>|
        {
            &&& path.len() >= 1
            &&& path[0] == start
            &&& path.last() == from
            &&& forall|i: int|
                0 <= i < path.len() ==> g.valid(#[trigger] path[i]) && g.spec_at(path[i]) == s
            &&& forall|i: int|
                0 <= i < path.len() - 1 ==> flood_adjacent(#[trigger] path[i], path[i + 1], four_way)
        };
    let longer = path.push(to);
    assert(longer.last() == to && longer[0] == start);
    assert forall|i: int| 0 <= i < longer.len() implies g.valid(#[trigger] longer[i]) && g.spec_at(
        longer[i],
    ) == s by {
        if i < path.len() {
            assert(longer[i] == path[i]);
        }
    }
    assert forall|i: int| 0 <= i < longer.len() - 1 implies flood_adjacent(
        #[trigger] longer[i],
        longer[i + 1],
        four_way,
    ) by {
        if i < path.len() - 1 {
            assert(longer[i] == path[i] && longer[i + 1] == path[i + 1]);
        } else {
            assert(longer[i] == path.last() && longer[i + 1] == to);
        }
    }
}

/// Flood adjacency reads the same in both directions.
pub proof fn lemma_flood_adjacent_sym(a: Point, b: Point, four_way: bool)
    ensures
        flood_adjacent(a, b, four_way) == flood_adjacent(b, a, four_way),
{
}

/// A chain of same-byte cells read backwards is still such a chain.
pub proof fn lemma_region_reach_sym(g: ByteGrid, s: u8, a: Point, b: Point, four_way: bool)
    requires
        region_reach(g, s, a, b, four_way),
    ensures
        region_reach(g, s, b, a, four_way),
{
    reveal(region_reach);
    let path = choose|path: Seq<Point>|
        {
            &&& path.len() >= 1
            &&& path[0] == a
            &&& path.last() == b
            &&& forall|i: int|
                0 <= i < path.len() ==> g.valid(#[trigger] path[i]) && g.spec_at(path[i]) == s
            &&& forall|i: int|
                0 <= i < path.len() - 1 ==> flood_adjacent(#[trigger] path[i], path[i + 1], four_way)
        };
    let n = path.len() as int;
    let rev = Seq::new(path.len(), |i: int| path[n - 1 - i]);
    assert(rev[0] == b && rev.last() == a);
    assert forall|i: int| 0 <= i < rev.len() implies g.valid(#[trigger] rev[i]) && g.spec_at(
        rev[i],
    ) == s by {
        assert(rev[i] == path[n - 1 - i]);
    }
    assert forall|i: int| 0 <= i < rev.len() - 1 implies flood_adjacent(
        #[trigger] rev[i],
        rev[i + 1],
        four_way,
    ) by {
        assert(rev[i] == path[n - 1 - i] && rev[i + 1] == path[n - 2 - i]);
        assert(flood_adjacent(path[n - 2 - i], path[n - 1 - i], four_way));
        lemma_flood_adjacent_sym(path[n - 2 - i], path[n - 1 - i], four_way);
    }
}

/// A collection closed under same-byte steps that holds one end of a chain
/// holds the other end too.
pub proof fn lemma_closed_holds_reach(
    g: ByteGrid,
    s: u8,
    pts: Seq<Point>,
    q: Point,
    x: Point,
    four_way: bool,
)
    requires
        forall|p: Point, m: Point|
            #![trigger pts.contains(p), flood_adjacent(p, m, four_way)]
            pts.contains(p) && g.valid(m) && g.spec_at(m) == s && flood_adjacent(p, m, four_way)
                ==> pts.contains(m),
        pts.contains(q),
        region_reach(g, s, q, x, four_way),
    ensures
        pts.contains(x),
{
    reveal(region_reach);
    let path = choose|path: Seq<Point>|
        {
            &&& path.len() >= 1
            &&& path[0] == q
            &&& path.last() == x
            &&& forall|i: int|
                0 <= i < path.len() ==> g.valid(#[trigger] path[i]) && g.spec_at(path[i]) == s
            &&& forall|i: int|
                0 <= i < path.len() - 1 ==> flood_adjacent(#[trigger] path[i], path[i + 1], four_way)
        };
    lemma_closed_holds_walk(g, s, pts, path, 0, four_way);
}

proof fn lemma_closed_holds_walk(
    g: ByteGrid,
    s: u8,
    pts: Seq<Point>,
    path: Seq<Point>,
    i: int,
    four_way: bool,
)
    requires
        forall|p: Point, m: Point|
            #![trigger pts.contains(p), flood_adjacent(p, m, four_way)]
            pts.contains(p) && g.valid(m) && g.spec_at(m) == s && flood_adjacent(p, m, four_way)
                ==> pts.contains(m),
        0 <= i < path.len(),
        pts.contains(path[i]),
        forall|t: int| 0 <= t < path.len() ==> g.valid(#[trigger] path[t]) && g.spec_at(path[t]) == s,
        forall|t: int|
            0 <= t < path.len() - 1 ==> flood_adjacent(#[trigger] path[t], path[t + 1], four_way),
    ensures
        pts.contains(path.last()),
    decreases path.len() - i,
{
    if i < path.len() - 1 {
        assert(flood_adjacent(path[i], path[i + 1], four_way));
        assert(pts.contains(path[i + 1]));
        lemma_closed_holds_walk(g, s, pts, path, i + 1, four_way);
    }
}

/// How many entries of `s` are `true`.
pub open spec fn count_trues(s: Seq<bool>) -> int
    decreases s.len(),
{
    if s.len() == 0 {
        0
    } else {
        count_trues(s.drop_last()) + if s.last() {
            1int
        } else {
            0int
        }
    }
}

proof fn lemma_count_trues_bound(s: Seq<bool>)
    ensures
        0 <= count_trues(s) <= s.len(),
    decreases s.len(),
{
    if s.len() > 0 {
        lemma_count_trues_bound(s.drop_last());
    }
}

proof fn lemma_count_trues_update(s: Seq<bool>, i: int)
    requires
        0 <= i < s.len(),
        !s[i],
    ensures
        count_trues(s.update(i, true)) == count_trues(s) + 1,
    decreases s.len(),
{
    if i == s.len() - 1 {
        assert(s.update(i, true).drop_last() =~= s.drop_last());
    } else {
        assert(s.update(i, true).drop_last() =~= s.drop_last().update(i, true));
        lemma_count_trues_update(s.drop_last(), i);
    }
}

/// Some position of `st` holds `p`.
pub open spec fn stack_has(st: Seq<Point>, p: Point) -> bool {
    exists|k: int| 0 <= k < st.len() && st[k] == p
}

impl ByteGrid {
    /// The connected patch of cells holding the byte under `start`, walked
    /// four-way or eight-way; empty when `start` is outside the grid.
    #[verifier::rlimit(100)]
    #[verifier::spinoff_prover]
    fn flood_points(&self, start: Point, four_way: bool) -> (r: Vec<Point>)
        requires
            self.wf(),
        ensures
            !self.valid(start) ==> r@.len() == 0,
            self.valid(start) ==> is_component(*self, start, r@, four_way),
            self.valid(start) ==> {
                let s = self.spec_at(start);
                &&& r@.no_duplicates()
                &&& r@.len() > 0
                &&& r@[0] == start
                &&& r@.contains(start)
                &&& forall|p: Point| #[trigger]
                    r@.contains(p) ==> self.valid(p) && self.spec_at(p) == s && region_reach(
                        *self,
                        s,
                        start,
                        p,
                        four_way,
                    )
                &&& forall|p: Point, q: Point|
                    #![trigger r@.contains(p), flood_adjacent(p, q, four_way)]
                    r@.contains(p) && self.valid(q) && self.spec_at(q) == s && flood_adjacent(
                        p,
                        q,
                        four_way,
                    ) ==> r@.contains(q)
            },
    {
        let mut result: Vec<Point> = Vec::new();
        if !self.is_valid_point(start) {
            return result;
        }
        let s = self.at(start);
        let n = self.data.len();
        let mut visited: Vec<bool> = Vec::new();
        let mut vi: usize = 0;
        while vi < n
            invariant
                visited@.len() == vi <= n,
                forall|k: int| 0 <= k < vi ==> !(#[trigger] visited@[k]),
            decreases n - vi,
        {
            visited.push(false);
            vi = vi + 1;
        }
        proof {
            lemma_count_trues_bound(visited@);
            assert forall|p: Point| self.valid(p) implies !(#[trigger] visited@[self.spec_idx(
                p,
            )]) by {
                self.lemma_valid_idx(p);
            }
        }
        let mut stack: Vec<Point> = Vec::new();
        stack.push(start);
        proof {
            assert(stack@[0] == start);
        }
        loop
            invariant
                self.wf(),
                self.valid(start),
                s == self.spec_at(start),
                n == self.data@.len(),
                visited@.len() == n,
                result@.no_duplicates(),
                // the stack holds valid cells, each the start or a
                // neighbour of a collected cell
                forall|k: int|
                    0 <= k < stack@.len() ==> self.valid(#[trigger] stack@[k]) && (stack@[k]
                        == start || exists|t: Point|
                        result@.contains(t) && flood_adjacent(t, stack@[k], four_way)),
                // collected cells hold `s` and are joined to the start
                forall|p: Point| #[trigger]
                    result@.contains(p) ==> self.valid(p) && self.spec_at(p) == s && region_reach(
                        *self,
                        s,
                        start,
                        p,
                        four_way,
                    ),
                // a visited cell that holds `s` has been collected
                forall|p: Point|
                    self.valid(p) && #[trigger] visited@[self.spec_idx(p)] && self.spec_at(p) == s
                        ==> result@.contains(p),
                forall|p: Point| #[trigger] result@.contains(p) ==> visited@[self.spec_idx(p)],
                // every same-byte neighbour of a collected cell is collected
                // or still pending
                forall|t: Point, q: Point|
                    #![trigger result@.contains(t), flood_adjacent(t, q, four_way)]
                    result@.contains(t) && self.valid(q) && self.spec_at(q) == s && flood_adjacent(
                        t,
                        q,
                        four_way,
                    ) ==> result@.contains(q) || stack_has(stack@, q),
                // the start is collected or pending
                result@.contains(start) || stack_has(stack@, start),
                result@.len() > 0 ==> result@[0] == start,
            ensures
                result@.no_duplicates(),
                result@.len() > 0 ==> result@[0] == start,
                forall|p: Point| #[trigger]
                    result@.contains(p) ==> self.valid(p) && self.spec_at(p) == s && region_reach(
                        *self,
                        s,
                        start,
                        p,
                        four_way,
                    ),
                forall|t: Point, q: Point|
                    #![trigger result@.contains(t), flood_adjacent(t, q, four_way)]
                    result@.contains(t) && self.valid(q) && self.spec_at(q) == s && flood_adjacent(
                        t,
                        q,
                        four_way,
                    ) ==> result@.contains(q),
                result@.contains(start),
                forall|p: Point| #[trigger] result@.contains(p) ==> visited@[self.spec_idx(p)],
            decreases n - count_trues(visited@), stack@.len(),
        {
            proof {
                lemma_count_trues_bound(visited@);
            }
            let ghost entry_stack = stack@;
            let p = match stack.pop() {
                Some(p) => p,
                None => {
                    proof {
                        assert(stack@.len() == 0);
                        assert(!stack_has(stack@, start));
                        assert forall|t: Point, q: Point|
                            #![trigger result@.contains(t), flood_adjacent(t, q, four_way)]
                            result@.contains(t) && self.valid(q) && self.spec_at(q) == s
                                && flood_adjacent(t, q, four_way) implies result@.contains(q) by {
                            assert(!stack_has(stack@, q));
                        }
                    }
                    break;
                },
            };
            proof {
                assert(p == entry_stack.last());
                assert(stack@ =~= entry_stack.drop_last());
            }
            let idx = self.point_to_idx(p);
            if visited[idx] {
                proof {
                    lemma_pending_after_pop(entry_stack, stack@, *self, s, result@, four_way);
                    if !result@.contains(start) {
                        if start == p {
                            assert(visited@[self.spec_idx(start)]);
                            assert(result@.contains(start));
                        } else {
                            lemma_stack_has_pop(entry_stack, start);
                        }
                    }
                }
                continue;
            }
            let ghost old_visited = visited@;
            visited[idx] = true;
            proof {
                lemma_count_trues_update(old_visited, idx as int);
                lemma_count_trues_bound(visited@);
                assert forall|q: Point|
                    self.valid(q) && #[trigger] visited@[self.spec_idx(q)] && self.spec_at(q) == s
                        && q != p implies result@.contains(q) by {
                    self.lemma_idx_injective(p, q);
                    self.lemma_valid_idx(q);
                    assert(self.spec_idx(q) != idx);
                    assert(old_visited[self.spec_idx(q)]);
                }
                assert forall|q: Point| #[trigger]
                    result@.contains(q) implies visited@[self.spec_idx(q)] by {
                    self.lemma_valid_idx(q);
                    if q != p {
                        self.lemma_idx_injective(p, q);
                    }
                }
            }
            let b = self.at(p);
            if b == s {
                let ghost old_result = result@;
                proof {
                    if old_result.len() == 0 {
                        assert(entry_stack[entry_stack.len() - 1] == p);
                        assert(p == start || exists|t: Point|
                            old_result.contains(t) && flood_adjacent(t, p, four_way));
                        assert(p == start);
                    }
                    if p == start {
                        lemma_region_reach_start(*self, s, start, four_way);
                    } else {
                        let t = choose|t: Point|
                            old_result.contains(t) && flood_adjacent(t, p, four_way);
                        lemma_region_reach_step(*self, s, start, t, p, four_way);
                    }
                    assert(!old_result.contains(p));
                }
                result.push(p);
                proof {
                    assert(result@ == old_result.push(p));
                    assert(result@[result@.len() - 1] == p);
                    assert(result@.contains(p));
                    assert(result@.no_duplicates());
                    assert forall|q: Point| #[trigger]
                        old_result.contains(q) implies result@.contains(q) by {
                        let k = choose|k: int| 0 <= k < old_result.len() && old_result[k] == q;
                        assert(result@[k] == q);
                    }
                    assert forall|q: Point| #[trigger]
                        result@.contains(q) && q != p implies old_result.contains(q) by {
                        let k = choose|k: int| 0 <= k < result@.len() && result@[k] == q;
                        assert(old_result[k] == q);
                    }
                }
                // enqueue the neighbours that have not been visited yet
                let dirs: Vec<Point> = if four_way {
                    let a = p.orthogonals();
                    let mut v: Vec<Point> = Vec::new();
                    v.push(a[0]);
                    v.push(a[1]);
                    v.push(a[2]);
                    v.push(a[3]);
                    v
                } else {
                    let a = p.adjacencies();
                    let mut v: Vec<Point> = Vec::new();
                    v.push(a[0]);
                    v.push(a[1]);
                    v.push(a[2]);
                    v.push(a[3]);
                    v.push(a[4]);
                    v.push(a[5]);
                    v.push(a[6]);
                    v.push(a[7]);
                    v
                };
                proof {
                    assert forall|k: int| 0 <= k < dirs@.len() implies flood_adjacent(
                        p,
                        #[trigger] dirs@[k],
                        four_way,
                    ) by {}
                    assert forall|q: Point|
                        self.valid(q) && flood_adjacent(p, q, four_way) implies dirs@.contains(
                        q,
                    ) by {
                        lemma_neighbours_listed(p, q, dirs@, four_way);
                    }
                }
                let ghost base = stack@;
                let mut di: usize = 0;
                while di < dirs.len()
                    invariant
                        self.wf(),
                        visited@.len() == n == self.data@.len(),
                        0 <= di <= dirs@.len(),
                        forall|k: int|
                            0 <= k < dirs@.len() ==> flood_adjacent(
                                p,
                                #[trigger] dirs@[k],
                                four_way,
                            ),
                        result@.contains(p),
                        stack@.len() >= base.len(),
                        forall|k: int| 0 <= k < base.len() ==> stack@[k] == base[k],
                        forall|k: int|
                            base.len() <= k < stack@.len() ==> self.valid(#[trigger] stack@[k])
                                && flood_adjacent(p, stack@[k], four_way),
                        forall|k: int|
                            0 <= k < di ==> !self.valid(#[trigger] dirs@[k]) || visited@[
                                self.spec_idx(dirs@[k])
                            ] || stack_has(stack@, dirs@[k]),
                    decreases dirs@.len() - di,
                {
                    let q = dirs[di];
                    let ghost pre = stack@;
                    if self.is_valid_point(q) {
                        let qidx = self.point_to_idx(q);
                        if !visited[qidx] {
                            stack.push(q);
                            proof {
                                assert(stack@[stack@.len() - 1] == q);
                                assert(stack_has(stack@, q));
                            }
                        }
                    }
                    proof {
                        assert forall|k: int|
                            0 <= k < di + 1 implies !self.valid(#[trigger] dirs@[k]) || visited@[
                            self.spec_idx(dirs@[k])
                        ] || stack_has(stack@, dirs@[k]) by {
                            if k < di {
                                if stack_has(pre, dirs@[k]) {
                                    lemma_stack_has_extend(pre, stack@, dirs@[k]);
                                }
                            }
                        }
                    }
                    di = di + 1;
                }
                proof {
                    lemma_flood_invariants_restored(
                        entry_stack,
                        base,
                        stack@,
                        *self,
                        s,
                        old_result,
                        result@,
                        p,
                        visited@,
                        four_way,
                        start,
                    );
                }
            } else {
                proof {
                    lemma_pending_after_pop(entry_stack, stack@, *self, s, result@, four_way);
                    if !result@.contains(start) {
                        if start == p {
                            assert(self.spec_at(start) == s);
                            assert(false);
                        } else {
                            lemma_stack_has_pop(entry_stack, start);
                        }
                    }
                }
            }
        }
        result
    }
}

proof fn lemma_stack_has_pop(st: Seq<Point>, p: Point)
    requires
        st.len() >= 1,
        stack_has(st, p),
        st.last() != p,
    ensures
        stack_has(st.drop_last(), p),
{
    let k = choose|k: int| 0 <= k < st.len() && st[k] == p;
    assert(st.drop_last()[k] == p);
}

proof fn lemma_stack_has_extend(st: Seq<Point>, st2: Seq<Point>, p: Point)
    requires
        stack_has(st, p),
        st2.len() >= st.len(),
        forall|k: int| 0 <= k < st.len() ==> st2[k] == st[k],
    ensures
        stack_has(st2, p),
{
    let k = choose|k: int| 0 <= k < st.len() && st[k] == p;
    assert(st2[k] == p);
}

/// After a cell is popped, every pending same-byte neighbour obligation is
/// still collected or on the shrunk stack.
proof fn lemma_pending_after_pop(
    entry_stack: Seq<Point>,
    stack: Seq<Point>,
    g: ByteGrid,
    s: u8,
    result: Seq<Point>,
    four_way: bool,
)
    requires
        entry_stack.len() >= 1,
        stack == entry_stack.drop_last(),
        forall|t: Point, q: Point|
            #![trigger result.contains(t), flood_adjacent(t, q, four_way)]
            result.contains(t) && g.valid(q) && g.spec_at(q) == s && flood_adjacent(t, q, four_way)
                ==> result.contains(q) || stack_has(entry_stack, q),
        g.valid(entry_stack.last()),
        !g.valid(entry_stack.last()) || g.spec_at(entry_stack.last()) != s || result.contains(
            entry_stack.last(),
        ),
    ensures
        forall|t: Point, q: Point|
            #![trigger result.contains(t), flood_adjacent(t, q, four_way)]
            result.contains(t) && g.valid(q) && g.spec_at(q) == s && flood_adjacent(t, q, four_way)
                ==> result.contains(q) || stack_has(stack, q),
{
    assert forall|t: Point, q: Point|
        #![trigger result.contains(t), flood_adjacent(t, q, four_way)]
        result.contains(t) && g.valid(q) && g.spec_at(q) == s && flood_adjacent(t, q, four_way)
            && !result.contains(q) implies stack_has(stack, q) by {
        assert(stack_has(entry_stack, q));
        assert(q != entry_stack.last());
        lemma_stack_has_pop(entry_stack, q);
    }
}

/// Every in-grid neighbour of `p` in the walking mode occurs among the
/// direction list built from `p`.
proof fn lemma_neighbours_listed(p: Point, q: Point, dirs: Seq<Point>, four_way: bool)
    requires
        i32::MIN < p.row < i32::MAX,
        i32::MIN < p.col < i32::MAX,
        flood_adjacent(p, q, four_way),
        four_way ==> dirs =~= seq![
            p.spec_add(north()),
            p.spec_add(west()),
            p.spec_add(east()),
            p.spec_add(south()),
        ],
        !four_way ==> dirs =~= seq![
            p.spec_add(north()),
            p.spec_add(northeast()),
            p.spec_add(west()),
            p.spec_add(southwest()),
            p.spec_add(south()),
            p.spec_add(southeast()),
            p.spec_add(east()),
            p.spec_add(northwest()),
        ],
    ensures
        dirs.contains(q),
{
    if four_way {
        if q.row == p.row - 1 {
            assert(dirs[0] == q);
        } else if q.col == p.col - 1 {
            assert(dirs[1] == q);
        } else if q.col == p.col + 1 {
            assert(dirs[2] == q);
        } else {
            assert(dirs[3] == q);
        }
    } else {
        if q.row == p.row - 1 {
            if q.col == p.col - 1 {
                assert(dirs[7] == q);
            } else if q.col == p.col {
                assert(dirs[0] == q);
            } else {
                assert(dirs[1] == q);
            }
        } else if q.row == p.row {
            if q.col == p.col - 1 {
                assert(dirs[2] == q);
            } else {
                assert(dirs[6] == q);
            }
        } else {
            if q.col == p.col - 1 {
                assert(dirs[3] == q);
            } else if q.col == p.col {
                assert(dirs[4] == q);
            } else {
                assert(dirs[5] == q);
            }
        }
    }
}

/// After the neighbours of a freshly collected cell are enqueued, all loop
/// facts of the flood walk hold again.
proof fn lemma_flood_invariants_restored(
    entry_stack: Seq<Point>,
    base: Seq<Point>,
    stack: Seq<Point>,
    g: ByteGrid,
    s: u8,
    old_result: Seq<Point>,
    result: Seq<Point>,
    p: Point,
    visited: Seq<bool>,
    four_way: bool,
    start: Point,
)
    requires
        entry_stack.len() >= 1,
        entry_stack.last() == p,
        base == entry_stack.drop_last(),
        stack.len() >= base.len(),
        forall|k: int| 0 <= k < base.len() ==> stack[k] == base[k],
        forall|k: int|
            base.len() <= k < stack.len() ==> g.valid(#[trigger] stack[k]) && flood_adjacent(
                p,
                stack[k],
                four_way,
            ),
        result == old_result.push(p),
        forall|q: Point| #[trigger] old_result.contains(q) ==> result.contains(q),
        forall|q: Point| #[trigger] result.contains(q) && q != p ==> old_result.contains(q),
        result.contains(p),
        forall|k: int|
            0 <= k < entry_stack.len() ==> g.valid(#[trigger] entry_stack[k]) && (entry_stack[k]
                == start || exists|t: Point|
                old_result.contains(t) && flood_adjacent(t, entry_stack[k], four_way)),
        forall|t: Point, q: Point|
            #![trigger old_result.contains(t), flood_adjacent(t, q, four_way)]
            old_result.contains(t) && g.valid(q) && g.spec_at(q) == s && flood_adjacent(
                t,
                q,
                four_way,
            ) ==> old_result.contains(q) || stack_has(entry_stack, q),
        forall|q: Point|
            g.valid(q) && flood_adjacent(p, q, four_way) && g.spec_at(q) == s ==> result.contains(
                q,
            ) || visited[g.spec_idx(q)] || stack_has(stack, q),
        forall|q: Point|
            g.valid(q) && #[trigger] visited[g.spec_idx(q)] && g.spec_at(q) == s
                ==> result.contains(q),
        old_result.contains(start) || stack_has(entry_stack, start),
    ensures
        forall|k: int|
            0 <= k < stack.len() ==> g.valid(#[trigger] stack[k]) && (stack[k] == start || exists|
                t: Point,
            |
                result.contains(t) && flood_adjacent(t, stack[k], four_way)),
        forall|t: Point, q: Point|
            #![trigger result.contains(t), flood_adjacent(t, q, four_way)]
            result.contains(t) && g.valid(q) && g.spec_at(q) == s && flood_adjacent(t, q, four_way)
                ==> result.contains(q) || stack_has(stack, q),
        result.contains(start) || stack_has(stack, start),
{
    assert forall|k: int| 0 <= k < stack.len() implies g.valid(#[trigger] stack[k]) && (stack[k]
        == start || exists|t: Point|
        result.contains(t) && flood_adjacent(t, stack[k], four_way)) by {
        if k < base.len() {
            assert(stack[k] == entry_stack[k]);
            if entry_stack[k] != start {
                let t = choose|t: Point|
                    old_result.contains(t) && flood_adjacent(t, entry_stack[k], four_way);
                assert(result.contains(t) && flood_adjacent(t, stack[k], four_way));
            }
        } else {
            assert(result.contains(p) && flood_adjacent(p, stack[k], four_way));
        }
    }
    assert forall|t: Point, q: Point|
        #![trigger result.contains(t), flood_adjacent(t, q, four_way)]
        result.contains(t) && g.valid(q) && g.spec_at(q) == s && flood_adjacent(t, q, four_way)
            && !result.contains(q) implies stack_has(stack, q) by {
        if t == p {
            assert(!visited[g.spec_idx(q)] || result.contains(q));
        } else {
            assert(old_result.contains(t));
            assert(!old_result.contains(q));
            assert(stack_has(entry_stack, q));
            assert(q != p);
            lemma_stack_has_pop(entry_stack, q);
            lemma_stack_has_extend(base, stack, q);
        }
    }
    if !result.contains(start) && !old_result.contains(start) {
        assert(stack_has(entry_stack, start));
        assert(start != p);
        lemma_stack_has_pop(entry_stack, start);
        lemma_stack_has_extend(base, stack, start);
    }
}



/// `pts` is exactly the connected same-byte patch around `start`: nothing
/// repeats, everything holds the start byte and is joined to the start, and
/// no same-byte neighbour is left out.
pub open spec fn is_component(g: ByteGrid, start: Point, pts: Seq<Point>, four_way: bool) -> bool {
    if !g.valid(start) {
        pts.len() == 0
    } else {
        let s = g.spec_at(start);
        &&& pts.no_duplicates()
        &&& pts.len() > 0
        &&& pts[0] == start
        &&& pts.contains(start)
        &&& forall|p: Point| #[trigger]
            pts.contains(p) ==> g.valid(p) && g.spec_at(p) == s && region_reach(
                g,
                s,
                start,
                p,
                four_way,
            )
        &&& forall|p: Point, q: Point|
            #![trigger pts.contains(p), flood_adjacent(p, q, four_way)]
            pts.contains(p) && g.valid(q) && g.spec_at(q) == s && flood_adjacent(p, q, four_way)
                ==> pts.contains(q)
    }
}

impl ByteGrid {
    /// The connected same-byte patch around `start`, walked four ways,
    /// without touching the grid.  The count equals the number of cells of
    /// the patch.
    pub fn flood_orthogonals(&self, start: Point) -> (r: (usize, Vec<Point>))
        requires
            self.wf(),
        ensures
            is_component(*self, start, r.1@, true),
            r.0 == r.1@.len(),
    {
        let pts = self.flood_points(start, true);
        let n = pts.len();
        (n, pts)
    }

    /// The connected same-byte patch around `start`, walked four ways, with
    /// every cell of the patch overwritten by `fill`.
    pub fn flood_orthogonals_mut(&mut self, start: Point, fill: u8) -> (r: (usize, Vec<Point>))
        requires
            old(self).wf(),
        ensures
            is_component(*old(self), start, r.1@, true),
            r.0 == r.1@.len(),
            final(self).wf(),
            final(self).width == old(self).width && final(self).height == old(self).height,
            forall|q: Point|
                old(self).valid(q) ==> final(self).spec_at(q) == if r.1@.contains(q) {
                    fill
                } else {
                    old(self).spec_at(q)
                },
    {
        let pts = self.flood_points(start, true);
        let n = pts.len();
        self.fill_points(&pts, fill);
        (n, pts)
    }

    /// The connected same-byte patch around `start`, walked eight ways, with
    /// every cell of the patch overwritten by `fill`.
    pub fn flood_adjacencies(&mut self, start: Point, fill: u8) -> (r: (usize, Vec<Point>))
        requires
            old(self).wf(),
        ensures
            is_component(*old(self), start, r.1@, false),
            r.0 == r.1@.len(),
            final(self).wf(),
            final(self).width == old(self).width && final(self).height == old(self).height,
            forall|q: Point|
                old(self).valid(q) ==> final(self).spec_at(q) == if r.1@.contains(q) {
                    fill
                } else {
                    old(self).spec_at(q)
                },
    {
        let pts = self.flood_points(start, false);
        let n = pts.len();
        self.fill_points(&pts, fill);
        (n, pts)
    }

    /// Overwrite every listed valid cell with `fill`.
    fn fill_points(&mut self, pts: &Vec<Point>, fill: u8)
        requires
            old(self).wf(),
            forall|p: Point| #[trigger] pts@.contains(p) ==> old(self).valid(p),
        ensures
            final(self).wf(),
            final(self).width == old(self).width && final(self).height == old(self).height,
            forall|q: Point|
                old(self).valid(q) ==> final(self).spec_at(q) == if pts@.contains(q) {
                    fill
                } else {
                    old(self).spec_at(q)
                },
    {
        let mut i: usize = 0;
        while i < pts.len()
            invariant
                self.wf(),
                self.width == old(self).width && self.height == old(self).height,
                0 <= i <= pts@.len(),
                forall|p: Point| #[trigger] pts@.contains(p) ==> old(self).valid(p),
                forall|q: Point|
                    old(self).valid(q) ==> self.spec_at(q) == if pts@.take(i as int).contains(q) {
                        fill
                    } else {
                        old(self).spec_at(q)
                    },
            decreases pts@.len() - i,
        {
            let p = pts[i];
            proof {
                assert(pts@.contains(pts@[i as int]));
            }
            let ghost pre = *self;
            self.set_point(p, fill);
            proof {
                assert forall|q: Point| old(self).valid(q) implies self.spec_at(q) == (
                if pts@.take(i + 1).contains(q) {
                    fill
                } else {
                    old(self).spec_at(q)
                }) by {
                    assert(pts@.take(i + 1).drop_last() =~= pts@.take(i as int));
                    if q == p {
                        assert(pts@.take(i + 1)[i as int] == p);
                        assert(pts@.take(i + 1).contains(p));
                    } else {
                        assert(self.spec_at(q) == pre.spec_at(q));
                        if pts@.take(i + 1).contains(q) {
                            let k = choose|k: int|
                                0 <= k < i + 1 && #[trigger] pts@.take(i + 1)[k] == q;
                            assert(k < i);
                            assert(pts@.take(i as int)[k] == q);
                        } else if pts@.take(i as int).contains(q) {
                            let k = choose|k: int|
                                0 <= k < i && #[trigger] pts@.take(i as int)[k] == q;
                            assert(pts@.take(i + 1)[k] == q);
                        }
                    }
                }
            }
            i = i + 1;
        }
        proof {
            assert(pts@.take(pts@.len() as int) =~= pts@);
        }
    }

    /// The bytes at `point` offset by each entry of `offsets`, when every
    /// such position lies in the grid; nothing as soon as one does not.
    pub fn u8s_surrounding(&self, point: Point, offsets: &[Point]) -> (r: Option<Vec<u8>>)
        requires
            self.wf(),
        ensures
            r matches Some(v) ==> {
                &&& v@.len() == offsets@.len()
                &&& forall|k: int|
                    0 <= k < offsets@.len() ==> self.off_valid(point, #[trigger] offsets@[k])
                &&& forall|k: int|
                    0 <= k < offsets@.len() ==> v@[k] == self.spec_at_off(
                        point,
                        #[trigger] offsets@[k],
                    )
            },
            r is None <==> exists|k: int|
                0 <= k < offsets@.len() && !self.off_valid(point, #[trigger] offsets@[k]),
    {
        let mut result: Vec<u8> = Vec::new();
        let mut i: usize = 0;
        while i < offsets.len()
            invariant
                self.wf(),
                0 <= i <= offsets@.len(),
                result@.len() == i,
                forall|k: int| 0 <= k < i ==> self.off_valid(point, #[trigger] offsets@[k]),
                forall|k: int|
                    0 <= k < i ==> result@[k] == self.spec_at_off(point, #[trigger] offsets@[k]),
            decreases offsets@.len() - i,
        {
            let off = offsets[i];
            let nr = point.row as i64 + off.row as i64;
            let nc = point.col as i64 + off.col as i64;
            if 0 <= nr && nr < self.height as i64 && 0 <= nc && nc < self.width as i64 {
                let b = self.at_coord(nr as i32, nc as i32);
                result.push(b);
            } else {
                return None;
            }
            i = i + 1;
        }
        Some(result)
    }

    /// The position one offset away from `p` lies in the grid.
    pub open spec fn off_valid(&self, p: Point, off: Point) -> bool {
        &&& 0 <= p.row + off.row < self.height
        &&& 0 <= p.col + off.col < self.width
    }

    /// The byte one offset away from `p`.
    pub open spec fn spec_at_off(&self, p: Point, off: Point) -> u8 {
        self.data@[(p.row + off.row) * self.width + (p.col + off.col)]
    }

    /// A cursor that reads bytes along a ray.
    pub fn iter_from_point_with_offsets(
        &self,
        row: i32,
        col: i32,
        row_offset: i32,
        col_offset: i32,
    ) -> (r: ByteGridIter)
        requires
            i32::MIN <= row - row_offset <= i32::MAX,
            i32::MIN <= col - col_offset <= i32::MAX,
        ensures
            r.row == row - row_offset && r.col == col - col_offset && r.row_offset == row_offset
                && r.col_offset == col_offset,
    {
        ByteGridIter::new(self, row, col, row_offset, col_offset)
    }

    /// A cursor that walks cell positions along a ray, for writing through
    /// `set_point`.
    pub fn iter_mut_ray(
        &mut self,
        row: i32,
        col: i32,
        row_offset: i32,
        col_offset: i32,
    ) -> (r: ByteGridIterMut)
        requires
            i32::MIN <= row - row_offset <= i32::MAX,
            i32::MIN <= col - col_offset <= i32::MAX,
        ensures
            *final(self) == *old(self),
            r.row == row - row_offset && r.col == col - col_offset && r.row_offset == row_offset
                && r.col_offset == col_offset,
    {
        ByteGridIterMut::new(self, row, col, row_offset, col_offset)
    }

    /// A reading cursor from `pos` stepping by `vel`.
    pub fn iter_towards(&self, pos: Point, vel: Point) -> (r: ByteGridIter)
        requires
            pos.can_sub(vel),
        ensures
            r.row == pos.row - vel.row && r.col == pos.col - vel.col && r.row_offset == vel.row
                && r.col_offset == vel.col,
    {
        self.iter_from_point_with_offsets(pos.row, pos.col, vel.row, vel.col)
    }

    /// A writing cursor from `pos` stepping by `vel`.
    pub fn iter_mut_towards(&mut self, pos: Point, vel: Point) -> (r: ByteGridIterMut)
        requires
            pos.can_sub(vel),
        ensures
            *final(self) == *old(self),
            r.row == pos.row - vel.row && r.col == pos.col - vel.col && r.row_offset == vel.row
                && r.col_offset == vel.col,
    {
        self.iter_mut_ray(pos.row, pos.col, vel.row, vel.col)
    }
}

/// A reading cursor along a ray of the grid.  It sits one step before the
/// next cell to read and advances on each `next`.
pub struct ByteGridIter {
    pub row: i32,
    pub col: i32,
    pub row_offset: i32,
    pub col_offset: i32,
}

impl ByteGridIter {
    pub fn new(grid: &ByteGrid, row: i32, col: i32, row_offset: i32, col_offset: i32) -> (r:
        ByteGridIter)
        requires
            i32::MIN <= row - row_offset <= i32::MAX,
            i32::MIN <= col - col_offset <= i32::MAX,
        ensures
            r.row == row - row_offset && r.col == col - col_offset && r.row_offset == row_offset
                && r.col_offset == col_offset,
    {
        ByteGridIter {
            row: row - row_offset,
            col: col - col_offset,
            row_offset,
            col_offset,
        }
    }

    /// The next in-grid position of the ray, or nothing once it has left
    /// the grid; the cursor stays put in that case.
    pub open spec fn spec_next_pos(&self, g: ByteGrid) -> Option<Point> {
        let nr = self.row + self.row_offset;
        let nc = self.col + self.col_offset;
        if 0 <= nr < g.height && 0 <= nc < g.width {
            Some(Point { row: nr as i32, col: nc as i32 })
        } else {
            None
        }
    }

    /// The byte under the next cell of the ray, advancing the cursor onto
    /// it; nothing once the ray leaves the grid.
    pub fn next(&mut self, grid: &ByteGrid) -> (r: Option<u8>)
        requires
            grid.wf(),
        ensures
            old(self).spec_next_pos(*grid) matches Some(p) ==> (r == Some(grid.spec_at(p))
                && final(self).row == p.row && final(self).col == p.col
                && final(self).row_offset == old(self).row_offset
                && final(self).col_offset == old(self).col_offset),
            old(self).spec_next_pos(*grid) is None ==> r is None && *final(self) == *old(self),
    {
        let nr = self.row as i64 + self.row_offset as i64;
        let nc = self.col as i64 + self.col_offset as i64;
        if 0 <= nr && nr < grid.height as i64 && 0 <= nc && nc < grid.width as i64 {
            self.row = nr as i32;
            self.col = nc as i32;
            Some(grid.at_coord(self.row, self.col))
        } else {
            None
        }
    }
}

/// A writing cursor along a ray of the grid: it yields each in-grid cell
/// position in turn, and the caller writes through `set_point`.
pub struct ByteGridIterMut {
    pub row: i32,
    pub col: i32,
    pub row_offset: i32,
    pub col_offset: i32,
}

impl ByteGridIterMut {
    pub fn new(grid: &ByteGrid, row: i32, col: i32, row_offset: i32, col_offset: i32) -> (r:
        ByteGridIterMut)
        requires
            i32::MIN <= row - row_offset <= i32::MAX,
            i32::MIN <= col - col_offset <= i32::MAX,
        ensures
            r.row == row - row_offset && r.col == col - col_offset && r.row_offset == row_offset
                && r.col_offset == col_offset,
    {
        ByteGridIterMut {
            row: row - row_offset,
            col: col - col_offset,
            row_offset,
            col_offset,
        }
    }

    pub open spec fn spec_next_pos(&self, g: ByteGrid) -> Option<Point> {
        let nr = self.row + self.row_offset;
        let nc = self.col + self.col_offset;
        if 0 <= nr < g.height && 0 <= nc < g.width {
            Some(Point { row: nr as i32, col: nc as i32 })
        } else {
            None
        }
    }

    /// The next in-grid cell of the ray, advancing onto it; nothing once
    /// the ray leaves the grid.
    pub fn next_point(&mut self, grid: &ByteGrid) -> (r: Option<Point>)
        ensures
            old(self).spec_next_pos(*grid) matches Some(p) ==> (r == Some(p) && grid.valid(p)
                && final(self).row == p.row && final(self).col == p.col
                && final(self).row_offset == old(self).row_offset
                && final(self).col_offset == old(self).col_offset),
            old(self).spec_next_pos(*grid) is None ==> r is None && *final(self) == *old(self),
    {
        let nr = self.row as i64 + self.row_offset as i64;
        let nc = self.col as i64 + self.col_offset as i64;
        if 0 <= nr && nr < grid.height as i64 && 0 <= nc && nc < grid.width as i64 {
            self.row = nr as i32;
            self.col = nc as i32;
            Some(Point { row: self.row, col: self.col })
        } else {
            None
        }
    }
}



/// The byte one (row, column) offset away from `p`, when that position is
/// in the grid; mirrors a bounds-checked neighbour lookup.
pub open spec fn nb_is(g: ByteGrid, p: Point, dr: int, dc: int, b: u8) -> bool {
    let r = p.row + dr;
    let c = p.col + dc;
    0 <= r < g.height && 0 <= c < g.width && g.data@[r * g.width + c] == b
}

/// How much one cell adds to its region's perimeter: one for each of the
/// four orthogonal neighbours that is missing or holds another byte.
pub open spec fn perimeter_contrib(g: ByteGrid, p: Point, b: u8) -> int {
    (if !nb_is(g, p, -1, 0, b) {
        1int
    } else {
        0int
    }) + (if !nb_is(g, p, 0, -1, b) {
        1int
    } else {
        0int
    }) + (if !nb_is(g, p, 0, 1, b) {
        1int
    } else {
        0int
    }) + (if !nb_is(g, p, 1, 0, b) {
        1int
    } else {
        0int
    })
}

/// One corner of a cell counts as a side corner when both flanking
/// orthogonal neighbours leave the region, or both stay in it while the
/// diagonal between them does not.
pub open spec fn corner_contrib(
    g: ByteGrid,
    p: Point,
    b: u8,
    o1r: int,
    o1c: int,
    dr: int,
    dc: int,
    o2r: int,
    o2c: int,
) -> int {
    if (!nb_is(g, p, o1r, o1c, b) && !nb_is(g, p, o2r, o2c, b)) || (nb_is(g, p, o1r, o1c, b)
        && nb_is(g, p, o2r, o2c, b) && !nb_is(g, p, dr, dc, b)) {
        1int
    } else {
        0int
    }
}

/// How much one cell adds to its region's number of straight sides: its
/// count of side corners over the four corners.
pub open spec fn sides_contrib(g: ByteGrid, p: Point, b: u8) -> int {
    corner_contrib(g, p, b, -1, 0, -1, 1, 0, 1) + corner_contrib(g, p, b, 0, 1, 1, 1, 1, 0)
        + corner_contrib(g, p, b, 1, 0, 1, -1, 0, -1) + corner_contrib(
        g,
        p,
        b,
        0,
        -1,
        -1,
        -1,
        -1,
        0,
    )
}

/// Total perimeter contribution of the cells of `pts`.
pub open spec fn perimeter_of(g: ByteGrid, b: u8, pts: Seq<Point>) -> int
    decreases pts.len(),
{
    if pts.len() == 0 {
        0
    } else {
        perimeter_of(g, b, pts.drop_last()) + perimeter_contrib(g, pts.last(), b)
    }
}

/// Total sides contribution of the cells of `pts`.
pub open spec fn sides_of(g: ByteGrid, b: u8, pts: Seq<Point>) -> int
    decreases pts.len(),
{
    if pts.len() == 0 {
        0
    } else {
        sides_of(g, b, pts.drop_last()) + sides_contrib(g, pts.last(), b)
    }
}

/// One connected patch of equal bytes, with its accumulated measurements.
#[derive(Debug)]
pub struct Region {
    pub byte: u8,
    pub points: Vec<Point>,
    pub min_row: i32,
    pub max_row: i32,
    pub min_col: i32,
    pub max_col: i32,
    pub area: i32,
    pub sides: i32,
    pub perimeter: i32,
}

impl Region {
    /// An empty region of cells holding `byte`.
    pub fn new(byte: u8) -> (r: Region)
        ensures
            r.byte == byte,
            r.points@.len() == 0,
            r.min_row == i32::MAX && r.max_row == 0,
            r.min_col == i32::MAX && r.max_col == 0,
            r.area == 0 && r.sides == 0 && r.perimeter == 0,
    {
        Region {
            byte,
            points: Vec::new(),
            min_row: i32::MAX,
            max_row: 0,
            min_col: i32::MAX,
            max_col: 0,
            area: 0,
            sides: 0,
            perimeter: 0,
        }
    }

    /// Fold one cell into the region: the bounding box, area, perimeter and
    /// side count all take the cell's contribution against `grid`.
    pub fn add_point(&mut self, grid: &ByteGrid, point: Point)
        requires
            grid.wf(),
            old(self).area < i32::MAX,
            old(self).perimeter <= i32::MAX - 4,
            old(self).sides <= i32::MAX - 4,
        ensures
            final(self).byte == old(self).byte,
            final(self).points@ == old(self).points@.push(point),
            final(self).area == old(self).area + 1,
            final(self).perimeter == old(self).perimeter + perimeter_contrib(
                *grid,
                point,
                old(self).byte,
            ),
            final(self).sides == old(self).sides + sides_contrib(*grid, point, old(self).byte),
            final(self).min_row == if point.row < old(self).min_row {
                point.row
            } else {
                old(self).min_row
            },
            final(self).max_row == if point.row > old(self).max_row {
                point.row
            } else {
                old(self).max_row
            },
            final(self).min_col == if point.col < old(self).min_col {
                point.col
            } else {
                old(self).min_col
            },
            final(self).max_col == if point.col > old(self).max_col {
                point.col
            } else {
                old(self).max_col
            },
    {
        if point.row < self.min_row {
            self.min_row = point.row;
        }
        if point.row > self.max_row {
            self.max_row = point.row;
        }
        if point.col < self.min_col {
            self.min_col = point.col;
        }
        if point.col > self.max_col {
            self.max_col = point.col;
        }
        let b = self.byte;
        let up = neighbour_is(grid, point, -1, 0, b);
        let left = neighbour_is(grid, point, 0, -1, b);
        let right = neighbour_is(grid, point, 0, 1, b);
        let down = neighbour_is(grid, point, 1, 0, b);
        let mut perim: i32 = 0;
        if !up {
            perim = perim + 1;
        }
        if !left {
            perim = perim + 1;
        }
        if !right {
            perim = perim + 1;
        }
        if !down {
            perim = perim + 1;
        }
        self.perimeter = self.perimeter + perim;
        let ne = neighbour_is(grid, point, -1, 1, b);
        let se = neighbour_is(grid, point, 1, 1, b);
        let sw = neighbour_is(grid, point, 1, -1, b);
        let nw = neighbour_is(grid, point, -1, -1, b);
        let mut corners: i32 = 0;
        if (!up && !right) || (up && right && !ne) {
            corners = corners + 1;
        }
        if (!right && !down) || (right && down && !se) {
            corners = corners + 1;
        }
        if (!down && !left) || (down && left && !sw) {
            corners = corners + 1;
        }
        if (!left && !up) || (left && up && !nw) {
            corners = corners + 1;
        }
        self.sides = self.sides + corners;
        self.area = self.area + 1;
        self.points.push(point);
    }

    pub fn perimeter(&self) -> (r: i32)
        ensures
            r == self.perimeter,
    {
        self.perimeter
    }

    pub fn area(&self) -> (r: i32)
        ensures
            r == self.area,
    {
        self.area
    }

    pub fn sides(&self) -> (r: i32)
        ensures
            r == self.sides,
    {
        self.sides
    }
}

/// Whether the cell one step (`dr`, `dc`) away from `p` exists and holds
/// `b`.
fn neighbour_is(grid: &ByteGrid, p: Point, dr: i32, dc: i32, b: u8) -> (r: bool)
    requires
        grid.wf(),
        -1 <= dr <= 1,
        -1 <= dc <= 1,
    ensures
        r == nb_is(*grid, p, dr as int, dc as int, b),
{
    let nr = p.row as i64 + dr as i64;
    let nc = p.col as i64 + dc as i64;
    if 0 <= nr && nr < grid.height as i64 && 0 <= nc && nc < grid.width as i64 {
        grid.at_coord(nr as i32, nc as i32) == b
    } else {
        false
    }
}

/// A sequence of distinct valid points cannot outnumber the grid's cells.
pub proof fn lemma_distinct_points_bound_pub(g: ByteGrid, pts: Seq<Point>)
    requires
        g.wf(),
        pts.no_duplicates(),
        forall|p: Point| #[trigger] pts.contains(p) ==> g.valid(p),
    ensures
        pts.len() <= g.data@.len(),
{
    lemma_distinct_points_bound(g, pts);
}

proof fn lemma_distinct_points_bound(g: ByteGrid, pts: Seq<Point>)
    requires
        g.wf(),
        pts.no_duplicates(),
        forall|p: Point| #[trigger] pts.contains(p) ==> g.valid(p),
    ensures
        pts.len() <= g.data@.len(),
{
    let idxs = pts.map_values(|p: Point| g.spec_idx(p));
    assert forall|i: int, j: int| 0 <= i < j < idxs.len() implies idxs[i] != idxs[j] by {
        assert(pts.contains(pts[i]) && pts.contains(pts[j]));
        g.lemma_idx_injective(pts[i], pts[j]);
    }
    assert(idxs.no_duplicates());
    idxs.unique_seq_to_set();
    let range = vstd::set_lib::set_int_range(0, g.data@.len() as int);
    assert forall|x: int| idxs.to_set().contains(x) implies range.contains(x) by {
        let k = choose|k: int| 0 <= k < idxs.len() && idxs[k] == x;
        assert(pts.contains(pts[k]));
        g.lemma_valid_idx(pts[k]);
    }
    vstd::set_lib::lemma_int_range(0, g.data@.len() as int);
    vstd::set_lib::lemma_len_subset(idxs.to_set(), range);
}

impl ByteGrid {
    /// Split the grid into its connected regions of equal bytes.  Every cell
    /// belongs to a region, and each region carries its cells together with
    /// their accumulated area, perimeter and side count.
    pub fn to_regions(&self) -> (r: Vec<Region>)
        requires
            self.wf(),
            self.data@.len() <= 0x1fff_ffff,
        ensures
            forall|k: int|
                0 <= k < r@.len() ==> {
                    let reg = #[trigger] r@[k];
                    &&& reg.points@.len() > 0
                    &&& is_component(*self, reg.points@[0], reg.points@, true)
                    &&& reg.byte == self.spec_at(reg.points@[0])
                    &&& reg.area == reg.points@.len()
                    &&& reg.perimeter == perimeter_of(*self, reg.byte, reg.points@)
                    &&& reg.sides == sides_of(*self, reg.byte, reg.points@)
                    &&& 0 <= reg.perimeter <= 4 * reg.points@.len()
                    &&& 0 <= reg.sides <= 4 * reg.points@.len()
                },
            forall|p: Point|
                self.valid(p) ==> exists|k: int|
                    0 <= k < r@.len() && (#[trigger] r@[k]).points@.contains(p),
            forall|k1: int, k2: int, p: Point|
                #![trigger r@[k1].points@.contains(p), r@[k2].points@.contains(p)]
                0 <= k1 < k2 < r@.len() ==> !(r@[k1].points@.contains(p)
                    && r@[k2].points@.contains(p)),
            forall|k1: int, k2: int|
                0 <= k1 < k2 < r@.len() ==> self.spec_idx((#[trigger] r@[k1]).points@[0])
                    < self.spec_idx((#[trigger] r@[k2]).points@[0]),
            forall|k: int, p: Point|
                #![trigger r@[k].points@.contains(p)]
                0 <= k < r@.len() && r@[k].points@.contains(p) ==> self.spec_idx(
                    r@[k].points@[0],
                ) <= self.spec_idx(p),
    {
        let n = self.data.len();
        let mut seen: Vec<bool> = Vec::new();
        let mut vi: usize = 0;
        while vi < n
            invariant
                seen@.len() == vi <= n,
                forall|k: int| 0 <= k < vi ==> !(#[trigger] seen@[k]),
            decreases n - vi,
        {
            seen.push(false);
            vi = vi + 1;
        }
        proof {
            assert forall|p: Point| self.valid(p) implies !(#[trigger] seen@[self.spec_idx(p)]) by {
                self.lemma_valid_idx(p);
            }
        }
        let mut regions: Vec<Region> = Vec::new();
        let mut i: usize = 0;
        while i < n
            invariant
                self.wf(),
                self.data@.len() <= 0x1fff_ffff,
                n == self.data@.len(),
                seen@.len() == n,
                0 <= i <= n,
                forall|j: int| 0 <= j < i ==> #[trigger] seen@[j],
                forall|p: Point|
                    self.valid(p) && #[trigger] seen@[self.spec_idx(p)] ==> exists|k: int|
                        0 <= k < regions@.len() && (#[trigger] regions@[k]).points@.contains(p),
                forall|k: int, p: Point|
                    #![trigger regions@[k].points@.contains(p)]
                    0 <= k < regions@.len() && regions@[k].points@.contains(p) ==> seen@[
                        self.spec_idx(p)
                    ],
                forall|k1: int, k2: int, p: Point|
                    #![trigger regions@[k1].points@.contains(p), regions@[k2].points@.contains(p)]
                    0 <= k1 < k2 < regions@.len() ==> !(regions@[k1].points@.contains(p)
                        && regions@[k2].points@.contains(p)),
                forall|k: int|
                    0 <= k < regions@.len() ==> 0 <= self.spec_idx(
                        (#[trigger] regions@[k]).points@[0],
                    ) < i,
                forall|k1: int, k2: int|
                    0 <= k1 < k2 < regions@.len() ==> self.spec_idx(
                        (#[trigger] regions@[k1]).points@[0],
                    ) < self.spec_idx((#[trigger] regions@[k2]).points@[0]),
                forall|k: int, p: Point|
                    #![trigger regions@[k].points@.contains(p)]
                    0 <= k < regions@.len() && regions@[k].points@.contains(p) ==> self.spec_idx(
                        regions@[k].points@[0],
                    ) <= self.spec_idx(p),
                forall|k: int|
                    0 <= k < regions@.len() ==> {
                        let reg = #[trigger] regions@[k];
                        &&& reg.points@.len() > 0
                        &&& is_component(*self, reg.points@[0], reg.points@, true)
                        &&& reg.byte == self.spec_at(reg.points@[0])
                        &&& reg.area == reg.points@.len()
                        &&& reg.perimeter == perimeter_of(*self, reg.byte, reg.points@)
                        &&& reg.sides == sides_of(*self, reg.byte, reg.points@)
                        &&& 0 <= reg.perimeter <= 4 * reg.points@.len()
                        &&& 0 <= reg.sides <= 4 * reg.points@.len()
                    },
            decreases n - i,
        {
            if !seen[i] {
                let point = self.idx_to_point(i);
                let byte = self.at(point);
                let pts = self.flood_points(point, true);
                proof {
                    lemma_distinct_points_bound(*self, pts@);
                }
                let mut region = Region::new(byte);
                let mut j: usize = 0;
                while j < pts.len()
                    invariant
                        self.wf(),
                        pts@.len() <= self.data@.len() <= 0x1fff_ffff,
                        0 <= j <= pts@.len(),
                        region.byte == byte,
                        region.points@ == pts@.take(j as int),
                        region.area == j,
                        region.perimeter == perimeter_of(*self, byte, pts@.take(j as int)),
                        region.sides == sides_of(*self, byte, pts@.take(j as int)),
                        0 <= region.perimeter <= 4 * j,
                        0 <= region.sides <= 4 * j,
                    decreases pts@.len() - j,
                {
                    let p = pts[j];
                    region.add_point(self, p);
                    proof {
                        assert(pts@.take(j + 1).drop_last() =~= pts@.take(j as int));
                        assert(pts@.take(j + 1).last() == p);
                    }
                    j = j + 1;
                }
                proof {
                    assert(pts@.take(pts@.len() as int) =~= pts@);
                }
                let ghost pre_seen = seen@;
                // mark each cell of the region
                let mut t: usize = 0;
                while t < pts.len()
                    invariant
                        self.wf(),
                        seen@.len() == n == self.data@.len(),
                        0 <= t <= pts@.len(),
                        forall|p: Point| #[trigger] pts@.contains(p) ==> self.valid(p),
                        forall|j2: int|
                            0 <= j2 < n ==> #[trigger] seen@[j2] == (pre_seen[j2] || exists|u: int|
                                0 <= u < t && self.spec_idx(#[trigger] pts@[u]) == j2),
                    decreases pts@.len() - t,
                {
                    let q = pts[t];
                    proof {
                        assert(pts@.contains(pts@[t as int]));
                        self.lemma_valid_idx(q);
                    }
                    let qidx = self.point_to_idx(q);
                    let ghost mid_seen = seen@;
                    seen[qidx] = true;
                    proof {
                        assert forall|j2: int| 0 <= j2 < n implies #[trigger] seen@[j2] == (
                        pre_seen[j2] || exists|u: int|
                            0 <= u < t + 1 && self.spec_idx(#[trigger] pts@[u]) == j2) by {
                            if j2 == self.spec_idx(q) {
                                assert(self.spec_idx(pts@[t as int]) == j2);
                            } else {
                                if exists|u: int|
                                    0 <= u < t && self.spec_idx(#[trigger] pts@[u]) == j2 {
                                }
                            }
                        }
                    }
                    t = t + 1;
                }
                let ghost pre_regions = regions@;
                regions.push(region);
                proof {
                    assert(regions@[regions@.len() - 1] == region);
                    assert(region.points@ == pts@);
                    assert(pts@[0] == point);
                    assert(region.byte == self.spec_at(region.points@[0]));
                    // nothing of this component was seen before: a seen cell
                    // would sit in an earlier region, which, being closed,
                    // would hold this component's seed too
                    assert forall|p: Point| #[trigger]
                        pts@.contains(p) implies !pre_seen[self.spec_idx(p)] by {
                        self.lemma_valid_idx(p);
                        if pre_seen[self.spec_idx(p)] {
                            let k = choose|k: int|
                                0 <= k < pre_regions.len() && (#[trigger] pre_regions[k]).points@
                                    .contains(p);
                            let reg = pre_regions[k];
                            assert(self.spec_at(p) == byte);
                            assert(self.spec_at(p) == self.spec_at(reg.points@[0]));
                            lemma_region_reach_sym(*self, byte, point, p, true);
                            lemma_closed_holds_reach(*self, byte, reg.points@, p, point, true);
                            assert(reg.points@.contains(point));
                            assert(pre_seen[self.spec_idx(point)]);
                            assert(false);
                        }
                    }
                    // each of the new component's cells sits at or past the
                    // scan position, which every earlier seed lies below
                    assert(self.spec_idx(point) == i as int);
                    assert forall|p: Point| #[trigger]
                        region.points@.contains(p) implies i as int <= self.spec_idx(p) by {
                        self.lemma_valid_idx(p);
                        if self.spec_idx(p) < i as int {
                            assert(pre_seen[self.spec_idx(p)]);
                        }
                    }
                    assert forall|k1: int, k2: int|
                        0 <= k1 < k2 < regions@.len() implies self.spec_idx(
                        (#[trigger] regions@[k1]).points@[0],
                    ) < self.spec_idx((#[trigger] regions@[k2]).points@[0]) by {
                        if k2 == regions@.len() - 1 {
                            assert(regions@[k1] == pre_regions[k1]);
                            assert(self.spec_idx(pre_regions[k1].points@[0]) < i as int);
                        } else {
                            assert(regions@[k1] == pre_regions[k1]);
                            assert(regions@[k2] == pre_regions[k2]);
                        }
                    }
                    assert forall|k: int, p: Point|
                        #![trigger regions@[k].points@.contains(p)]
                        0 <= k < regions@.len() && regions@[k].points@.contains(
                        p,
                    ) implies self.spec_idx(regions@[k].points@[0]) <= self.spec_idx(p) by {
                        if k < pre_regions.len() {
                            assert(regions@[k] == pre_regions[k]);
                        } else {
                            assert(regions@[k] == region);
                        }
                    }
                    assert forall|k1: int, k2: int, p: Point|
                        #![trigger regions@[k1].points@.contains(p), regions@[k2].points@.contains(p)]
                        0 <= k1 < k2 < regions@.len() implies !(regions@[k1].points@.contains(p)
                        && regions@[k2].points@.contains(p)) by {
                        if k2 == regions@.len() - 1 {
                            if regions@[k1].points@.contains(p) && regions@[k2].points@.contains(
                                p,
                            ) {
                                assert(pre_regions[k1].points@.contains(p));
                                assert(pre_seen[self.spec_idx(p)]);
                                assert(pts@.contains(p));
                                assert(false);
                            }
                        } else {
                            assert(regions@[k1] == pre_regions[k1]);
                            assert(regions@[k2] == pre_regions[k2]);
                        }
                    }
                    assert forall|k: int, p: Point|
                        #![trigger regions@[k].points@.contains(p)]
                        0 <= k < regions@.len() && regions@[k].points@.contains(p) implies seen@[
                        self.spec_idx(p)
                    ] by {
                        self.lemma_valid_idx(p);
                        if k < pre_regions.len() {
                            assert(pre_regions[k].points@.contains(p));
                            assert(pre_seen[self.spec_idx(p)]);
                        } else {
                            assert(pts@.contains(p));
                            let u = choose|u: int| 0 <= u < pts@.len() && pts@[u] == p;
                            assert(self.spec_idx(pts@[u]) == self.spec_idx(p));
                        }
                    }
                    assert forall|k: int| 0 <= k < regions@.len() implies {
                        let reg = #[trigger] regions@[k];
                        &&& reg.points@.len() > 0
                        &&& is_component(*self, reg.points@[0], reg.points@, true)
                        &&& reg.byte == self.spec_at(reg.points@[0])
                        &&& reg.area == reg.points@.len()
                        &&& reg.perimeter == perimeter_of(*self, reg.byte, reg.points@)
                        &&& reg.sides == sides_of(*self, reg.byte, reg.points@)
                        &&& 0 <= reg.perimeter <= 4 * reg.points@.len()
                        &&& 0 <= reg.sides <= 4 * reg.points@.len()
                    } by {
                        if k < pre_regions.len() {
                            assert(regions@[k] == pre_regions[k]);
                        } else {
                            assert(regions@[k] == region);
                        }
                    }
                    assert(seen@[i as int]) by {
                        assert(pts@.contains(point));
                        let u = choose|u: int| 0 <= u < pts@.len() && pts@[u] == point;
                        assert(self.spec_idx(pts@[u]) == i);
                    }
                    assert forall|p: Point|
                        self.valid(p) && #[trigger] seen@[self.spec_idx(p)] implies exists|k: int|
                        0 <= k < regions@.len() && (#[trigger] regions@[k]).points@.contains(
                        p,
                    ) by {
                        self.lemma_valid_idx(p);
                        if pre_seen[self.spec_idx(p)] {
                            let k = choose|k: int|
                                0 <= k < pre_regions.len() && (#[trigger] pre_regions[k]).points@
                                    .contains(p);
                            assert(regions@[k].points@.contains(p));
                        } else {
                            let u = choose|u: int|
                                0 <= u < pts@.len() && self.spec_idx(#[trigger] pts@[u]) == self
                                    .spec_idx(p);
                            assert(pts@.contains(pts@[u]));
                            if pts@[u] != p {
                                self.lemma_idx_injective(pts@[u], p);
                            }
                            assert(pts@.contains(p));
                            assert(regions@[regions@.len() - 1].points@.contains(p));
                        }
                    }
                    assert forall|j2: int| 0 <= j2 < i + 1 implies #[trigger] seen@[j2] by {
                        if j2 < i {
                            assert(pre_seen[j2]);
                        }
                    }
                }
            } else {
                proof {
                    assert(seen@[i as int]);
                }
            }
            i = i + 1;
        }
        proof {
            assert forall|p: Point| self.valid(p) implies exists|k: int|
                0 <= k < regions@.len() && (#[trigger] regions@[k]).points@.contains(p) by {
                self.lemma_valid_idx(p);
                assert(seen@[self.spec_idx(p)]);
            }
        }
        regions
    }
}


} // verus!
