use vstd::prelude::*;

verus! {

/// A position inside a rectangular world of characters, carrying the world's
/// width and height so that stepping off an edge can be refused.
#[derive(Debug, Clone, Copy, PartialEq, Eq, Structural)]
pub struct Tile {
    pub x: usize,
    pub y: usize,
    pub w: usize,
    pub h: usize,
}

impl Tile {
    /// The world width this tile was made for.
    pub open spec fn width(&self) -> usize {
        self.w
    }

    /// The world height this tile was made for.
    pub open spec fn height(&self) -> usize {
        self.h
    }

    pub fn new(world_width: usize, world_height: usize, x: usize, y: usize) -> (r: Tile)
        ensures
            r.x == x && r.y == y && r.width() == world_width && r.height() == world_height,
    {
        Tile { x, y, w: world_width, h: world_height }
    }

    /// A tile sized after `world`, whose width is the length of the first row.
    pub fn from_world(world: &Vec<Vec<char>>, x: usize, y: usize) -> (r: Tile)
        requires
            world@.len() > 0,
        ensures
            r.x == x && r.y == y && r.width() == world@[0]@.len() && r.height() == world@.len(),
    {
        Tile { x, y, w: world[0].len(), h: world.len() }
    }

    /// The character under this tile, if the position exists in `world`.
    pub fn char_at(&self, world: &Vec<Vec<char>>) -> (r: Option<char>)
        ensures
            r matches Some(c) ==> self.y < world@.len() && self.x < world@[self.y as int]@.len()
                && c == world@[self.y as int]@[self.x as int],
            r is None <==> self.y >= world@.len() || self.x >= world@[self.y as int]@.len(),
    {
        if self.y >= world.len() || self.x >= world[self.y].len() {
            None
        } else {
            Some(world[self.y][self.x])
        }
    }

    /// The decimal digit under this tile, if the position exists and holds
    /// one of the characters '0' through '9'.
    pub fn digit_at(&self, world: &Vec<Vec<char>>) -> (r: Option<u32>)
        ensures
            r matches Some(d) ==> self.y < world@.len() && self.x < world@[self.y as int]@.len()
                && '0' <= world@[self.y as int]@[self.x as int] <= '9' && d == world@[
                self.y as int]@[self.x as int] as u32 - 48,
            r is None <==> self.y >= world@.len() || self.x >= world@[self.y as int]@.len() || !(
            '0' <= world@[self.y as int]@[self.x as int] <= '9'),
    {
        if self.y >= world.len() || self.x >= world[self.y].len() {
            None
        } else {
            let c = world[self.y][self.x];
            if '0' <= c && c <= '9' {
                Some(c as u32 - 48)
            } else {
                None
            }
        }
    }

    pub fn topleft(&self) -> (r: Option<Tile>)
        ensures
            r matches Some(t) ==> self.x > 0 && self.y > 0 && t == (Tile {
                x: (self.x - 1) as usize,
                y: (self.y - 1) as usize,
                ..*self
            }),
            r is None <==> self.x == 0 || self.y == 0,
    {
        if self.x > 0 && self.y > 0 {
            return Some(Self::new(self.w, self.h, self.x - 1, self.y - 1));
        }
        None
    }

    pub open spec fn spec_top(self) -> Option<Tile> {
        if self.y > 0 {
            Some(Tile { y: (self.y - 1) as usize, ..self })
        } else {
            None
        }
    }

    pub open spec fn spec_left(self) -> Option<Tile> {
        if self.x > 0 {
            Some(Tile { x: (self.x - 1) as usize, ..self })
        } else {
            None
        }
    }

    pub open spec fn spec_right(self) -> Option<Tile> {
        if self.x + 1 < self.w {
            Some(Tile { x: (self.x + 1) as usize, ..self })
        } else {
            None
        }
    }

    pub open spec fn spec_bottom(self) -> Option<Tile> {
        if self.y + 1 < self.h {
            Some(Tile { y: (self.y + 1) as usize, ..self })
        } else {
            None
        }
    }

    pub fn top(&self) -> (r: Option<Tile>)
        ensures
            r == self.spec_top(),
    {
        if self.y > 0 {
            return Some(Self::new(self.w, self.h, self.x, self.y - 1));
        }
        None
    }

    pub fn topright(&self) -> (r: Option<Tile>)
        ensures
            r matches Some(t) ==> self.x + 1 < self.w && self.y > 0 && t == (Tile {
                x: (self.x + 1) as usize,
                y: (self.y - 1) as usize,
                ..*self
            }),
            r is None <==> self.x + 1 >= self.w || self.y == 0,
    {
        if self.x < self.w && self.w - self.x > 1 && self.y > 0 {
            return Some(Self::new(self.w, self.h, self.x + 1, self.y - 1));
        }
        None
    }

    pub fn left(&self) -> (r: Option<Tile>)
        ensures
            r == self.spec_left(),
    {
        if self.x > 0 {
            return Some(Self::new(self.w, self.h, self.x - 1, self.y));
        }
        None
    }

    pub fn right(&self) -> (r: Option<Tile>)
        ensures
            r == self.spec_right(),
    {
        if self.x < self.w && self.w - self.x > 1 {
            return Some(Self::new(self.w, self.h, self.x + 1, self.y));
        }
        None
    }

    pub fn bottomleft(&self) -> (r: Option<Tile>)
        ensures
            r matches Some(t) ==> self.x > 0 && self.y + 1 < self.h && t == (Tile {
                x: (self.x - 1) as usize,
                y: (self.y + 1) as usize,
                ..*self
            }),
            r is None <==> self.x == 0 || self.y + 1 >= self.h,
    {
        if self.x > 0 && self.y < self.h && self.h - self.y > 1 {
            return Some(Self::new(self.w, self.h, self.x - 1, self.y + 1));
        }
        None
    }

    pub fn bottom(&self) -> (r: Option<Tile>)
        ensures
            r == self.spec_bottom(),
    {
        if self.y < self.h && self.h - self.y > 1 {
            return Some(Self::new(self.w, self.h, self.x, self.y + 1));
        }
        None
    }

    pub fn bottomright(&self) -> (r: Option<Tile>)
        ensures
            r matches Some(t) ==> self.x + 1 < self.w && self.y + 1 < self.h && t == (Tile {
                x: (self.x + 1) as usize,
                y: (self.y + 1) as usize,
                ..*self
            }),
            r is None <==> self.x + 1 >= self.w || self.y + 1 >= self.h,
    {
        if self.x < self.w && self.w - self.x > 1 && self.y < self.h && self.h - self.y > 1 {
            return Some(Self::new(self.w, self.h, self.x + 1, self.y + 1));
        }
        None
    }

    /// The in-bounds orthogonal neighbours, in the order top, left, right,
    /// bottom.
    pub fn orthogonal(&self) -> (r: Vec<Tile>)
        ensures
            r@ == seq![self.spec_top(), self.spec_left(), self.spec_right(), self.spec_bottom()]
                .filter(|o: Option<Tile>| o is Some).map_values(|o: Option<Tile>| o.unwrap()),
    {
        let mut r: Vec<Tile> = Vec::new();
        let candidates = [self.top(), self.left(), self.right(), self.bottom()];
        let ghost cseq = seq![
            self.spec_top(),
            self.spec_left(),
            self.spec_right(),
            self.spec_bottom(),
        ];
        let mut i: usize = 0;
        while i < 4
            invariant
                0 <= i <= 4,
                candidates@ == cseq,
                r@ == cseq.take(i as int).filter(|o: Option<Tile>| o is Some).map_values(
                    |o: Option<Tile>| o.unwrap(),
                ),
            decreases 4 - i,
        {
            proof {
                assert(cseq.take(i + 1).drop_last() =~= cseq.take(i as int));
                reveal_with_fuel(Seq::filter, 2);
            }
            match candidates[i] {
                Some(t) => r.push(t),
                None => (),
            }
            i = i + 1;
        }
        proof {
            assert(cseq.take(4) =~= cseq);
        }
        r
    }
}

} // verus!
