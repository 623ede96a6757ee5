use vstd::prelude::*;

use crate::grid::{Grid, HEIGHT, WIDTH, lemma_view_domain};
use crate::tiles::Tiles;

verus! {

/// Rectangular footprint `[x, x + width) x [y, y + height)` reserved for a camp.
#[derive(PartialEq, Eq, Structural, Copy, Clone, Debug)]
pub struct Camp {
    pub x: i32,
    pub y: i32,
    pub width: i32,
    pub height: i32,
}

pub open spec fn camp_covers(c: Camp, x: int, y: int) -> bool {
    c.x <= x < c.x + c.width && c.y <= y < c.y + c.height
}

/// A non-empty footprint lying wholly inside the grid.
pub open spec fn camp_in_grid(c: Camp) -> bool {
    &&& c.width > 0
    &&& c.height > 0
    &&& 0 <= c.x
    &&& c.x + c.width <= WIDTH
    &&& 0 <= c.y
    &&& c.y + c.height <= HEIGHT
}

pub open spec fn camps_overlap(a: Camp, b: Camp) -> bool {
    &&& a.x < b.x + b.width
    &&& b.x < a.x + a.width
    &&& a.y < b.y + b.height
    &&& b.y < a.y + a.height
}

/// Whether some camp of `camps` covers `(x, y)`.
pub open spec fn claimed(camps: Seq<Camp>, x: int, y: int) -> bool {
    exists|i: int| 0 <= i < camps.len() && camp_covers(#[trigger] camps[i], x, y)
}

/// Whether every cell of the footprint holds Air in `cells`.
pub open spec fn footprint_open(cells: Map<(int, int), crate::tiles::Tile>, c: Camp) -> bool {
    forall|x: int, y: int| camp_covers(c, x, y) ==> (#[trigger] cells[(x, y)]).tile == Tiles::Air
}

/// Whether `place_camp` accepts `c` on a grid with these cells and camps.
pub open spec fn camp_fits(cells: Map<(int, int), crate::tiles::Tile>, camps: Seq<Camp>, c: Camp) -> bool {
    &&& camp_in_grid(c)
    &&& forall|i: int| 0 <= i < camps.len() ==> !camps_overlap(#[trigger] camps[i], c)
    &&& footprint_open(cells, c)
}

impl Grid {
    /// Whether a placed camp covers `(x, y)`.
    pub fn claimed_by_camp(&self, x: i32, y: i32) -> (r: bool)
        ensures
            r == claimed(self.camp_list(), x as int, y as int),
    {
        let camps = self.camps();
        let mut i: usize = 0;
        while i < camps.len()
            invariant
                camps@ == self.camp_list(),
                i <= camps@.len(),
                forall|j: int| 0 <= j < i ==> !camp_covers(#[trigger] camps@[j], x as int, y as int),
            decreases camps@.len() - i,
        {
            let c = camps[i];
            if c.x as i64 <= x as i64 && (x as i64) < c.x as i64 + c.width as i64
                && c.y as i64 <= y as i64 && (y as i64) < c.y as i64 + c.height as i64
            {
                assert(camp_covers(camps@[i as int], x as int, y as int));
                return true;
            }
            i = i + 1;
        }
        false
    }

    /// Places the camp `c` when its footprint lies in the grid, meets no placed camp and
    /// covers only Air (the open rows next to the surface, or a carved cave); otherwise
    /// nothing changes. Returns whether it was placed.
    pub fn place_camp(&mut self, c: Camp) -> (r: bool)
        requires
            old(self).wf(),
        ensures
            final(self).wf(),
            r == camp_fits(old(self)@, old(self).camp_list(), c),
            final(self)@ == old(self)@,
            final(self).cave_nodes() == old(self).cave_nodes(),
            final(self).camp_list() == if r {
                old(self).camp_list().push(c)
            } else {
                old(self).camp_list()
            },
    {
        if !(c.width > 0 && c.height > 0 && 0 <= c.x && c.x as i64 + c.width as i64 <= WIDTH as i64
            && 0 <= c.y && c.y as i64 + c.height as i64 <= HEIGHT as i64) {
            return false;
        }
        let camps = self.camps();
        let mut i: usize = 0;
        while i < camps.len()
            invariant
                camps@ == self.camp_list(),
                self.wf(),
                self@ == old(self)@,
                self.camp_list() == old(self).camp_list(),
                self.cave_nodes() == old(self).cave_nodes(),
                camp_in_grid(c),
                i <= camps@.len(),
                forall|j: int| 0 <= j < i ==> !camps_overlap(#[trigger] camps@[j], c),
            decreases camps@.len() - i,
        {
            let o = camps[i];
            if (o.x as i64) < c.x as i64 + c.width as i64 && (c.x as i64) < o.x as i64
                + o.width as i64 && (o.y as i64) < c.y as i64 + c.height as i64 && (c.y as i64)
                < o.y as i64 + o.height as i64 {
                return false;
            }
            i = i + 1;
        }
        proof {
            lemma_view_domain(*self);
        }
        let mut x: i32 = c.x;
        while x < c.x + c.width
            invariant
                self.wf(),
                self@ == old(self)@,
                self.camp_list() == old(self).camp_list(),
                self.cave_nodes() == old(self).cave_nodes(),
                camp_in_grid(c),
                c.x <= x <= c.x + c.width,
                forall|px: int, py: int|
                    c.x <= px < x && c.y <= py < c.y + c.height ==> (#[trigger] self@[(
                        px,
                        py,
                    )]).tile == Tiles::Air,
            decreases c.x + c.width - x,
        {
            let mut y: i32 = c.y;
            while y < c.y + c.height
                invariant
                    self.wf(),
                    self@ == old(self)@,
                    self.camp_list() == old(self).camp_list(),
                    self.cave_nodes() == old(self).cave_nodes(),
                    camp_in_grid(c),
                    c.x <= x < c.x + c.width,
                    c.y <= y <= c.y + c.height,
                    forall|px: int, py: int|
                        c.x <= px < x && c.y <= py < c.y + c.height ==> (#[trigger] self@[(
                            px,
                            py,
                        )]).tile == Tiles::Air,
                    forall|py: int|
                        c.y <= py < y ==> (#[trigger] self@[(x as int, py)]).tile == Tiles::Air,
                decreases c.y + c.height - y,
            {
                proof {
                    lemma_view_domain(*self);
                }
                let t = self.get_tile(x, y);
                match t {
                    Ok(t) => {
                        if t.tile != Tiles::Air {
                            return false;
                        }
                    },
                    Err(_) => {
                        return false;
                    },
                }
                y = y + 1;
            }
            x = x + 1;
        }
        self.add_camp(c);
        true
    }
}

} // verus!
