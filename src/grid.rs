use vstd::prelude::*;

use crate::camp::{Camp, camp_covers, camp_in_grid, camps_overlap};
use crate::cave::CaveNode;
use crate::tiles::{Tile, Tiles, empty_tile, fresh_tile};

verus! {

/// Number of columns of every grid.
pub const WIDTH: i32 = 512;

/// Number of rows of every grid.
pub const HEIGHT: i32 = 1024;

/// Side of one tile in world units.
pub const TILE_SIDE: i32 = 35;

/// Logical row of the grass surface; every row with a smaller `y` is open Air.
pub const SURFACE_Y: i32 = 512;

/// First logical row past the dirt band.
pub const DIRT_END: i32 = 518;

/// First logical row past the stone band; hard stone reaches from here to the edge.
pub const STONE_END: i32 = 600;

/// Why a cell access was refused.
#[derive(PartialEq, Eq, Structural, Copy, Clone, Debug)]
pub enum GridError {
    /// The coordinates lie outside `[0, WIDTH) x [0, HEIGHT)`.
    OutOfRange,
}

pub open spec fn in_bounds(x: int, y: int) -> bool {
    0 <= x < WIDTH && 0 <= y < HEIGHT
}

/// Every logical coordinate of the grid.
pub open spec fn cell_domain() -> Set<(int, int)> {
    Set::new(|p: (int, int)| in_bounds(p.0, p.1))
}

/// Terrain band of logical row `y` in a freshly built grid (Air under `SURFACE_Y`).
pub open spec fn band_kind(y: int) -> Tiles {
    if y < SURFACE_Y {
        Tiles::Air
    } else if y < SURFACE_Y + 1 {
        Tiles::Grass
    } else if y < DIRT_END {
        Tiles::Dirt
    } else if y < STONE_END {
        Tiles::Stone
    } else {
        Tiles::HardStone
    }
}

/// The cell a freshly built grid holds on logical row `y`.
pub open spec fn base_tile(y: int) -> Tile {
    if y < SURFACE_Y {
        empty_tile()
    } else {
        fresh_tile(band_kind(y))
    }
}

/// What `get_tile(x, y)` returns on a grid whose cells are `cells`.
pub open spec fn tile_at(cells: Map<(int, int), Tile>, x: int, y: int) -> Result<Tile, GridError> {
    if in_bounds(x, y) {
        Ok(cells[(x, y)])
    } else {
        Err(GridError::OutOfRange)
    }
}

/// The cells after `set_tile(x, y, t)`.
pub open spec fn with_tile(cells: Map<(int, int), Tile>, x: int, y: int, t: Tile) -> Map<
    (int, int),
    Tile,
> {
    if in_bounds(x, y) {
        cells.insert((x, y), t)
    } else {
        cells
    }
}

/// Outcome of `set_tile(x, y, _)`.
pub open spec fn set_result(x: int, y: int) -> Result<(), GridError> {
    if in_bounds(x, y) {
        Ok(())
    } else {
        Err(GridError::OutOfRange)
    }
}

/// Whether `(x, y)` lies in the closed disc of radius `r` around `(cx, cy)`.
pub open spec fn in_disc(x: int, y: int, cx: int, cy: int, r: int) -> bool {
    (x - cx) * (x - cx) + (y - cy) * (y - cy) <= r * r
}

/// `cells` with every grid cell of the disc of radius `r` around `(cx, cy)` emptied.
pub open spec fn carved(cells: Map<(int, int), Tile>, cx: int, cy: int, r: int) -> Map<
    (int, int),
    Tile,
> {
    Map::new(
        |p: (int, int)| cells.dom().contains(p),
        |p: (int, int)|
            if in_bounds(p.0, p.1) && in_disc(p.0, p.1, cx, cy, r) {
                empty_tile()
            } else {
                cells[p]
            },
    )
}

/// Position in the flat storage of logical cell `(x, y)`: columns are stored one
/// after another, each from its top row (`y == HEIGHT - 1`) down.
pub open spec fn cell_index(x: int, y: int) -> int {
    x * HEIGHT + (HEIGHT - 1 - y)
}

/// The world: a dense `WIDTH x HEIGHT` array of tiles, with the caves carved into it
/// and the camps placed on it.
#[derive(Clone, Debug, PartialEq)]
pub struct Grid {
    width: i32,
    height: i32,
    tiles: Vec<Tile>,
    caves: Vec<CaveNode>,
    camps: Vec<Camp>,
}

impl View for Grid {
    type V = Map<(int, int), Tile>;

    /// The cells, by logical coordinate.
    closed spec fn view(&self) -> Map<(int, int), Tile> {
        Map::new(|p: (int, int)| in_bounds(p.0, p.1), |p: (int, int)| self.tiles@[cell_index(p.0, p.1)])
    }
}

impl Grid {
    /// The cave nodes, in the order they were made.
    pub closed spec fn cave_nodes(&self) -> Seq<CaveNode> {
        self.caves@
    }

    /// The camps, in the order they were placed.
    pub closed spec fn camp_list(&self) -> Seq<Camp> {
        self.camps@
    }

    pub closed spec fn wf(&self) -> bool {
        &&& self.width == WIDTH
        &&& self.height == HEIGHT
        &&& self.tiles@.len() == WIDTH * HEIGHT
        &&& caves_wf(self.caves@)
        &&& camps_wf(self.camps@)
    }

    /// Builds the world's terrain bands, the same in every column: empty cells on every
    /// row under `SURFACE_Y`, one row of grass, dirt up to `DIRT_END`, stone up to
    /// `STONE_END`, and hard stone from there to the last row.
    pub fn new() -> (r: Grid)
        ensures
            r.wf(),
            r@.dom() == cell_domain(),
            forall|x: int, y: int| in_bounds(x, y) ==> #[trigger] r@[(x, y)] == base_tile(y),
            r.cave_nodes().len() == 0,
            r.camp_list().len() == 0,
    {
        let mut tiles: Vec<Tile> = Vec::new();
        let mut x: i32 = 0;
        while x < WIDTH
            invariant
                0 <= x <= WIDTH,
                tiles@.len() == x * HEIGHT,
                forall|i: int, row: int|
                    0 <= i < x && 0 <= row < HEIGHT ==> #[trigger] tiles@[i * HEIGHT + row]
                        == base_tile(HEIGHT - 1 - row),
            decreases WIDTH - x,
        {
            let mut row: i32 = 0;
            while row < HEIGHT
                invariant
                    0 <= x < WIDTH,
                    0 <= row <= HEIGHT,
                    tiles@.len() == x * HEIGHT + row,
                    forall|i: int, r: int|
                        0 <= i < x && 0 <= r < HEIGHT ==> #[trigger] tiles@[i * HEIGHT + r]
                            == base_tile(HEIGHT - 1 - r),
                    forall|r: int| 0 <= r < row ==> #[trigger] tiles@[x * HEIGHT + r] == base_tile(
                        HEIGHT - 1 - r,
                    ),
                decreases HEIGHT - row,
            {
                let y: i32 = HEIGHT - 1 - row;
                let t = if y < SURFACE_Y {
                    Tile::empty()
                } else if y < SURFACE_Y + 1 {
                    Tile::new(Tiles::Grass)
                } else if y < DIRT_END {
                    Tile::new(Tiles::Dirt)
                } else if y < STONE_END {
                    Tile::new(Tiles::Stone)
                } else {
                    Tile::new(Tiles::HardStone)
                };
                tiles.push(t);
                row = row + 1;
            }
            x = x + 1;
        }
        let g = Grid { width: WIDTH, height: HEIGHT, tiles, caves: Vec::new(), camps: Vec::new() };
        assert forall|x: int, y: int| in_bounds(x, y) implies #[trigger] g@[(x, y)] == base_tile(y) by {
            assert(g.tiles@[x * HEIGHT + (HEIGHT - 1 - y)] == base_tile(HEIGHT - 1 - (HEIGHT - 1 - y)));
        }
        assert(g@.dom() =~= cell_domain());
        g
    }

    pub fn width(&self) -> (r: i32)
        requires
            self.wf(),
        ensures
            r == WIDTH,
    {
        self.width
    }

    pub fn height(&self) -> (r: i32)
        requires
            self.wf(),
        ensures
            r == HEIGHT,
    {
        self.height
    }

    /// The tile at logical `(x, y)`, where `y` grows upward.
    pub fn get_tile(&self, x: i32, y: i32) -> (r: Result<Tile, GridError>)
        requires
            self.wf(),
        ensures
            r == tile_at(self@, x as int, y as int),
    {
        if x < 0 || x >= self.width || y < 0 || y >= self.height {
            Err(GridError::OutOfRange)
        } else {
            assert(0 <= x * HEIGHT <= (WIDTH - 1) * HEIGHT) by (nonlinear_arith)
                requires
                    0 <= x < WIDTH,
            ;
            let i: usize = (x * HEIGHT + (HEIGHT - 1 - y)) as usize;
            Ok(self.tiles[i])
        }
    }

    /// Replaces the tile at logical `(x, y)`; out of range, nothing changes.
    pub fn set_tile(&mut self, x: i32, y: i32, tile: Tile) -> (r: Result<(), GridError>)
        requires
            old(self).wf(),
        ensures
            final(self).wf(),
            final(self)@ == with_tile(old(self)@, x as int, y as int, tile),
            r == set_result(x as int, y as int),
            final(self).cave_nodes() == old(self).cave_nodes(),
            final(self).camp_list() == old(self).camp_list(),
    {
        if x < 0 || x >= self.width || y < 0 || y >= self.height {
            Err(GridError::OutOfRange)
        } else {
            assert(0 <= x * HEIGHT <= (WIDTH - 1) * HEIGHT) by (nonlinear_arith)
                requires
                    0 <= x < WIDTH,
            ;
            let i: usize = (x * HEIGHT + (HEIGHT - 1 - y)) as usize;
            let ghost before = self@;
            self.tiles.set(i, tile);
            assert(self@ =~= before.insert((x as int, y as int), tile));
            Ok(())
        }
    }

    /// Tile coordinates of the world position `(world_x, world_y)`, given in whole world
    /// units: each axis divided by `TILE_SIDE`, rounded toward negative infinity, and
    /// saturated to the range of `i32`.
    pub fn get_coords(&self, world_x: i64, world_y: i64) -> (r: (i32, i32))
        ensures
            r.0 as int == saturate_i32(world_x as int / TILE_SIDE as int),
            r.1 as int == saturate_i32(world_y as int / TILE_SIDE as int),
    {
        (tile_of_world(world_x), tile_of_world(world_y))
    }
}

/// `v` limited to the range of `i32`.
pub open spec fn saturate_i32(v: int) -> int {
    if v < i32::MIN {
        i32::MIN as int
    } else if v > i32::MAX {
        i32::MAX as int
    } else {
        v
    }
}

/// `v` divided by `TILE_SIDE`, rounded down, saturated to `i32`.
fn tile_of_world(v: i64) -> (r: i32)
    ensures
        r as int == saturate_i32(v as int / TILE_SIDE as int),
{
    let q: i64 = if v >= 0 {
        v / TILE_SIDE as i64
    } else {
        let n: i128 = -(v as i128);
        let q: i128 = (n + (TILE_SIDE as i128 - 1)) / TILE_SIDE as i128;
        assert(-q == v as int / 35) by (nonlinear_arith)
            requires
                n == -(v as int),
                n > 0,
                q == (n + 34) / 35,
        ;
        assert(0 < q <= 0x7fff_ffff_ffff_ffff) by (nonlinear_arith)
            requires
                0 < n <= 0x8000_0000_0000_0000,
                q == (n + 34) / 35,
        ;
        (-q) as i64
    };
    if q < i32::MIN as i64 {
        i32::MIN
    } else if q > i32::MAX as i64 {
        i32::MAX
    } else {
        q as i32
    }
}

impl Grid {
    /// Turns every cell of the disc of radius `radius` around `(cx, cy)` that lies in the
    /// grid into an empty cell, whatever it held; the other cells keep their tiles.
    pub fn carve(&mut self, cx: i32, cy: i32, radius: i32)
        requires
            old(self).wf(),
            radius >= 0,
        ensures
            final(self).wf(),
            final(self)@.dom() == old(self)@.dom(),
            forall|x: int, y: int|
                in_bounds(x, y) ==> #[trigger] final(self)@[(x, y)] == if in_disc(
                    x,
                    y,
                    cx as int,
                    cy as int,
                    radius as int,
                ) {
                    empty_tile()
                } else {
                    old(self)@[(x, y)]
                },
            final(self)@ == carved(old(self)@, cx as int, cy as int, radius as int),
            final(self).cave_nodes() == old(self).cave_nodes(),
            final(self).camp_list() == old(self).camp_list(),
    {
        let r: i64 = radius as i64;
        let cxl: i64 = cx as i64;
        let cyl: i64 = cy as i64;
        let x_lo: i64 = if cxl - r < 0 { 0 } else { cxl - r };
        let x_hi: i64 = if cxl + r > (WIDTH - 1) as i64 { (WIDTH - 1) as i64 } else { cxl + r };
        let y_lo: i64 = if cyl - r < 0 { 0 } else { cyl - r };
        let y_hi: i64 = if cyl + r > (HEIGHT - 1) as i64 { (HEIGHT - 1) as i64 } else { cyl + r };
        assert forall|x: int, y: int| in_disc(x, y, cx as int, cy as int, r as int) implies cx - r
            <= x <= cx + r && cy - r <= y <= cy + r by {
            assert((x - cx) * (x - cx) >= 0 && (y - cy) * (y - cy) >= 0) by (nonlinear_arith);
            lemma_square_bound(x - cx, r as int);
            lemma_square_bound(y - cy, r as int);
        }
        assert(r * r <= 0x7fff_ffff * 0x7fff_ffff) by (nonlinear_arith)
            requires
                0 <= r <= 0x7fff_ffff,
        ;
        let mut x: i64 = x_lo;
        while x <= x_hi
            invariant
                self.wf(),
                self@.dom() == old(self)@.dom(),
                self.cave_nodes() == old(self).cave_nodes(),
                self.camp_list() == old(self).camp_list(),
                x_lo <= x,
                0 <= r <= 0x7fff_ffff,
                r * r <= 0x7fff_ffff * 0x7fff_ffff,
                r == radius,
                cxl == cx,
                cyl == cy,
                x_lo == if cx - r < 0 { 0 } else { cx - r },
                x_hi == if cx + r > WIDTH - 1 { WIDTH - 1 } else { cx + r },
                y_lo == if cy - r < 0 { 0 } else { cy - r },
                y_hi == if cy + r > HEIGHT - 1 { HEIGHT - 1 } else { cy + r },
                forall|x: int, y: int| in_disc(x, y, cx as int, cy as int, r as int) ==> cx - r
                    <= x <= cx + r && cy - r <= y <= cy + r,
                forall|px: int, py: int|
                    in_bounds(px, py) ==> #[trigger] self@[(px, py)] == if in_disc(
                        px,
                        py,
                        cx as int,
                        cy as int,
                        radius as int,
                    ) && px < x {
                        empty_tile()
                    } else {
                        old(self)@[(px, py)]
                    },
            decreases x_hi + 1 - x,
        {
            let mut y: i64 = y_lo;
            while y <= y_hi
                invariant
                    self.wf(),
                    self@.dom() == old(self)@.dom(),
                    self.cave_nodes() == old(self).cave_nodes(),
                    self.camp_list() == old(self).camp_list(),
                    x_lo <= x <= x_hi,
                    y_lo <= y,
                    0 <= r <= 0x7fff_ffff,
                    r * r <= 0x7fff_ffff * 0x7fff_ffff,
                    r == radius,
                    cxl == cx,
                    cyl == cy,
                    x_lo == if cx - r < 0 { 0 } else { cx - r },
                    x_hi == if cx + r > WIDTH - 1 { WIDTH - 1 } else { cx + r },
                    y_lo == if cy - r < 0 { 0 } else { cy - r },
                    y_hi == if cy + r > HEIGHT - 1 { HEIGHT - 1 } else { cy + r },
                    forall|x: int, y: int| in_disc(x, y, cx as int, cy as int, r as int) ==> cx
                        - r <= x <= cx + r && cy - r <= y <= cy + r,
                    forall|px: int, py: int|
                        in_bounds(px, py) ==> #[trigger] self@[(px, py)] == if in_disc(
                            px,
                            py,
                            cx as int,
                            cy as int,
                            radius as int,
                        ) && (px < x || (px == x && py < y)) {
                            empty_tile()
                        } else {
                            old(self)@[(px, py)]
                        },
                decreases y_hi + 1 - y,
            {
                let dx: i64 = x - cxl;
                let dy: i64 = y - cyl;
                assert(0 <= dx * dx <= r * r && 0 <= dy * dy <= r * r) by (nonlinear_arith)
                    requires
                        -r <= dx <= r,
                        -r <= dy <= r,
                ;
                if dx * dx + dy * dy <= r * r {
                    let _ = self.set_tile(x as i32, y as i32, Tile::empty());
                }
                y = y + 1;
            }
            x = x + 1;
        }
        assert(self@ =~= carved(old(self)@, cx as int, cy as int, radius as int));
    }

    /// Appends a cave node.
    pub(crate) fn add_cave_node(&mut self, node: CaveNode)
        requires
            old(self).wf(),
            node.wf_in(old(self).cave_nodes(), old(self).cave_nodes().len() as int),
        ensures
            final(self).wf(),
            final(self)@ == old(self)@,
            final(self).cave_nodes() == old(self).cave_nodes().push(node),
            final(self).camp_list() == old(self).camp_list(),
    {
        self.caves.push(node);
        assert forall|i: int| 0 <= i < self.caves@.len() implies #[trigger] self.caves@[i].wf_in(
            self.caves@,
            i,
        ) by {
            assert(old(self).caves@.len() < self.caves@.len());
            if i < old(self).caves@.len() {
                assert(old(self).caves@[i].wf_in(old(self).caves@, i));
            }
        }
    }

    /// Appends a camp whose footprint lies in the grid and meets no placed camp.
    pub(crate) fn add_camp(&mut self, camp: Camp)
        requires
            old(self).wf(),
            camp_in_grid(camp),
            forall|i: int|
                0 <= i < old(self).camp_list().len() ==> !camps_overlap(
                    #[trigger] old(self).camp_list()[i],
                    camp,
                ),
        ensures
            final(self).wf(),
            final(self)@ == old(self)@,
            final(self).cave_nodes() == old(self).cave_nodes(),
            final(self).camp_list() == old(self).camp_list().push(camp),
    {
        self.camps.push(camp);
        assert forall|i: int, j: int|
            0 <= i < self.camps@.len() && 0 <= j < self.camps@.len() && i != j implies !camps_overlap(
            #[trigger] self.camps@[i],
            #[trigger] self.camps@[j],
        ) by {
            let n = old(self).camps@.len() as int;
            if i == n {
                assert(!camps_overlap(old(self).camp_list()[j], camp));
            } else if j == n {
                assert(!camps_overlap(old(self).camp_list()[i], camp));
            } else {
                assert(!camps_overlap(old(self).camps@[i], old(self).camps@[j]));
            }
        }
    }

    /// The cave nodes, in the order they were made.
    pub fn caves(&self) -> (r: &Vec<CaveNode>)
        ensures
            r@ == self.cave_nodes(),
    {
        &self.caves
    }

    /// The camps, in the order they were placed.
    pub fn camps(&self) -> (r: &Vec<Camp>)
        ensures
            r@ == self.camp_list(),
    {
        &self.camps
    }
}

proof fn lemma_square_bound(d: int, r: int)
    requires
        r >= 0,
        d * d <= r * r,
    ensures
        -r <= d <= r,
{
    if d > r {
        assert(d * d > r * r) by (nonlinear_arith)
            requires
                d > r,
                r >= 0,
        ;
    }
    if d < -r {
        assert(d * d > r * r) by (nonlinear_arith)
            requires
                d < -r,
                r >= 0,
        ;
    }
}

/// A tile written by `set_tile` is the one read back by `get_tile` at the same place,
/// and every other cell reads as before.
pub proof fn lemma_set_get_round_trip(g: Grid, x: int, y: int, t: Tile, qx: int, qy: int)
    requires
        g.wf(),
        in_bounds(x, y),
    ensures
        tile_at(with_tile(g@, x, y, t), x, y) == Ok::<Tile, GridError>(t),
        (qx, qy) != (x, y) ==> tile_at(with_tile(g@, x, y, t), qx, qy) == tile_at(g@, qx, qy),
{
}

/// No two camps of a well-formed grid share a cell, and every camp lies in the grid.
pub proof fn lemma_camps_disjoint(g: Grid, i: int, j: int, x: int, y: int)
    requires
        g.wf(),
        0 <= i < g.camp_list().len(),
        0 <= j < g.camp_list().len(),
        i != j,
    ensures
        !(camp_covers(g.camp_list()[i], x, y) && camp_covers(g.camp_list()[j], x, y)),
        camp_covers(g.camp_list()[i], x, y) ==> in_bounds(x, y),
{
    assert(!camps_overlap(g.camps@[i], g.camps@[j]));
    assert(camp_in_grid(g.camps@[i]));
}

/// The cells of a grid are exactly those of `cell_domain()`.
pub proof fn lemma_view_domain(g: Grid)
    ensures
        g@.dom() == cell_domain(),
{
    assert(g@.dom() =~= cell_domain());
}

/// Every cave node of a well-formed grid has a positive radius.
pub proof fn lemma_cave_radius_positive(g: Grid, i: int)
    requires
        g.wf(),
        0 <= i < g.cave_nodes().len(),
    ensures
        g.cave_nodes()[i].radius > 0,
{
    assert(g.caves@[i].wf_in(g.caves@, i));
}

pub open spec fn caves_wf(nodes: Seq<CaveNode>) -> bool {
    forall|i: int| 0 <= i < nodes.len() ==> #[trigger] nodes[i].wf_in(nodes, i)
}

pub open spec fn camps_wf(camps: Seq<Camp>) -> bool {
    &&& forall|i: int| 0 <= i < camps.len() ==> camp_in_grid(#[trigger] camps[i])
    &&& forall|i: int, j: int|
        0 <= i < camps.len() && 0 <= j < camps.len() && i != j ==> !camps_overlap(
            #[trigger] camps[i],
            #[trigger] camps[j],
        )
}

} // verus!
