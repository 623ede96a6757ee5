use vstd::prelude::*;

use crate::camp::claimed;
use crate::grid::{Grid, STONE_END, cell_domain, in_bounds, lemma_view_domain};
use crate::rng::{Rng, mix64, next_state};
use crate::tiles::{Tile, Tiles, fresh_tile, is_gem, is_ore};

verus! {

/// Most cells a single cluster may ask for.
pub const MAX_CLUSTER: usize = 16;

/// Whether a cluster of `kind` may take cell `(x, y)`: the cell lies in the grid and in
/// no camp; an ore takes only Stone or HardStone, a gem only Air of the hard stone band
/// (the inside of a cave).
pub open spec fn cluster_cell_ok(
    cells: Map<(int, int), Tile>,
    camps: Seq<crate::camp::Camp>,
    kind: Tiles,
    x: int,
    y: int,
) -> bool {
    &&& in_bounds(x, y)
    &&& !claimed(camps, x, y)
    &&& if is_gem(kind) {
        cells[(x, y)].tile == Tiles::Air && y >= STONE_END
    } else {
        cells[(x, y)].tile == Tiles::Stone || cells[(x, y)].tile == Tiles::HardStone
    }
}

/// Whether two cells share a side.
pub open spec fn adjacent(a: (i32, i32), b: (i32, i32)) -> bool {
    ||| a.0 == b.0 && (a.1 - b.1 == 1 || b.1 - a.1 == 1)
    ||| a.1 == b.1 && (a.0 - b.0 == 1 || b.0 - a.0 == 1)
}

/// Whether `pts` lists cells that a cluster of `kind` may take, each once, each next to
/// the one before it.
pub open spec fn cluster_path_ok(
    cells: Map<(int, int), Tile>,
    camps: Seq<crate::camp::Camp>,
    kind: Tiles,
    pts: Seq<(i32, i32)>,
) -> bool {
    &&& forall|i: int|
        0 <= i < pts.len() ==> cluster_cell_ok(
            cells,
            camps,
            kind,
            (#[trigger] pts[i]).0 as int,
            pts[i].1 as int,
        )
    &&& forall|i: int, j: int| 0 <= i < j < pts.len() ==> #[trigger] pts[i] != #[trigger] pts[j]
    &&& forall|i: int| 0 < i < pts.len() ==> adjacent(pts[i - 1], #[trigger] pts[i])
}

/// The neighbour of `p` in direction `dir`: right, left, up, down for 0, 1, 2, 3.
pub open spec fn walk_step(p: (i32, i32), dir: u64) -> (i32, i32) {
    if dir == 0 {
        ((p.0 + 1) as i32, p.1)
    } else if dir == 1 {
        ((p.0 - 1) as i32, p.1)
    } else if dir == 2 {
        (p.0, (p.1 + 1) as i32)
    } else {
        (p.0, (p.1 - 1) as i32)
    }
}

/// The walk of `place_cluster` from the cells `pts` with generator state `state`, for at
/// most `tries` more steps: each step draws a direction and keeps the neighbour of the
/// last cell when a cluster of `kind` may take it and it is new. Gives the cells and
/// the generator state at the end.
pub open spec fn cluster_walk(
    cells: Map<(int, int), Tile>,
    camps: Seq<crate::camp::Camp>,
    kind: Tiles,
    state: u64,
    pts: Seq<(i32, i32)>,
    size: int,
    tries: int,
) -> (Seq<(i32, i32)>, u64)
    decreases tries,
{
    if tries <= 0 || pts.len() >= size || pts.len() == 0 {
        (pts, state)
    } else {
        let s = next_state(state);
        let next = walk_step(pts.last(), mix64(s) % 4);
        let grown = if cluster_cell_ok(cells, camps, kind, next.0 as int, next.1 as int)
            && !pts.contains(next) {
            pts.push(next)
        } else {
            pts
        };
        cluster_walk(cells, camps, kind, s, grown, size, tries - 1)
    }
}

/// The cells `place_cluster(rng, x, y, kind, size)` paints, and the generator state it
/// leaves: nothing when the start cell may not be taken or the walk falls short.
pub open spec fn cluster_result(
    cells: Map<(int, int), Tile>,
    camps: Seq<crate::camp::Camp>,
    kind: Tiles,
    state: u64,
    x: i32,
    y: i32,
    size: int,
) -> (Seq<(i32, i32)>, u64) {
    if !cluster_cell_ok(cells, camps, kind, x as int, y as int) {
        (Seq::empty(), state)
    } else {
        let w = cluster_walk(cells, camps, kind, state, seq![(x, y)], size, 4 * size);
        if w.0.len() == size {
            w
        } else {
            (Seq::empty(), w.1)
        }
    }
}

/// `cells` with every cell listed in `pts` replaced by `t`.
pub open spec fn paint(cells: Map<(int, int), Tile>, pts: Seq<(i32, i32)>, t: Tile) -> Map<
    (int, int),
    Tile,
> {
    Map::new(
        |p: (int, int)| cells.dom().contains(p),
        |p: (int, int)|
            if pts.contains((p.0 as i32, p.1 as i32)) {
                t
            } else {
                cells[p]
            },
    )
}

fn holds_point(pts: &Vec<(i32, i32)>, x: i32, y: i32) -> (r: bool)
    ensures
        r == pts@.contains((x, y)),
{
    let mut i: usize = 0;
    while i < pts.len()
        invariant
            i <= pts@.len(),
            forall|j: int| 0 <= j < i ==> pts@[j] != (x, y),
        decreases pts@.len() - i,
    {
        if pts[i].0 == x && pts[i].1 == y {
            assert(pts@[i as int] == (x, y));
            return true;
        }
        i = i + 1;
    }
    false
}

impl Grid {
    /// Whether a cluster of `kind` may take cell `(x, y)` now.
    pub fn cluster_cell_ok_at(&self, kind: Tiles, x: i32, y: i32) -> (r: bool)
        requires
            self.wf(),
        ensures
            r == cluster_cell_ok(self@, self.camp_list(), kind, x as int, y as int),
    {
        proof {
            lemma_view_domain(*self);
        }
        match self.get_tile(x, y) {
            Err(_) => false,
            Ok(t) => {
                if self.claimed_by_camp(x, y) {
                    false
                } else if kind.is_gem() {
                    t.tile == Tiles::Air && y >= STONE_END
                } else {
                    t.tile == Tiles::Stone || t.tile == Tiles::HardStone
                }
            },
        }
    }

    /// Grows a cluster of `size` cells of `kind` from `(x, y)` by a random walk that
    /// steps only onto cells the cluster may take, trying at most `4 * size` steps.
    /// When the walk gathers `size` cells they all become fresh `kind` tiles and are
    /// returned in walk order; otherwise nothing changes and the result is empty.
    pub fn place_cluster(
        &mut self,
        rng: &mut Rng,
        x: i32,
        y: i32,
        kind: Tiles,
        size: usize,
    ) -> (r: Vec<(i32, i32)>)
        requires
            old(self).wf(),
            is_ore(kind) || is_gem(kind),
            1 <= size <= MAX_CLUSTER,
        ensures
            final(self).wf(),
            final(self).cave_nodes() == old(self).cave_nodes(),
            final(self).camp_list() == old(self).camp_list(),
            r@.len() == 0 || r@.len() == size,
            r@.len() > 0 ==> r@[0] == (x, y),
            cluster_path_ok(old(self)@, old(self).camp_list(), kind, r@),
            (r@, final(rng).state) == cluster_result(
                old(self)@,
                old(self).camp_list(),
                kind,
                old(rng).state,
                x,
                y,
                size as int,
            ),
            final(self)@ == paint(old(self)@, r@, fresh_tile(kind)),
    {
        let mut pts: Vec<(i32, i32)> = Vec::new();
        if !self.cluster_cell_ok_at(kind, x, y) {
            assert(pts@.len() == 0);
            return pts;
        }
        pts.push((x, y));
        assert(pts@ =~= seq![(x, y)]);
        let ghost cells0 = old(self)@;
        let ghost camps0 = old(self).camp_list();
        let ghost walk = cluster_walk(cells0, camps0, kind, old(rng).state, seq![(x, y)], size as int, 4 * size as int);
        let mut cx: i32 = x;
        let mut cy: i32 = y;
        let mut tries: usize = 0;
        while pts.len() < size && tries < 4 * size
            invariant
                self.wf(),
                self@ == old(self)@,
                self.camp_list() == old(self).camp_list(),
                self.cave_nodes() == old(self).cave_nodes(),
                1 <= pts@.len() <= size,
                size <= MAX_CLUSTER,
                pts@[0] == (x, y),
                pts@[pts@.len() - 1] == (cx, cy),
                in_bounds(cx as int, cy as int),
                cluster_path_ok(old(self)@, old(self).camp_list(), kind, pts@),
                tries <= 4 * size,
                cells0 == old(self)@,
                camps0 == old(self).camp_list(),
                walk == cluster_walk(cells0, camps0, kind, old(rng).state, seq![(x, y)], size as int, 4 * size as int),
                cluster_walk(cells0, camps0, kind, rng.state, pts@, size as int, 4 * size - tries) == walk,
            decreases 4 * size - tries,
        {
            let ghost s_before = rng.state;
            let ghost pts_before = pts@;
            let dir: i64 = rng.range(0, 3);
            assert(pts_before.last() == (cx, cy));
            let (nx, ny): (i32, i32) = if dir == 0 {
                (cx + 1, cy)
            } else if dir == 1 {
                (cx - 1, cy)
            } else if dir == 2 {
                (cx, cy + 1)
            } else {
                (cx, cy - 1)
            };
            if self.cluster_cell_ok_at(kind, nx, ny) && !holds_point(&pts, nx, ny) {
                let ghost before = pts@;
                pts.push((nx, ny));
                assert forall|i: int, j: int| 0 <= i < j < pts@.len() implies #[trigger] pts@[i]
                    != #[trigger] pts@[j] by {
                    if j == before.len() {
                        assert(before[i] == pts@[i]);
                    } else {
                        assert(before[i] != before[j]);
                    }
                }
                assert forall|i: int| 0 < i < pts@.len() implies adjacent(
                    pts@[i - 1],
                    #[trigger] pts@[i],
                ) by {
                    if i < before.len() {
                        assert(adjacent(before[i - 1], before[i]));
                    }
                }
                assert forall|i: int| 0 <= i < pts@.len() implies cluster_cell_ok(
                    old(self)@,
                    old(self).camp_list(),
                    kind,
                    (#[trigger] pts@[i]).0 as int,
                    pts@[i].1 as int,
                ) by {
                    if i < before.len() {
                        assert(before[i] == pts@[i]);
                    }
                }
                cx = nx;
                cy = ny;
            }
            proof {
                let next = walk_step(pts_before.last(), mix64(rng.state) % 4);
                assert(next == (nx, ny));
            }
            tries = tries + 1;
        }
        if pts.len() < size {
            let empty: Vec<(i32, i32)> = Vec::new();
            assert(empty@.len() == 0);
            return empty;
        }
        let ghost start = self@;
        proof {
            lemma_view_domain(*self);
        }
        let mut k: usize = 0;
        while k < pts.len()
            invariant
                self.wf(),
                self.camp_list() == old(self).camp_list(),
                self.cave_nodes() == old(self).cave_nodes(),
                self@.dom() == start.dom(),
                start.dom() == cell_domain(),
                start == old(self)@,
                k <= pts@.len(),
                cluster_path_ok(old(self)@, old(self).camp_list(), kind, pts@),
                forall|px: int, py: int|
                    in_bounds(px, py) ==> #[trigger] self@[(px, py)] == if pts@.take(
                        k as int,
                    ).contains((px as i32, py as i32)) {
                        fresh_tile(kind)
                    } else {
                        start[(px, py)]
                    },
            decreases pts@.len() - k,
        {
            let (px, py) = pts[k];
            let ghost before = self@;
            assert(cluster_cell_ok(old(self)@, old(self).camp_list(), kind, pts@[k as int].0 as int, pts@[k as int].1 as int));
            let _ = self.set_tile(px, py, Tile::new(kind));
            proof {
                lemma_view_domain(*self);
            }
            assert forall|qx: int, qy: int| in_bounds(qx, qy) implies #[trigger] self@[(qx, qy)]
                == if pts@.take(k + 1).contains((qx as i32, qy as i32)) {
                fresh_tile(kind)
            } else {
                start[(qx, qy)]
            } by {
                let q = (qx as i32, qy as i32);
                if q == pts@[k as int] {
                    assert(pts@.take(k + 1)[k as int] == q);
                } else {
                    if pts@.take(k as int).contains(q) {
                        let i = choose|i: int| 0 <= i < k && #[trigger] pts@.take(k as int)[i] == q;
                        assert(pts@.take(k + 1)[i] == q);
                    }
                    if pts@.take(k + 1).contains(q) {
                        let i = choose|i: int| 0 <= i < k + 1 && #[trigger] pts@.take(k + 1)[i] == q;
                        assert(pts@.take(k as int)[i] == q);
                    }
                }
            }
            k = k + 1;
        }
        assert(pts@.take(pts@.len() as int) =~= pts@);
        assert(self@ =~= paint(old(self)@, pts@, fresh_tile(kind)));
        pts
    }
}

} // verus!
