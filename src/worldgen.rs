use vstd::prelude::*;

use crate::camp::{Camp, camp_fits, claimed, footprint_open};
use crate::cave::{CaveNode, branch_ok, cave_grow, node_carved, nodes_carved_from, only_emptied};
use crate::cluster::{cluster_cell_ok, cluster_path_ok, cluster_result, paint};
use crate::grid::{
    DIRT_END,
    Grid,
    HEIGHT,
    STONE_END,
    SURFACE_Y,
    WIDTH,
    cell_domain,
    in_bounds,
    in_disc,
    lemma_view_domain,
};
use crate::rng::{Rng, draw_in, mix64, next_state};
use crate::tiles::{Tile, Tiles, empty_tile, fresh_tile, is_gem, is_ore};

verus! {

/// Ore cluster attempts per world.
pub const ORE_CLUSTERS: u32 = 900;

/// Caves per world.
pub const CAVE_COUNT: u32 = 14;

/// Levels of branching below each cave's root.
pub const CAVE_DEPTH: u32 = 4;

/// Gem cluster attempts per world.
pub const GEM_CLUSTERS: u32 = 120;

/// Camp placement attempts per world.
pub const CAMP_ATTEMPTS: u32 = 64;

/// Camps per world, at most.
pub const CAMP_COUNT: usize = 8;

/// The ore kind drawn as `pick`.
pub open spec fn ore_kind(pick: int) -> Tiles {
    if pick == 0 {
        Tiles::IronOre
    } else if pick == 1 {
        Tiles::GoldOre
    } else {
        Tiles::RuneOre
    }
}

/// The gem kind drawn as `pick`.
pub open spec fn gem_kind(pick: int) -> Tiles {
    if pick == 0 {
        Tiles::Ruby
    } else if pick == 1 {
        Tiles::Emerald
    } else if pick == 2 {
        Tiles::Sapphire
    } else {
        Tiles::Diamond
    }
}

/// One ore cluster attempt from generator state `state`: a start cell anywhere in
/// the stone and hard stone bands, a kind, a size of 2 to 5. Gives the cells and the
/// generator state after it.
pub open spec fn ore_attempt(cells: Map<(int, int), Tile>, camps: Seq<Camp>, state: u64) -> (
    Map<(int, int), Tile>,
    u64,
) {
    let x = draw_in(state, 0, WIDTH - 1);
    let s1 = next_state(state);
    let y = draw_in(s1, DIRT_END as int, HEIGHT - 1);
    let s2 = next_state(s1);
    let kind = ore_kind(draw_in(s2, 0, 2));
    let s3 = next_state(s2);
    let size = draw_in(s3, 2, 5);
    let c = cluster_result(cells, camps, kind, next_state(s3), x as i32, y as i32, size);
    (paint(cells, c.0, fresh_tile(kind)), c.1)
}

/// `n` ore cluster attempts, one after another.
pub open spec fn ore_pass(cells: Map<(int, int), Tile>, camps: Seq<Camp>, state: u64, n: nat) -> (
    Map<(int, int), Tile>,
    u64,
)
    decreases n,
{
    if n == 0 {
        (cells, state)
    } else {
        let a = ore_attempt(cells, camps, state);
        ore_pass(a.0, camps, a.1, (n - 1) as nat)
    }
}

/// One gem cluster attempt: a cave node drawn from `nodes`; when its centre lies in
/// the hard stone band, a kind and a size of 5 to 7, grown from that centre.
pub open spec fn gem_attempt(
    cells: Map<(int, int), Tile>,
    nodes: Seq<CaveNode>,
    camps: Seq<Camp>,
    state: u64,
) -> (Map<(int, int), Tile>, u64) {
    if nodes.len() == 0 {
        (cells, state)
    } else {
        let s1 = next_state(state);
        let node = nodes[(mix64(s1) % (nodes.len() as u64)) as int];
        if node.y < STONE_END {
            (cells, s1)
        } else {
            let kind = gem_kind(draw_in(s1, 0, 3));
            let s2 = next_state(s1);
            let size = draw_in(s2, 5, 7);
            let c = cluster_result(cells, camps, kind, next_state(s2), node.x, node.y, size);
            (paint(cells, c.0, fresh_tile(kind)), c.1)
        }
    }
}

/// `n` gem cluster attempts, one after another.
pub open spec fn gem_pass(
    cells: Map<(int, int), Tile>,
    nodes: Seq<CaveNode>,
    camps: Seq<Camp>,
    state: u64,
    n: nat,
) -> (Map<(int, int), Tile>, u64)
    decreases n,
{
    if n == 0 {
        (cells, state)
    } else {
        let a = gem_attempt(cells, nodes, camps, state);
        gem_pass(a.0, nodes, camps, a.1, (n - 1) as nat)
    }
}

/// The footprint tried by camp attempt number `n` from generator state `state`: 4 to 8
/// wide, 3 to 5 high, resting on the surface for even `n` and in the hard stone band
/// for odd `n`. Gives the footprint and the generator state after it.
pub open spec fn camp_candidate(state: u64, n: int) -> (Camp, u64) {
    let w = draw_in(state, 4, 8);
    let s1 = next_state(state);
    let h = draw_in(s1, 3, 5);
    let s2 = next_state(s1);
    let x = draw_in(s2, 0, WIDTH - w);
    let s3 = next_state(s2);
    let y = if n % 2 == 0 {
        SURFACE_Y - h
    } else {
        draw_in(s3, STONE_END as int, HEIGHT - h)
    };
    let s4 = if n % 2 == 0 {
        s3
    } else {
        next_state(s3)
    };
    (Camp { x: x as i32, y: y as i32, width: w as i32, height: h as i32 }, s4)
}

/// The camps after the attempts from number `n` on, with `placed` camps placed so far:
/// each attempt keeps its footprint when `place_camp` accepts it, until
/// `CAMP_ATTEMPTS` attempts are made or `CAMP_COUNT` camps placed.
pub open spec fn camp_pass(
    cells: Map<(int, int), Tile>,
    camps: Seq<Camp>,
    state: u64,
    n: int,
    placed: int,
) -> (Seq<Camp>, u64)
    decreases CAMP_ATTEMPTS - n,
{
    if n >= CAMP_ATTEMPTS || placed >= CAMP_COUNT {
        (camps, state)
    } else {
        let cand = camp_candidate(state, n);
        if camp_fits(cells, camps, cand.0) {
            camp_pass(cells, camps.push(cand.0), cand.1, n + 1, placed + 1)
        } else {
            camp_pass(cells, camps, cand.1, n + 1, placed)
        }
    }
}

/// `n` cave trees, each from a root drawn anywhere in the stone and hard stone bands
/// with a radius of 4 to 8, grown `CAVE_DEPTH` levels.
pub open spec fn caves_pass(cells: Map<(int, int), Tile>, nodes: Seq<CaveNode>, state: u64, n: nat) -> (
    Map<(int, int), Tile>,
    Seq<CaveNode>,
    u64,
)
    decreases n,
{
    if n == 0 {
        (cells, nodes, state)
    } else {
        let x = draw_in(state, 0, WIDTH - 1);
        let s1 = next_state(state);
        let y = draw_in(s1, DIRT_END + 8, HEIGHT - 1);
        let s2 = next_state(s1);
        let r = draw_in(s2, 4, 8);
        let g = cave_grow(cells, nodes, next_state(s2), x as i32, y as i32, r as i32, None, CAVE_DEPTH as int);
        caves_pass(g.0, g.1, g.2, (n - 1) as nat)
    }
}

/// The cells, cave nodes and camps that `populate(seed)` leaves on a grid with `cells`,
/// `nodes` and `camps`.
pub open spec fn world_of(
    cells: Map<(int, int), Tile>,
    nodes: Seq<CaveNode>,
    camps: Seq<Camp>,
    seed: u64,
) -> (Map<(int, int), Tile>, Seq<CaveNode>, Seq<Camp>) {
    let o = ore_pass(cells, camps, seed, ORE_CLUSTERS as nat);
    let c = caves_pass(o.0, nodes, o.1, CAVE_COUNT as nat);
    let g = gem_pass(c.0, c.1, camps, c.2, GEM_CLUSTERS as nat);
    let p = camp_pass(g.0, camps, g.1, 0, 0);
    (g.0, c.1, p.0)
}

/// Every cell of `after` is the one of `before`, or an ore on a cell that held Stone or
/// HardStone and lies in no camp.
pub open spec fn ore_change(before: Map<(int, int), Tile>, after: Map<(int, int), Tile>, camps: Seq<Camp>) -> bool {
    &&& after.dom() == before.dom()
    &&& forall|x: int, y: int|
        in_bounds(x, y) ==> #[trigger] after[(x, y)] == before[(x, y)] || (is_ore(
            after[(x, y)].tile,
        ) && (before[(x, y)].tile == Tiles::Stone || before[(x, y)].tile == Tiles::HardStone)
            && !claimed(camps, x, y))
}

/// Every cell of `after` is the one of `before`, or a gem on a cell of the hard stone
/// band that held Air and lies in no camp.
pub open spec fn gem_change(before: Map<(int, int), Tile>, after: Map<(int, int), Tile>, camps: Seq<Camp>) -> bool {
    &&& after.dom() == before.dom()
    &&& forall|x: int, y: int|
        in_bounds(x, y) ==> #[trigger] after[(x, y)] == before[(x, y)] || (is_gem(
            after[(x, y)].tile,
        ) && before[(x, y)].tile == Tiles::Air && y >= STONE_END && !claimed(camps, x, y))
}

/// Every cell of `after` is the one of `before`, an empty cell, an ore on a cell that
/// held Stone or HardStone, or a gem in the hard stone band; ores and gems lie in no
/// camp of `camps`.
pub open spec fn world_change(before: Map<(int, int), Tile>, after: Map<(int, int), Tile>, camps: Seq<Camp>) -> bool {
    &&& after.dom() == before.dom()
    &&& forall|x: int, y: int|
        in_bounds(x, y) ==> {
            let t = #[trigger] after[(x, y)];
            ||| t == before[(x, y)]
            ||| t == empty_tile()
            ||| is_ore(t.tile) && (before[(x, y)].tile == Tiles::Stone || before[(x, y)].tile
                == Tiles::HardStone) && !claimed(camps, x, y)
            ||| is_gem(t.tile) && y >= STONE_END && !claimed(camps, x, y)
        }
}

/// Every grid cell of the discs of `nodes[from..]` holds Air or a gem.
pub open spec fn caves_open(cells: Map<(int, int), Tile>, nodes: Seq<CaveNode>, from: int) -> bool {
    forall|i: int, x: int, y: int|
        #![trigger nodes[i], cells[(x, y)]]
        from <= i < nodes.len() && in_bounds(x, y) && in_disc(
            x,
            y,
            nodes[i].x as int,
            nodes[i].y as int,
            nodes[i].radius as int,
        ) ==> cells[(x, y)].tile == Tiles::Air || is_gem(cells[(x, y)].tile)
}

/// Every footprint of `camps[from..]` covers only Air in `cells`.
pub open spec fn camps_open(cells: Map<(int, int), Tile>, camps: Seq<Camp>, from: int) -> bool {
    forall|i: int| from <= i < camps.len() ==> footprint_open(cells, #[trigger] camps[i])
}

/// A cluster paints only cells it may take.
proof fn lemma_cluster_change(
    before: Map<(int, int), Tile>,
    camps: Seq<Camp>,
    kind: Tiles,
    pts: Seq<(i32, i32)>,
)
    requires
        before.dom() == cell_domain(),
        cluster_path_ok(before, camps, kind, pts),
    ensures
        paint(before, pts, fresh_tile(kind)).dom() == before.dom(),
        forall|x: int, y: int|
            in_bounds(x, y) ==> #[trigger] paint(before, pts, fresh_tile(kind))[(x, y)] == before[(
                x,
                y,
            )] || (paint(before, pts, fresh_tile(kind))[(x, y)] == fresh_tile(kind)
                && cluster_cell_ok(before, camps, kind, x, y)),
{
    let after = paint(before, pts, fresh_tile(kind));
    assert(after.dom() =~= before.dom());
    assert forall|x: int, y: int| in_bounds(x, y) implies #[trigger] after[(x, y)] == before[(x, y)]
        || (after[(x, y)] == fresh_tile(kind) && cluster_cell_ok(before, camps, kind, x, y)) by {
        let q = (x as i32, y as i32);
        if pts.contains(q) {
            let i = choose|i: int| 0 <= i < pts.len() && #[trigger] pts[i] == q;
            assert(cluster_cell_ok(before, camps, kind, pts[i].0 as int, pts[i].1 as int));
        }
    }
}

/// Nodes that were carved stay carved when cells are only emptied.
proof fn lemma_carved_kept(
    before: Map<(int, int), Tile>,
    after: Map<(int, int), Tile>,
    nodes: Seq<CaveNode>,
    from: int,
)
    requires
        nodes_carved_from(before, nodes, from),
        only_emptied(before, after),
    ensures
        nodes_carved_from(after, nodes, from),
{
    assert forall|i: int| from <= i < nodes.len() implies node_carved(after, #[trigger] nodes[i]) by {
        assert(node_carved(before, nodes[i]));
        assert forall|x: int, y: int|
            in_bounds(x, y) && in_disc(
                x,
                y,
                nodes[i].x as int,
                nodes[i].y as int,
                nodes[i].radius as int,
            ) implies #[trigger] after[(x, y)] == empty_tile() by {
            assert(before[(x, y)] == empty_tile());
        }
    }
}

proof fn lemma_ore_trans(
    a: Map<(int, int), Tile>,
    b: Map<(int, int), Tile>,
    c: Map<(int, int), Tile>,
    camps: Seq<Camp>,
)
    requires
        ore_change(a, b, camps),
        ore_change(b, c, camps),
    ensures
        ore_change(a, c, camps),
{
    assert forall|x: int, y: int| in_bounds(x, y) implies #[trigger] c[(x, y)] == a[(x, y)] || (
    is_ore(c[(x, y)].tile) && (a[(x, y)].tile == Tiles::Stone || a[(x, y)].tile
        == Tiles::HardStone) && !claimed(camps, x, y)) by {
        assert(b[(x, y)] == a[(x, y)] || is_ore(b[(x, y)].tile));
        assert(c[(x, y)] == b[(x, y)] || is_ore(c[(x, y)].tile));
    }
}

proof fn lemma_gem_trans(
    a: Map<(int, int), Tile>,
    b: Map<(int, int), Tile>,
    c: Map<(int, int), Tile>,
    camps: Seq<Camp>,
)
    requires
        gem_change(a, b, camps),
        gem_change(b, c, camps),
    ensures
        gem_change(a, c, camps),
{
    assert forall|x: int, y: int| in_bounds(x, y) implies #[trigger] c[(x, y)] == a[(x, y)] || (
    is_gem(c[(x, y)].tile) && a[(x, y)].tile == Tiles::Air && y >= STONE_END && !claimed(
        camps,
        x,
        y,
    )) by {
        assert(b[(x, y)] == a[(x, y)] || is_gem(b[(x, y)].tile));
        assert(c[(x, y)] == b[(x, y)] || is_gem(c[(x, y)].tile));
    }
}

impl Grid {
    /// Makes `ORE_CLUSTERS` ore cluster attempts (`ore_attempt`), from the state of `rng`.
    pub fn scatter_ores(&mut self, rng: &mut Rng)
        requires
            old(self).wf(),
        ensures
            final(self).wf(),
            final(self).cave_nodes() == old(self).cave_nodes(),
            final(self).camp_list() == old(self).camp_list(),
            (final(self)@, final(rng).state) == ore_pass(
                old(self)@,
                old(self).camp_list(),
                old(rng).state,
                ORE_CLUSTERS as nat,
            ),
            ore_change(old(self)@, final(self)@, old(self).camp_list()),
    {
        proof {
            lemma_view_domain(*self);
        }
        let ghost camps = old(self).camp_list();
        let mut n: u32 = 0;
        while n < ORE_CLUSTERS
            invariant
                self.wf(),
                self.cave_nodes() == old(self).cave_nodes(),
                self.camp_list() == camps,
                camps == old(self).camp_list(),
                n <= ORE_CLUSTERS,
                ore_pass(self@, camps, rng.state, (ORE_CLUSTERS - n) as nat) == ore_pass(
                    old(self)@,
                    camps,
                    old(rng).state,
                    ORE_CLUSTERS as nat,
                ),
                ore_change(old(self)@, self@, camps),
                old(self)@.dom() == cell_domain(),
            decreases ORE_CLUSTERS - n,
        {
            let ghost before = self@;
            let ghost s0 = rng.state;
            let x: i64 = rng.range(0, (WIDTH - 1) as i64);
            let y: i64 = rng.range(DIRT_END as i64, (HEIGHT - 1) as i64);
            let pick: i64 = rng.range(0, 2);
            let kind = if pick == 0 {
                Tiles::IronOre
            } else if pick == 1 {
                Tiles::GoldOre
            } else {
                Tiles::RuneOre
            };
            let size: i64 = rng.range(2, 5);
            proof {
                lemma_view_domain(*self);
            }
            let pts = self.place_cluster(rng, x as i32, y as i32, kind, size as usize);
            proof {
                assert(kind == ore_kind(pick as int));
                assert((self@, rng.state) == ore_attempt(before, camps, s0));
                lemma_cluster_change(before, camps, kind, pts@);
                lemma_view_domain(*self);
                assert(ore_change(before, self@, camps));
                lemma_ore_trans(old(self)@, before, self@, camps);
            }
            n = n + 1;
        }
    }

    /// Grows `CAVE_COUNT` cave trees from random seeds in the stone and hard stone bands,
    /// each root with a radius of 4 to 8. Every node made is carved when this returns.
    pub fn carve_caves(&mut self, rng: &mut Rng)
        requires
            old(self).wf(),
        ensures
            final(self).wf(),
            final(self).camp_list() == old(self).camp_list(),
            final(self).cave_nodes().len() >= old(self).cave_nodes().len() + CAVE_COUNT,
            final(self).cave_nodes().subrange(0, old(self).cave_nodes().len() as int)
                == old(self).cave_nodes(),
            nodes_carved_from(
                final(self)@,
                final(self).cave_nodes(),
                old(self).cave_nodes().len() as int,
            ),
            forall|i: int|
                old(self).cave_nodes().len() <= i < final(self).cave_nodes().len() ==> {
                    let node = #[trigger] final(self).cave_nodes()[i];
                    match node.parent {
                        None => DIRT_END + 8 <= node.y < HEIGHT && 4 <= node.radius <= 8,
                        Some(_) => branch_ok(
                            final(self).cave_nodes(),
                            old(self).cave_nodes().len() as int,
                            i,
                        ),
                    }
                },
            only_emptied(old(self)@, final(self)@),
            (final(self)@, final(self).cave_nodes(), final(rng).state) == caves_pass(
                old(self)@,
                old(self).cave_nodes(),
                old(rng).state,
                CAVE_COUNT as nat,
            ),
    {
        let ghost base = old(self).cave_nodes().len() as int;
        let mut n: u32 = 0;
        while n < CAVE_COUNT
            invariant
                self.wf(),
                self.camp_list() == old(self).camp_list(),
                self.cave_nodes().len() >= base + n,
                n <= CAVE_COUNT,
                base == old(self).cave_nodes().len(),
                self.cave_nodes().subrange(0, base) == old(self).cave_nodes(),
                nodes_carved_from(self@, self.cave_nodes(), base),
                forall|i: int|
                    base <= i < self.cave_nodes().len() ==> {
                        let node = #[trigger] self.cave_nodes()[i];
                        match node.parent {
                            None => DIRT_END + 8 <= node.y < HEIGHT && 4 <= node.radius <= 8,
                            Some(_) => branch_ok(self.cave_nodes(), base, i),
                        }
                    },
                only_emptied(old(self)@, self@),
                caves_pass(self@, self.cave_nodes(), rng.state, (CAVE_COUNT - n) as nat) == caves_pass(
                    old(self)@,
                    old(self).cave_nodes(),
                    old(rng).state,
                    CAVE_COUNT as nat,
                ),
            decreases CAVE_COUNT - n,
        {
            let x: i64 = rng.range(0, (WIDTH - 1) as i64);
            let y: i64 = rng.range((DIRT_END + 8) as i64, (HEIGHT - 1) as i64);
            let radius: i64 = rng.range(4, 8);
            let ghost before = self@;
            let ghost nodes_before = self.cave_nodes();
            self.grow_cave(rng, x as i32, y as i32, radius as i32, None, CAVE_DEPTH);
            proof {
                let n0 = nodes_before.len() as int;
                let nodes = self.cave_nodes();
                lemma_carved_kept(before, self@, nodes_before, base);
                assert(nodes.subrange(0, base) =~= nodes.subrange(0, n0).subrange(0, base));
                assert forall|i: int| base <= i < nodes.len() implies node_carved(
                    self@,
                    #[trigger] nodes[i],
                ) by {
                    if i < n0 {
                        assert(nodes[i] == nodes.subrange(0, n0)[i]);
                        assert(node_carved(self@, nodes_before[i]));
                    }
                }
                assert forall|i: int| base <= i < nodes.len() implies {
                    let node = #[trigger] nodes[i];
                    match node.parent {
                        None => DIRT_END + 8 <= node.y < HEIGHT && 4 <= node.radius <= 8,
                        Some(_) => branch_ok(nodes, base, i),
                    }
                } by {
                    if i < n0 {
                        assert(nodes[i] == nodes.subrange(0, n0)[i]);
                        let node = nodes_before[i];
                        if node.parent.is_some() {
                            assert(branch_ok(nodes_before, base, i));
                            let p = node.parent.unwrap() as int;
                            assert(nodes[p] == nodes.subrange(0, n0)[p]);
                        }
                    } else if i > n0 {
                        assert(branch_ok(nodes, n0, i));
                    }
                }
                assert forall|x: int, y: int| in_bounds(x, y) implies #[trigger] self@[(x, y)]
                    == old(self)@[(x, y)] || self@[(x, y)] == empty_tile() by {
                    assert(before[(x, y)] == old(self)@[(x, y)] || before[(x, y)] == empty_tile());
                }
            }
            n = n + 1;
        }
    }

    /// Makes `GEM_CLUSTERS` gem cluster attempts (`gem_attempt`), from the state of `rng`.
    /// Gems take only Air of the hard stone band, so they line caves.
    pub fn scatter_gems(&mut self, rng: &mut Rng)
        requires
            old(self).wf(),
        ensures
            final(self).wf(),
            final(self).cave_nodes() == old(self).cave_nodes(),
            final(self).camp_list() == old(self).camp_list(),
            (final(self)@, final(rng).state) == gem_pass(
                old(self)@,
                old(self).cave_nodes(),
                old(self).camp_list(),
                old(rng).state,
                GEM_CLUSTERS as nat,
            ),
            gem_change(old(self)@, final(self)@, old(self).camp_list()),
    {
        proof {
            lemma_view_domain(*self);
        }
        let ghost camps = old(self).camp_list();
        let ghost nodes = old(self).cave_nodes();
        let mut n: u32 = 0;
        while n < GEM_CLUSTERS
            invariant
                self.wf(),
                self.cave_nodes() == nodes,
                nodes == old(self).cave_nodes(),
                self.camp_list() == camps,
                camps == old(self).camp_list(),
                n <= GEM_CLUSTERS,
                gem_pass(self@, nodes, camps, rng.state, (GEM_CLUSTERS - n) as nat) == gem_pass(
                    old(self)@,
                    nodes,
                    camps,
                    old(rng).state,
                    GEM_CLUSTERS as nat,
                ),
                gem_change(old(self)@, self@, camps),
                old(self)@.dom() == cell_domain(),
            decreases GEM_CLUSTERS - n,
        {
            let ghost before = self@;
            self.gem_cluster_step(rng);
            proof {
                lemma_gem_trans(old(self)@, before, self@, camps);
            }
            n = n + 1;
        }
    }

    /// One gem cluster attempt.
    fn gem_cluster_step(&mut self, rng: &mut Rng)
        requires
            old(self).wf(),
        ensures
            final(self).wf(),
            final(self).cave_nodes() == old(self).cave_nodes(),
            final(self).camp_list() == old(self).camp_list(),
            (final(self)@, final(rng).state) == gem_attempt(
                old(self)@,
                old(self).cave_nodes(),
                old(self).camp_list(),
                old(rng).state,
            ),
            gem_change(old(self)@, final(self)@, old(self).camp_list()),
    {
        proof {
            lemma_view_domain(*self);
        }
        let ghost before = self@;
        let ghost camps = self.camp_list();
        let count: usize = self.caves().len();
        if count > 0 {
            let at: u64 = rng.next_u64() % (count as u64);
            let node = self.caves()[at as usize];
            if node.y >= STONE_END {
                let pick: i64 = rng.range(0, 3);
                let kind = if pick == 0 {
                    Tiles::Ruby
                } else if pick == 1 {
                    Tiles::Emerald
                } else if pick == 2 {
                    Tiles::Sapphire
                } else {
                    Tiles::Diamond
                };
                let size: i64 = rng.range(5, 7);
                let pts = self.place_cluster(rng, node.x, node.y, kind, size as usize);
                proof {
                    assert(kind == gem_kind(pick as int));
                    lemma_cluster_change(before, camps, kind, pts@);
                    lemma_view_domain(*self);
                }
            }
        }
    }

    /// Makes camp attempts (`camp_candidate`) from the state of `rng` and places each
    /// footprint that `place_camp` accepts, until `CAMP_ATTEMPTS` attempts are made or
    /// `CAMP_COUNT` camps placed (`camp_pass`). No cell changes.
    pub fn place_camps(&mut self, rng: &mut Rng)
        requires
            old(self).wf(),
        ensures
            final(self).wf(),
            final(self)@ == old(self)@,
            final(self).cave_nodes() == old(self).cave_nodes(),
            (final(self).camp_list(), final(rng).state) == camp_pass(
                old(self)@,
                old(self).camp_list(),
                old(rng).state,
                0,
                0,
            ),
            final(self).camp_list().len() >= old(self).camp_list().len(),
            final(self).camp_list().subrange(0, old(self).camp_list().len() as int)
                == old(self).camp_list(),
            camps_open(final(self)@, final(self).camp_list(), old(self).camp_list().len() as int),
    {
        let ghost base = old(self).camp_list().len() as int;
        let mut placed: usize = 0;
        let mut n: u32 = 0;
        while n < CAMP_ATTEMPTS && placed < CAMP_COUNT
            invariant
                self.wf(),
                self@ == old(self)@,
                self.cave_nodes() == old(self).cave_nodes(),
                n <= CAMP_ATTEMPTS,
                camp_pass(self@, self.camp_list(), rng.state, n as int, placed as int) == camp_pass(
                    old(self)@,
                    old(self).camp_list(),
                    old(rng).state,
                    0,
                    0,
                ),
                base == old(self).camp_list().len(),
                self.camp_list().len() >= base,
                self.camp_list().subrange(0, base) == old(self).camp_list(),
                camps_open(self@, self.camp_list(), base),
            decreases CAMP_ATTEMPTS - n,
        {
            let ghost s0 = rng.state;
            let w: i64 = rng.range(4, 8);
            let h: i64 = rng.range(3, 5);
            let x: i64 = rng.range(0, WIDTH as i64 - w);
            let y: i64 = if n % 2 == 0 {
                SURFACE_Y as i64 - h
            } else {
                rng.range(STONE_END as i64, HEIGHT as i64 - h)
            };
            let c = Camp { x: x as i32, y: y as i32, width: w as i32, height: h as i32 };
            assert((c, rng.state) == camp_candidate(s0, n as int));
            let ghost camps_before = self.camp_list();
            if self.place_camp(c) {
                placed = placed + 1;
                proof {
                    let camps = self.camp_list();
                    assert(camps.subrange(0, base) =~= camps_before.subrange(0, base));
                    assert forall|i: int| base <= i < camps.len() implies footprint_open(
                        self@,
                        #[trigger] camps[i],
                    ) by {
                        if i < camps_before.len() {
                            assert(camps[i] == camps_before[i]);
                        }
                    }
                }
            }
            n = n + 1;
        }
    }

    /// Decorates the terrain from `seed`: ore clusters, then caves, then gem clusters
    /// inside the caves, then camps. The result depends on the grid and the seed alone
    /// (`world_of`). Afterwards every cell of every new cave node's disc
    /// holds Air or a gem (gems line the caves), every new camp covers only Air, and a
    /// changed cell holds an empty cell, an ore where Stone or HardStone was, or a gem in
    /// the hard stone band, ores and gems outside the camps placed before.
    pub fn populate(&mut self, seed: u64)
        requires
            old(self).wf(),
        ensures
            final(self).wf(),
            world_change(old(self)@, final(self)@, old(self).camp_list()),
            final(self).cave_nodes().subrange(0, old(self).cave_nodes().len() as int)
                == old(self).cave_nodes(),
            final(self).cave_nodes().len() >= old(self).cave_nodes().len() + CAVE_COUNT,
            caves_open(final(self)@, final(self).cave_nodes(), old(self).cave_nodes().len() as int),
            final(self).camp_list().subrange(0, old(self).camp_list().len() as int)
                == old(self).camp_list(),
            camps_open(final(self)@, final(self).camp_list(), old(self).camp_list().len() as int),
            (final(self)@, final(self).cave_nodes(), final(self).camp_list()) == world_of(
                old(self)@,
                old(self).cave_nodes(),
                old(self).camp_list(),
                seed,
            ),
    {
        let mut rng = Rng::new(seed);
        let ghost camps = self.camp_list();
        let ghost s0 = self@;
        self.scatter_ores(&mut rng);
        let ghost s1 = self@;
        self.carve_caves(&mut rng);
        let ghost s2 = self@;
        let ghost nodes = self.cave_nodes();
        self.scatter_gems(&mut rng);
        let ghost s3 = self@;
        self.place_camps(&mut rng);
        proof {
            let base = old(self).cave_nodes().len() as int;
            assert forall|x: int, y: int| in_bounds(x, y) implies {
                let t = #[trigger] s3[(x, y)];
                ||| t == s0[(x, y)]
                ||| t == empty_tile()
                ||| is_ore(t.tile) && (s0[(x, y)].tile == Tiles::Stone || s0[(x, y)].tile
                    == Tiles::HardStone) && !claimed(camps, x, y)
                ||| is_gem(t.tile) && y >= STONE_END && !claimed(camps, x, y)
            } by {
                assert(s1[(x, y)] == s0[(x, y)] || is_ore(s1[(x, y)].tile));
                assert(s2[(x, y)] == s1[(x, y)] || s2[(x, y)] == empty_tile());
                assert(s3[(x, y)] == s2[(x, y)] || is_gem(s3[(x, y)].tile));
            }
            assert forall|i: int, x: int, y: int|
                #![trigger nodes[i], s3[(x, y)]]
                base <= i < nodes.len() && in_bounds(x, y) && in_disc(
                    x,
                    y,
                    nodes[i].x as int,
                    nodes[i].y as int,
                    nodes[i].radius as int,
                ) implies s3[(x, y)].tile == Tiles::Air || is_gem(s3[(x, y)].tile) by {
                assert(node_carved(s2, nodes[i]));
                assert(s2[(x, y)] == empty_tile());
                assert(s3[(x, y)] == s2[(x, y)] || is_gem(s3[(x, y)].tile));
            }
        }
    }
}

} // verus!
