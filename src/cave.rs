use vstd::prelude::*;

use crate::grid::{Grid, HEIGHT, WIDTH, carved, in_bounds, in_disc, lemma_view_domain};
use crate::rng::{Rng, draw_in, next_state};
use crate::tiles::{Tile, empty_tile};

verus! {

/// One circular carve of a cave. Nodes live in one list per grid; a node other than
/// the root of its cave names its parent by position in that list.
#[derive(PartialEq, Eq, Structural, Copy, Clone, Debug)]
pub struct CaveNode {
    pub x: i32,
    pub y: i32,
    pub radius: i32,
    pub parent: Option<usize>,
}

impl CaveNode {
    /// Well-formed as entry `i` of `nodes`: a positive radius, and a parent that comes
    /// earlier and lies at most twice its own radius away on each axis.
    pub open spec fn wf_in(self, nodes: Seq<CaveNode>, i: int) -> bool {
        &&& self.radius > 0
        &&& match self.parent {
            None => true,
            Some(p) => {
                &&& p < i
                &&& -2 * nodes[p as int].radius <= self.x - nodes[p as int].x <= 2 * nodes[p as int].radius
                &&& -2 * nodes[p as int].radius <= self.y - nodes[p as int].y <= 2 * nodes[p as int].radius
            },
        }
    }
}

/// Most children a cave node spawns.
pub const MAX_BRANCHES: i64 = 3;

/// Radius at or under which a node spawns no children.
pub const MIN_RADIUS: i32 = 2;

/// Whether every grid cell of `node`'s disc is empty in `cells`.
pub open spec fn node_carved(cells: Map<(int, int), Tile>, node: CaveNode) -> bool {
    forall|x: int, y: int|
        in_bounds(x, y) && in_disc(x, y, node.x as int, node.y as int, node.radius as int)
            ==> #[trigger] cells[(x, y)] == empty_tile()
}

/// Whether the nodes at positions `[from, nodes.len())` are all carved into `cells`.
pub open spec fn nodes_carved_from(
    cells: Map<(int, int), Tile>,
    nodes: Seq<CaveNode>,
    from: int,
) -> bool {
    forall|i: int| from <= i < nodes.len() ==> node_carved(cells, #[trigger] nodes[i])
}

/// `after` holds every cell of `before`, or an empty cell in its place.
pub open spec fn only_emptied(before: Map<(int, int), Tile>, after: Map<(int, int), Tile>) -> bool {
    &&& after.dom() == before.dom()
    &&& forall|x: int, y: int|
        in_bounds(x, y) ==> #[trigger] after[(x, y)] == before[(x, y)] || after[(x, y)]
            == empty_tile()
}

/// Whether node `i` of `nodes` branches from a node at a position in `[from, i)` and has
/// a radius one smaller than it.
pub open spec fn branch_ok(nodes: Seq<CaveNode>, from: int, i: int) -> bool {
    match nodes[i].parent {
        Some(p) => from <= p < i && nodes[i].radius == nodes[p as int].radius - 1,
        None => false,
    }
}

pub open spec fn clamped(c: int, lo: int, hi: int) -> int {
    if c < lo {
        lo
    } else if c > hi {
        hi
    } else {
        c
    }
}

/// The cells, nodes and generator state after `grow_cave(rng, x, y, radius, parent,
/// depth)` on a grid with `cells` and `nodes`, with `state` in `rng`.
pub open spec fn cave_grow(
    cells: Map<(int, int), Tile>,
    nodes: Seq<CaveNode>,
    state: u64,
    x: i32,
    y: i32,
    radius: i32,
    parent: Option<usize>,
    depth: int,
) -> (Map<(int, int), Tile>, Seq<CaveNode>, u64)
    decreases depth, 0int,
{
    let cells1 = carved(cells, x as int, y as int, radius as int);
    let nodes1 = nodes.push(CaveNode { x, y, radius, parent });
    if depth <= 0 || radius <= MIN_RADIUS {
        (cells1, nodes1, state)
    } else {
        let branches = draw_in(state, 0, MAX_BRANCHES as int);
        cave_branches(
            cells1,
            nodes1,
            next_state(state),
            x,
            y,
            radius,
            nodes.len() as int,
            depth - 1,
            branches,
        )
    }
}

/// The last `remaining` children of the node at position `idx`, centred at `(x, y)`,
/// each grown to `depth` more levels.
pub open spec fn cave_branches(
    cells: Map<(int, int), Tile>,
    nodes: Seq<CaveNode>,
    state: u64,
    x: i32,
    y: i32,
    radius: i32,
    idx: int,
    depth: int,
    remaining: int,
) -> (Map<(int, int), Tile>, Seq<CaveNode>, u64)
    decreases depth, remaining,
{
    if remaining <= 0 || depth < 0 {
        (cells, nodes, state)
    } else {
        let reach = 2 * radius;
        let dx = draw_in(state, -reach, reach);
        let s1 = next_state(state);
        let dy = draw_in(s1, -reach, reach);
        let s2 = next_state(s1);
        let cx = clamped(x + dx, 0, WIDTH - 1);
        let cy = clamped(y + dy, 0, HEIGHT - 1);
        let g = cave_grow(
            cells,
            nodes,
            s2,
            cx as i32,
            cy as i32,
            (radius - 1) as i32,
            Some(idx as usize),
            depth,
        );
        cave_branches(g.0, g.1, g.2, x, y, radius, idx, depth, remaining - 1)
    }
}

/// `c` clamped into `[lo, hi]`.
fn clamp(c: i64, lo: i64, hi: i64) -> (r: i64)
    requires
        lo <= hi,
    ensures
        r == if c < lo { lo } else if c > hi { hi } else { c },
{
    if c < lo { lo } else if c > hi { hi } else { c }
}

impl Grid {
    /// Grows one cave tree from a node at `(x, y)`: carves the node's disc, records the
    /// node, and, while `depth` lasts and the radius exceeds `MIN_RADIUS`, spawns up to
    /// `MAX_BRANCHES` children at most twice the radius away, each one smaller by one.
    /// Every new node is carved when this returns; no earlier node or camp changes.
    pub fn grow_cave(
        &mut self,
        rng: &mut Rng,
        x: i32,
        y: i32,
        radius: i32,
        parent: Option<usize>,
        depth: u32,
    )
        requires
            old(self).wf(),
            in_bounds(x as int, y as int),
            radius > 0,
            (CaveNode { x, y, radius, parent }).wf_in(
                old(self).cave_nodes(),
                old(self).cave_nodes().len() as int,
            ),
        ensures
            final(self).wf(),
            only_emptied(old(self)@, final(self)@),
            final(self).cave_nodes().len() > old(self).cave_nodes().len(),
            final(self).cave_nodes().subrange(0, old(self).cave_nodes().len() as int)
                == old(self).cave_nodes(),
            final(self).cave_nodes()[old(self).cave_nodes().len() as int] == (CaveNode {
                x,
                y,
                radius,
                parent,
            }),
            nodes_carved_from(
                final(self)@,
                final(self).cave_nodes(),
                old(self).cave_nodes().len() as int,
            ),
            forall|i: int|
                old(self).cave_nodes().len() < i < final(self).cave_nodes().len() ==> branch_ok(
                    final(self).cave_nodes(),
                    old(self).cave_nodes().len() as int,
                    i,
                ),
            depth == 0 || radius <= MIN_RADIUS ==> final(self).cave_nodes().len()
                == old(self).cave_nodes().len() + 1,
            final(self).camp_list() == old(self).camp_list(),
            (final(self)@, final(self).cave_nodes(), final(rng).state) == cave_grow(
                old(self)@,
                old(self).cave_nodes(),
                old(rng).state,
                x,
                y,
                radius,
                parent,
                depth as int,
            ),
        decreases depth,
    {
        self.carve(x, y, radius);
        let idx: usize = self.caves().len();
        let node = CaveNode { x, y, radius, parent };
        self.add_cave_node(node);
        let ghost start = old(self).cave_nodes().len() as int;
        assert(node_carved(self@, node));
        if depth == 0 || radius <= MIN_RADIUS {
            assert(self.cave_nodes().subrange(0, start) =~= old(self).cave_nodes());
            return ;
        }
        let ghost target = cave_grow(
            old(self)@,
            old(self).cave_nodes(),
            old(rng).state,
            x,
            y,
            radius,
            parent,
            depth as int,
        );
        let branches: i64 = rng.range(0, MAX_BRANCHES);
        let mut k: i64 = 0;
        let reach: i64 = 2 * radius as i64;
        while k < branches
            invariant
                self.wf(),
                only_emptied(old(self)@, self@),
                self.cave_nodes().len() > idx,
                idx == start,
                self.cave_nodes().subrange(0, start) == old(self).cave_nodes(),
                self.cave_nodes()[start] == node,
                nodes_carved_from(self@, self.cave_nodes(), start),
                forall|i: int| start < i < self.cave_nodes().len() ==> branch_ok(self.cave_nodes(), start, i),
                self.camp_list() == old(self).camp_list(),
                node == (CaveNode { x, y, radius, parent }),
                node.radius > MIN_RADIUS,
                reach == 2 * node.radius,
                in_bounds(node.x as int, node.y as int),
                depth > 0,
                k <= branches,
                target == cave_grow(
                    old(self)@,
                    old(self).cave_nodes(),
                    old(rng).state,
                    x,
                    y,
                    radius,
                    parent,
                    depth as int,
                ),
                idx == start,
                cave_branches(
                    self@,
                    self.cave_nodes(),
                    rng.state,
                    x,
                    y,
                    radius,
                    start,
                    depth - 1,
                    branches - k,
                ) == target,
            decreases branches - k,
        {
            let dx: i64 = rng.range(-reach, reach);
            let dy: i64 = rng.range(-reach, reach);
            let cx: i64 = clamp(x as i64 + dx, 0, (WIDTH - 1) as i64);
            let cy: i64 = clamp(y as i64 + dy, 0, (HEIGHT - 1) as i64);
            let ghost before = self@;
            let ghost nodes_before = self.cave_nodes();
            assert(nodes_before[idx as int] == node);
            assert(nodes_before[start] == nodes_before.subrange(0, start + 1)[start]);
            self.grow_cave(rng, cx as i32, cy as i32, radius - 1, Some(idx), depth - 1);
            proof {
                let n0 = nodes_before.len() as int;
                let nodes = self.cave_nodes();
                assert(nodes.subrange(0, n0) == nodes_before);
                assert(nodes.subrange(0, start) =~= nodes_before.subrange(0, start));
                assert(nodes[start] == nodes.subrange(0, n0)[start]);
                assert forall|i: int| start < i < nodes.len() implies branch_ok(nodes, start, i) by {
                    if i < n0 {
                        assert(nodes[i] == nodes.subrange(0, n0)[i]);
                        assert(branch_ok(nodes_before, start, i));
                        let p = nodes[i].parent.unwrap() as int;
                        assert(nodes[p] == nodes.subrange(0, n0)[p]);
                    } else if i > n0 {
                        assert(branch_ok(nodes, n0, i));
                    }
                }
                assert forall|i: int| start <= i < nodes.len() implies node_carved(
                    self@,
                    #[trigger] nodes[i],
                ) by {
                    if i < n0 {
                        assert(nodes[i] == nodes.subrange(0, n0)[i]);
                        assert(node_carved(before, nodes_before[i]));
                        assert forall|px: int, py: int|
                            in_bounds(px, py) && in_disc(
                                px,
                                py,
                                nodes[i].x as int,
                                nodes[i].y as int,
                                nodes[i].radius as int,
                            ) implies #[trigger] self@[(px, py)] == empty_tile() by {
                            lemma_view_domain(*self);
                            assert(before[(px, py)] == empty_tile());
                        }
                    }
                }
            }
            k = k + 1;
        }
    }
}

} // verus!
