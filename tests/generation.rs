use procgen::camp::Camp;
use procgen::cave::CaveNode;
use procgen::grid::{Grid, HEIGHT, STONE_END, WIDTH};
use procgen::rng::Rng;
use procgen::tiles::{Tile, Tiles};

fn kind_at(g: &Grid, x: i32, y: i32) -> Tiles {
    g.get_tile(x, y).unwrap().tile
}

fn disc_cells(n: &CaveNode) -> Vec<(i32, i32)> {
    let mut out = Vec::new();
    for x in (n.x - n.radius).max(0)..=(n.x + n.radius).min(WIDTH - 1) {
        for y in (n.y - n.radius).max(0)..=(n.y + n.radius).min(HEIGHT - 1) {
            let dx = (x - n.x) as i64;
            let dy = (y - n.y) as i64;
            let r = n.radius as i64;
            if dx * dx + dy * dy <= r * r {
                out.push((x, y));
            }
        }
    }
    out
}

fn overlap(a: &Camp, b: &Camp) -> bool {
    a.x < b.x + b.width && b.x < a.x + a.width && a.y < b.y + b.height && b.y < a.y + a.height
}

#[test]
fn splitmix_sequence_from_zero() {
    let mut rng = Rng::new(0);
    assert_eq!(rng.next_u64(), 0xe220_a839_7b1d_cdaf);
    assert_eq!(rng.next_u64(), 0x6e78_9e6a_a1b9_65f4);
    assert_eq!(rng.next_u64(), 0x06c4_5d18_8009_454f);
    assert_eq!(rng.state, 0x9e37_79b9_7f4a_7c15u64.wrapping_mul(3));
}

#[test]
fn range_stays_within_bounds() {
    let mut rng = Rng::new(42);
    for _ in 0..1000 {
        let v = rng.range(-3, 4);
        assert!((-3..=4).contains(&v));
    }
    let mut one = Rng::new(0);
    assert_eq!(one.range(10, 10), 10);
    let mut a = Rng::new(0);
    assert_eq!(a.range(0, 9), (0xe220_a839_7b1d_cdafu64 % 10) as i64);
}

#[test]
fn grown_cave_is_carved_and_well_formed() {
    let mut g = Grid::new();
    let mut rng = Rng::new(7);
    g.grow_cave(&mut rng, 250, 800, 6, None, 3);
    let nodes = g.caves().clone();
    assert!(!nodes.is_empty());
    assert_eq!(nodes[0], CaveNode { x: 250, y: 800, radius: 6, parent: None });
    for (i, n) in nodes.iter().enumerate() {
        assert!(n.radius > 0);
        if let Some(p) = n.parent {
            assert!(p < i);
            let parent = &nodes[p];
            assert!((n.x - parent.x).abs() <= 2 * parent.radius);
            assert!((n.y - parent.y).abs() <= 2 * parent.radius);
            assert_eq!(n.radius, parent.radius - 1);
        }
        for (x, y) in disc_cells(n) {
            assert_eq!(g.get_tile(x, y).unwrap(), Tile::empty());
        }
    }
}

#[test]
fn cave_at_minimum_radius_has_no_children() {
    let mut g = Grid::new();
    let mut rng = Rng::new(1);
    g.grow_cave(&mut rng, 10, 900, 2, None, 5);
    assert_eq!(g.caves().len(), 1);
    let mut h = Grid::new();
    h.grow_cave(&mut rng, 10, 900, 7, None, 0);
    assert_eq!(h.caves().len(), 1);
}

#[test]
fn overlapping_camp_is_rejected() {
    let mut g = Grid::new();
    let first = Camp { x: 100, y: 505, width: 6, height: 4 };
    let second = Camp { x: 103, y: 507, width: 6, height: 4 };
    let third = Camp { x: 106, y: 505, width: 6, height: 4 };
    assert!(g.place_camp(first));
    assert!(!g.place_camp(second));
    assert!(g.place_camp(third));
    assert_eq!(g.camps(), &vec![first, third]);
    assert!(g.claimed_by_camp(100, 505));
    assert!(g.claimed_by_camp(111, 508));
    assert!(!g.claimed_by_camp(112, 508));
    assert!(!g.claimed_by_camp(100, 509));
}

#[test]
fn camp_needs_open_air_inside_the_grid() {
    let mut g = Grid::new();
    // reaches the grass row
    assert!(!g.place_camp(Camp { x: 0, y: 510, width: 3, height: 3 }));
    // off the edge
    assert!(!g.place_camp(Camp { x: 510, y: 0, width: 3, height: 3 }));
    assert!(!g.place_camp(Camp { x: -1, y: 0, width: 3, height: 3 }));
    // empty footprint
    assert!(!g.place_camp(Camp { x: 0, y: 0, width: 0, height: 3 }));
    // solid rock, then the same place once carved
    let in_rock = Camp { x: 300, y: 800, width: 3, height: 2 };
    assert!(!g.place_camp(in_rock));
    g.carve(301, 800, 4);
    assert!(g.place_camp(in_rock));
    assert_eq!(g.camps().len(), 1);
}

#[test]
fn ore_cluster_takes_stone_cells_in_a_chain() {
    let mut g = Grid::new();
    let mut rng = Rng::new(3);
    let pts = g.place_cluster(&mut rng, 40, 650, Tiles::GoldOre, 4);
    assert_eq!(pts.len(), 4);
    assert_eq!(pts[0], (40, 650));
    for w in pts.windows(2) {
        let d = (w[0].0 - w[1].0).abs() + (w[0].1 - w[1].1).abs();
        assert_eq!(d, 1);
    }
    for (i, p) in pts.iter().enumerate() {
        assert!(!pts[..i].contains(p));
        assert_eq!(g.get_tile(p.0, p.1).unwrap(), Tile::new(Tiles::GoldOre));
    }
    assert_eq!(kind_at(&g, 40, 660), Tiles::HardStone);
}

#[test]
fn cluster_is_skipped_where_it_cannot_start() {
    let mut g = Grid::new();
    let mut rng = Rng::new(3);
    // ore does not go into the sky
    assert!(g.place_cluster(&mut rng, 40, 100, Tiles::IronOre, 3).is_empty());
    // gems only line caves
    assert!(g.place_cluster(&mut rng, 40, 700, Tiles::Ruby, 5).is_empty());
    assert_eq!(kind_at(&g, 40, 100), Tiles::Air);
    assert_eq!(kind_at(&g, 40, 700), Tiles::HardStone);
}

#[test]
fn cluster_too_big_for_its_pocket_is_skipped() {
    let mut g = Grid::new();
    let mut rng = Rng::new(9);
    // a single open cell in hard stone fits no gem cluster of five
    g.carve(60, 800, 0);
    assert!(g.place_cluster(&mut rng, 60, 800, Tiles::Diamond, 5).is_empty());
    assert_eq!(kind_at(&g, 60, 800), Tiles::Air);
}

#[test]
fn gem_cluster_lines_a_cave() {
    let mut g = Grid::new();
    let mut rng = Rng::new(11);
    g.carve(200, 900, 5);
    let pts = g.place_cluster(&mut rng, 200, 900, Tiles::Emerald, 6);
    assert_eq!(pts.len(), 6);
    for p in &pts {
        assert!(p.1 >= STONE_END);
        assert_eq!(kind_at(&g, p.0, p.1), Tiles::Emerald);
    }
}

#[test]
fn cluster_avoids_camps() {
    let mut g = Grid::new();
    let mut rng = Rng::new(5);
    g.carve(200, 900, 8);
    assert!(g.place_camp(Camp { x: 195, y: 895, width: 11, height: 11 }));
    assert!(!g.cluster_cell_ok_at(Tiles::Ruby, 200, 900));
    assert!(g.place_cluster(&mut rng, 200, 900, Tiles::Ruby, 5).is_empty());
}

#[test]
fn populated_world_keeps_its_rules() {
    let mut g = Grid::new();
    g.populate(2024);
    assert_eq!(g.width(), 512);
    assert_eq!(g.height(), 1024);
    assert!(!g.caves().is_empty());
    for n in g.caves() {
        assert!(n.radius > 0);
        for (x, y) in disc_cells(n) {
            let k = kind_at(&g, x, y);
            assert!(k == Tiles::Air || k.is_gem());
        }
    }
    let camps = g.camps();
    for (i, a) in camps.iter().enumerate() {
        for b in &camps[i + 1..] {
            assert!(!overlap(a, b));
        }
        for x in a.x..a.x + a.width {
            for y in a.y..a.y + a.height {
                assert_eq!(kind_at(&g, x, y), Tiles::Air);
            }
        }
    }
    let mut ores = 0;
    for x in 0..WIDTH {
        for y in 0..HEIGHT {
            let k = kind_at(&g, x, y);
            if k.is_ore() {
                ores += 1;
                assert!(y >= 518);
            }
        }
    }
    assert!(ores > 0);
}

#[test]
fn same_seed_same_world() {
    let mut a = Grid::new();
    let mut b = Grid::new();
    a.populate(77);
    b.populate(77);
    assert_eq!(a.caves(), b.caves());
    assert_eq!(a.camps(), b.camps());
    for x in (0..WIDTH).step_by(7) {
        for y in (0..HEIGHT).step_by(3) {
            assert_eq!(a.get_tile(x, y), b.get_tile(x, y));
        }
    }
}

#[test]
fn end_to_end_world() {
    let mut g = Grid::new();
    assert_eq!((g.width(), g.height()), (512, 1024));
    let col = 128;
    assert_eq!(kind_at(&g, col, 511), Tiles::Air);
    assert_eq!(kind_at(&g, col, 512), Tiles::Grass);
    assert_eq!(kind_at(&g, col, 517), Tiles::Dirt);
    assert_eq!(kind_at(&g, col, 518), Tiles::Stone);
    assert_eq!(kind_at(&g, col, 599), Tiles::Stone);
    assert_eq!(kind_at(&g, col, 600), Tiles::HardStone);

    let mut rng = Rng::new(99);
    g.grow_cave(&mut rng, col, 650, 5, None, 0);
    assert_eq!(g.caves().len(), 1);
    let node = g.caves()[0];
    let carved = disc_cells(&node);
    assert_eq!(carved.len(), 81);
    for (x, y) in carved {
        assert_eq!(kind_at(&g, x, y), Tiles::Air);
    }
    assert_eq!(kind_at(&g, col + 6, 650), Tiles::HardStone);
    assert_eq!(kind_at(&g, col + 4, 653), Tiles::Air);
    assert_eq!(kind_at(&g, col + 4, 654), Tiles::HardStone);

    let first = Camp { x: col - 2, y: 648, width: 4, height: 3 };
    let second = Camp { x: col - 1, y: 649, width: 4, height: 3 };
    assert!(g.place_camp(first));
    assert!(!g.place_camp(second));
    assert_eq!(g.camps(), &vec![first]);
}

#[test]
fn passes_repeat_from_the_same_state() {
    let mut a = Grid::new();
    let mut b = Grid::new();
    let mut ra = Rng::new(5);
    let mut rb = Rng::new(5);
    a.scatter_ores(&mut ra);
    b.scatter_ores(&mut rb);
    assert_eq!(ra, rb);
    assert_eq!(a, b);
    a.carve_caves(&mut ra);
    b.carve_caves(&mut rb);
    a.scatter_gems(&mut ra);
    b.scatter_gems(&mut rb);
    a.place_camps(&mut ra);
    b.place_camps(&mut rb);
    assert_eq!(ra, rb);
    assert_eq!(a, b);
}

#[test]
fn ore_pass_places_ore_only_on_rock() {
    let fresh = Grid::new();
    let mut g = Grid::new();
    let mut rng = Rng::new(8);
    g.scatter_ores(&mut rng);
    let mut changed = 0;
    for x in 0..WIDTH {
        for y in 0..HEIGHT {
            let before = fresh.get_tile(x, y).unwrap();
            let after = g.get_tile(x, y).unwrap();
            if before != after {
                changed += 1;
                assert!(after.tile.is_ore());
                assert!(before.tile == Tiles::Stone || before.tile == Tiles::HardStone);
            }
        }
    }
    assert!(changed > 0);
}

#[test]
fn gem_pass_lines_caves_only() {
    let mut g = Grid::new();
    let mut rng = Rng::new(21);
    g.carve_caves(&mut rng);
    let caved = g.clone();
    g.scatter_gems(&mut rng);
    let mut changed = 0;
    for x in 0..WIDTH {
        for y in 0..HEIGHT {
            let before = caved.get_tile(x, y).unwrap();
            let after = g.get_tile(x, y).unwrap();
            if before != after {
                changed += 1;
                assert!(after.tile.is_gem());
                assert_eq!(before.tile, Tiles::Air);
                assert!(y >= STONE_END);
            }
        }
    }
    assert!(changed > 0);
}

#[test]
fn camp_pass_places_a_surface_camp_on_a_fresh_grid() {
    let mut g = Grid::new();
    let mut rng = Rng::new(4);
    g.place_camps(&mut rng);
    assert!(!g.camps().is_empty());
    assert!(g.camps().len() <= 8);
    let first = g.camps()[0];
    assert_eq!(first.y + first.height, 512);
    assert!((4..=8).contains(&first.width));
    assert!((3..=5).contains(&first.height));
}

#[test]
fn cave_roots_lie_in_the_rock_bands() {
    let mut g = Grid::new();
    let mut rng = Rng::new(13);
    g.carve_caves(&mut rng);
    let roots: Vec<CaveNode> = g.caves().iter().copied().filter(|n| n.parent.is_none()).collect();
    assert_eq!(roots.len(), 14);
    for r in roots {
        assert!(r.y >= 526 && r.y < 1024);
        assert!((4..=8).contains(&r.radius));
    }
}
