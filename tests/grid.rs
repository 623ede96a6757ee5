use procgen::grid::{Grid, GridError, HEIGHT, TILE_SIDE, WIDTH};
use procgen::tiles::{Tile, Tiles};

fn kind_at(g: &Grid, x: i32, y: i32) -> Tiles {
    g.get_tile(x, y).unwrap().tile
}

#[test]
fn new_grid_is_512_by_1024() {
    let g = Grid::new();
    assert_eq!(g.width(), 512);
    assert_eq!(g.height(), 1024);
    assert_eq!(WIDTH, 512);
    assert_eq!(HEIGHT, 1024);
    assert!(g.caves().is_empty());
    assert!(g.camps().is_empty());
}

#[test]
fn fresh_grid_bands_in_three_columns() {
    let g = Grid::new();
    for x in [0, 200, 511] {
        for y in 0..512 {
            assert_eq!(g.get_tile(x, y).unwrap(), Tile::empty());
        }
        assert_eq!(kind_at(&g, x, 512), Tiles::Grass);
        for y in 513..518 {
            assert_eq!(kind_at(&g, x, y), Tiles::Dirt);
        }
        for y in 518..600 {
            assert_eq!(kind_at(&g, x, y), Tiles::Stone);
        }
        for y in 600..1024 {
            assert_eq!(kind_at(&g, x, y), Tiles::HardStone);
        }
        assert_eq!(g.get_tile(x, 700).unwrap(), Tile::new(Tiles::HardStone));
    }
}

#[test]
fn set_then_get_returns_the_tile() {
    let mut g = Grid::new();
    let t = Tile { tile: Tiles::Wood, smooth_tile: None, durability: 2 };
    for (x, y) in [(0, 0), (511, 1023), (17, 600), (300, 511)] {
        assert_eq!(g.set_tile(x, y, t), Ok(()));
        assert_eq!(g.get_tile(x, y), Ok(t));
    }
    assert_eq!(kind_at(&g, 1, 0), Tiles::Air);
    assert_eq!(kind_at(&g, 17, 601), Tiles::HardStone);
}

#[test]
fn set_touches_only_its_cell() {
    let mut g = Grid::new();
    g.set_tile(10, 515, Tile::new(Tiles::Iron)).unwrap();
    assert_eq!(kind_at(&g, 10, 515), Tiles::Iron);
    assert_eq!(kind_at(&g, 10, 514), Tiles::Dirt);
    assert_eq!(kind_at(&g, 10, 516), Tiles::Dirt);
    assert_eq!(kind_at(&g, 9, 515), Tiles::Dirt);
    assert_eq!(kind_at(&g, 11, 515), Tiles::Dirt);
}

#[test]
fn out_of_range_access_fails() {
    let mut g = Grid::new();
    let t = Tile::new(Tiles::Stone);
    for (x, y) in [(-1, 0), (0, -1), (512, 0), (0, 1024), (i32::MIN, 5), (5, i32::MAX)] {
        assert_eq!(g.get_tile(x, y), Err(GridError::OutOfRange));
        assert_eq!(g.set_tile(x, y, t), Err(GridError::OutOfRange));
    }
    assert_eq!(kind_at(&g, 0, 0), Tiles::Air);
}

#[test]
fn world_to_tile_floors() {
    let g = Grid::new();
    assert_eq!(TILE_SIDE, 35);
    assert_eq!(g.get_coords(34.999f32.floor() as i64, 0), (0, 0));
    assert_eq!(g.get_coords(35, 0), (1, 0));
    assert_eq!(g.get_coords(-1, 0), (-1, 0));
    assert_eq!(g.get_coords(-35, -36), (-1, -2));
    assert_eq!(g.get_coords(70, 104), (2, 2));
    assert_eq!(g.get_coords(i32::MIN as i64, i32::MAX as i64), (-61356676, 61356675));
}

#[test]
fn world_to_tile_saturates() {
    let g = Grid::new();
    assert_eq!(g.get_coords(i64::MAX, i64::MIN), (i32::MAX, i32::MIN));
    assert_eq!(g.get_coords(35 * (i32::MAX as i64), 0), (i32::MAX, 0));
    assert_eq!(g.get_coords(35 * (i32::MAX as i64) + 35, 0), (i32::MAX, 0));
    assert_eq!(g.get_coords(35 * (i32::MIN as i64), 0), (i32::MIN, 0));
    assert_eq!(g.get_coords(35 * (i32::MIN as i64) - 1, 0), (i32::MIN, 0));
}

#[test]
fn grid_clone_is_equal() {
    let mut g = Grid::new();
    g.carve(10, 700, 2);
    let h = g.clone();
    assert_eq!(g, h);
    let mut k = h.clone();
    k.set_tile(0, 0, Tile::new(Tiles::Wood)).unwrap();
    assert_ne!(g, k);
}

#[test]
fn carve_empties_the_disc() {
    let mut g = Grid::new();
    g.carve(100, 700, 3);
    for x in 90..111 {
        for y in 690..711 {
            let dx = x - 100;
            let dy = y - 700;
            let expect = if dx * dx + dy * dy <= 9 { Tile::empty() } else { Tile::new(Tiles::HardStone) };
            assert_eq!(g.get_tile(x, y).unwrap(), expect);
        }
    }
    assert_eq!(kind_at(&g, 103, 700), Tiles::Air);
    assert_eq!(kind_at(&g, 102, 702), Tiles::Air);
    assert_eq!(kind_at(&g, 102, 703), Tiles::HardStone);
}

#[test]
fn carve_is_clamped_at_the_edges() {
    let mut g = Grid::new();
    g.carve(0, 1023, 4);
    assert_eq!(kind_at(&g, 0, 1023), Tiles::Air);
    assert_eq!(kind_at(&g, 4, 1023), Tiles::Air);
    assert_eq!(kind_at(&g, 5, 1023), Tiles::HardStone);
    assert_eq!(kind_at(&g, 0, 1019), Tiles::Air);
    assert_eq!(kind_at(&g, 0, 1018), Tiles::HardStone);
}

#[test]
fn carve_of_radius_zero_empties_one_cell() {
    let mut g = Grid::new();
    g.carve(5, 515, 0);
    assert_eq!(kind_at(&g, 5, 515), Tiles::Air);
    assert_eq!(kind_at(&g, 5, 516), Tiles::Dirt);
    assert_eq!(kind_at(&g, 6, 515), Tiles::Dirt);
}
