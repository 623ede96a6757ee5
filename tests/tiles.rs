use procgen::tiles::{SmoothTiles, Tile, Tiles};

const ALL_KINDS: [Tiles; 18] = [
    Tiles::Air,
    Tiles::Grass,
    Tiles::Dirt,
    Tiles::Stone,
    Tiles::HardStone,
    Tiles::IronOre,
    Tiles::GoldOre,
    Tiles::RuneOre,
    Tiles::Ruby,
    Tiles::Emerald,
    Tiles::Sapphire,
    Tiles::Diamond,
    Tiles::Log,
    Tiles::Leaves,
    Tiles::Wood,
    Tiles::HardenedStone,
    Tiles::Iron,
    Tiles::TileData,
];

#[test]
fn new_tile_takes_durability_of_its_kind() {
    for kind in ALL_KINDS {
        let t = Tile::new(kind);
        assert_eq!(t.tile, kind);
        assert_eq!(t.smooth_tile, None);
        assert_eq!(t.durability, kind.durability());
        assert_eq!(t.durability, 5);
    }
}

#[test]
fn empty_tile_is_air_with_nothing_to_break() {
    let t = Tile::empty();
    assert_eq!(t.tile, Tiles::Air);
    assert_eq!(t.smooth_tile, None);
    assert_eq!(t.durability, 0);
}

#[test]
fn ore_and_gem_kinds_are_told_apart() {
    let ores: Vec<Tiles> = ALL_KINDS.iter().copied().filter(|k| k.is_ore()).collect();
    let gems: Vec<Tiles> = ALL_KINDS.iter().copied().filter(|k| k.is_gem()).collect();
    assert_eq!(ores, vec![Tiles::IronOre, Tiles::GoldOre, Tiles::RuneOre]);
    assert_eq!(gems, vec![Tiles::Ruby, Tiles::Emerald, Tiles::Sapphire, Tiles::Diamond]);
}

#[test]
fn overlay_is_kept_apart_from_kind() {
    let mut t = Tile::new(Tiles::Stone);
    t.smooth_tile = Some(SmoothTiles::SpiderWeb);
    assert_eq!(t.tile, Tiles::Stone);
    assert_eq!(t.smooth_tile, Some(SmoothTiles::SpiderWeb));
}
