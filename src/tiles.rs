use vstd::prelude::*;

verus! {

/// Base kind of a grid cell.
#[derive(PartialEq, Eq, Structural, Copy, Clone, Debug)]
pub enum Tiles {
    // World building
    Air,
    Grass,
    Dirt,
    Stone,
    /// Harder than stone; forms the deepest band of the world.
    HardStone,
    // Ores, scattered through the stone and hard stone bands in clusters of 2 to 5.
    IronOre,
    GoldOre,
    RuneOre,
    // Gems, found in the hard stone band inside caves, in clusters of 5 to 7.
    Ruby,
    Emerald,
    Sapphire,
    Diamond,
    // Environmental tiles used by generated structures.
    Log,
    Leaves,
    // Built by the player.
    Wood,
    HardenedStone,
    Iron,
    /// A block whose payload is stored elsewhere.
    TileData,
}

/// Non-blocking decoration placed on top of a base tile.
#[derive(PartialEq, Eq, Structural, Copy, Clone, Debug)]
pub enum SmoothTiles {
    Pebbles,
    Sand,
    Vine,
    Torch,
    // Cave decorations
    SpiderWeb,
    SpiderEgg,
}

/// Hardness of a freshly made tile, one entry per kind.
pub open spec fn durability_of(kind: Tiles) -> i32 {
    match kind {
        Tiles::Air => 5,
        Tiles::Grass => 5,
        Tiles::Dirt => 5,
        Tiles::Stone => 5,
        Tiles::HardStone => 5,
        Tiles::IronOre => 5,
        Tiles::GoldOre => 5,
        Tiles::RuneOre => 5,
        Tiles::Ruby => 5,
        Tiles::Emerald => 5,
        Tiles::Sapphire => 5,
        Tiles::Diamond => 5,
        Tiles::Log => 5,
        Tiles::Leaves => 5,
        Tiles::Wood => 5,
        Tiles::HardenedStone => 5,
        Tiles::Iron => 5,
        Tiles::TileData => 5,
    }
}

pub open spec fn is_ore(kind: Tiles) -> bool {
    kind == Tiles::IronOre || kind == Tiles::GoldOre || kind == Tiles::RuneOre
}

pub open spec fn is_gem(kind: Tiles) -> bool {
    kind == Tiles::Ruby || kind == Tiles::Emerald || kind == Tiles::Sapphire || kind
        == Tiles::Diamond
}

impl Tiles {
    /// Hardness of a fresh tile of this kind.
    pub fn durability(&self) -> (r: i32)
        ensures
            r == durability_of(*self),
            r >= 0,
    {
        match self {
            Tiles::Air => 5,
            Tiles::Grass => 5,
            Tiles::Dirt => 5,
            Tiles::Stone => 5,
            Tiles::HardStone => 5,
            Tiles::IronOre => 5,
            Tiles::GoldOre => 5,
            Tiles::RuneOre => 5,
            Tiles::Ruby => 5,
            Tiles::Emerald => 5,
            Tiles::Sapphire => 5,
            Tiles::Diamond => 5,
            Tiles::Log => 5,
            Tiles::Leaves => 5,
            Tiles::Wood => 5,
            Tiles::HardenedStone => 5,
            Tiles::Iron => 5,
            Tiles::TileData => 5,
        }
    }
}

impl Tiles {
    pub fn is_ore(&self) -> (r: bool)
        ensures
            r == is_ore(*self),
    {
        match self {
            Tiles::IronOre | Tiles::GoldOre | Tiles::RuneOre => true,
            _ => false,
        }
    }

    pub fn is_gem(&self) -> (r: bool)
        ensures
            r == is_gem(*self),
    {
        match self {
            Tiles::Ruby | Tiles::Emerald | Tiles::Sapphire | Tiles::Diamond => true,
            _ => false,
        }
    }
}

/// One grid cell: base kind, optional decoration and remaining durability.
#[derive(PartialEq, Eq, Structural, Copy, Clone, Debug)]
pub struct Tile {
    pub tile: Tiles,
    pub smooth_tile: Option<SmoothTiles>,
    pub durability: i32,
}

/// The tile that `Tile::new(kind)` makes.
pub open spec fn fresh_tile(kind: Tiles) -> Tile {
    Tile { tile: kind, smooth_tile: None, durability: durability_of(kind) }
}

/// The empty cell: the open rows off the surface and the inside of caves.
pub open spec fn empty_tile() -> Tile {
    Tile { tile: Tiles::Air, smooth_tile: None, durability: 0 }
}

impl Tile {
    pub fn new(tile: Tiles) -> (r: Tile)
        ensures
            r == fresh_tile(tile),
            r.durability >= 0,
    {
        Tile { tile, smooth_tile: None, durability: tile.durability() }
    }

    /// An empty cell, with nothing left to break.
    pub fn empty() -> (r: Tile)
        ensures
            r == empty_tile(),
    {
        Tile { tile: Tiles::Air, smooth_tile: None, durability: 0 }
    }
}

/// Every fresh tile starts with the durability its kind prescribes, which is never negative.
pub proof fn lemma_fresh_durability(kind: Tiles)
    ensures
        fresh_tile(kind).durability == durability_of(kind),
        durability_of(kind) >= 0,
{
}

} // verus!
