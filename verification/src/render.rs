//! Choices the renderer makes from game values: the block kind of a wall
//! tile, by its coordinates, and the colour band of a health value.
use vstd::prelude::*;

verus! {

/// The block kinds walls are drawn with.
#[derive(Debug, Clone, Copy, PartialEq, Eq, Structural)]
pub enum WallBlockType {
    Brick,
    Cobblestone,
    Mossy,
    Sandstone,
    WoodPlanks,
    NetherBrick,
}

/// The block kind numbered `n` (0 to 5).
pub open spec fn block_kind(n: int) -> WallBlockType {
    if n == 0 {
        WallBlockType::Brick
    } else if n == 1 {
        WallBlockType::Cobblestone
    } else if n == 2 {
        WallBlockType::Mossy
    } else if n == 3 {
        WallBlockType::Sandstone
    } else if n == 4 {
        WallBlockType::WoodPlanks
    } else {
        WallBlockType::NetherBrick
    }
}

/// The mixing value of tile `(x, y)`: `31 x + 17 y`.
pub open spec fn tile_hash(x: int, y: int) -> int {
    x * 31 + y * 17
}

/// The block kind of the wall at tile `(x, y)`: kind number
/// `|31 x + 17 y| mod 6`, which scatters the kinds over the maze.
pub fn wall_block_type(x: i32, y: i32) -> (b: WallBlockType)
    requires
        i32::MIN < tile_hash(x as int, y as int) <= i32::MAX,
        i32::MIN <= x * 31 <= i32::MAX,
        i32::MIN <= y * 17 <= i32::MAX,
    ensures
        b == block_kind(
            (if tile_hash(x as int, y as int) < 0 { -tile_hash(x as int, y as int) } else { tile_hash(x as int, y as int) }) % 6,
        ),
{
    let h = x * 31 + y * 17;
    let a = if h < 0 { -h } else { h };
    match a % 6 {
        0 => WallBlockType::Brick,
        1 => WallBlockType::Cobblestone,
        2 => WallBlockType::Mossy,
        3 => WallBlockType::Sandstone,
        4 => WallBlockType::WoodPlanks,
        _ => WallBlockType::NetherBrick,
    }
}


/// The colour bands health is shown in.
#[derive(Debug, Clone, Copy, PartialEq, Eq, Structural)]
pub enum HealthBand {
    Good,
    Hurt,
    Critical,
}

/// The band of a health value: above 60 good, above 30 hurt, else critical.
pub fn health_band(health: u8) -> (b: HealthBand)
    ensures
        b == (if health > 60 {
            HealthBand::Good
        } else if health > 30 {
            HealthBand::Hurt
        } else {
            HealthBand::Critical
        }),
{
    if health > 60 {
        HealthBand::Good
    } else if health > 30 {
        HealthBand::Hurt
    } else {
        HealthBand::Critical
    }
}

} // verus!
