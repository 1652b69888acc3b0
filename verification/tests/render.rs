use maze_wars::render::{health_band, wall_block_type, HealthBand, WallBlockType};

#[test]
fn block_kinds_follow_the_tile_hash() {
    assert_eq!(wall_block_type(0, 0), WallBlockType::Brick);
    assert_eq!(wall_block_type(1, 0), WallBlockType::Cobblestone); // 31
    assert_eq!(wall_block_type(2, 0), WallBlockType::Mossy); // 62
    assert_eq!(wall_block_type(3, 0), WallBlockType::Sandstone); // 93
    assert_eq!(wall_block_type(0, 2), WallBlockType::WoodPlanks); // 34
    assert_eq!(wall_block_type(0, 1), WallBlockType::NetherBrick); // 17
    assert_eq!(wall_block_type(1, 1), WallBlockType::Brick); // 48
}

#[test]
fn negative_coordinates_use_the_absolute_hash() {
    assert_eq!(wall_block_type(-1, 0), WallBlockType::Cobblestone); // |-31|
    assert_eq!(wall_block_type(-1, 1), WallBlockType::Mossy); // |-14|
}

#[test]
fn health_bands() {
    assert_eq!(health_band(100), HealthBand::Good);
    assert_eq!(health_band(61), HealthBand::Good);
    assert_eq!(health_band(60), HealthBand::Hurt);
    assert_eq!(health_band(31), HealthBand::Hurt);
    assert_eq!(health_band(30), HealthBand::Critical);
    assert_eq!(health_band(0), HealthBand::Critical);
}
