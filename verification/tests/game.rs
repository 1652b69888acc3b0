use maze_wars::game::{GameState, Player};
use maze_wars::maze::Difficulty;
use maze_wars::network::Endpoint;

/// A position and facing in the plane, as the game's physics keeps them.
#[derive(Clone, Copy, Debug, PartialEq)]
struct Pose {
    x: f32,
    y: f32,
    angle: f32,
}

/// Movement intent of one frame.
#[derive(Clone, Copy, Debug, Default)]
struct Intent {
    forward: bool,
    turn_delta: f32,
}

const MOVE_SPEED: f32 = 1.2;
const DT: f32 = 1.0 / 60.0;
const RADIUS: f32 = 0.2;

fn endpoint_v4(port: u16) -> Endpoint {
    Endpoint { v6: false, ip: 0x7f00_0001, port, flowinfo: 0, scope_id: 0 }
}

fn dummy_addr() -> Endpoint {
    endpoint_v4(9999)
}

fn tile_centre(x: usize, y: usize) -> Pose {
    Pose { x: x as f32 + 0.5, y: y as f32 + 0.5, angle: 0.0 }
}

fn moved_to(p: &Pose, x: usize, y: usize) -> Pose {
    let _ = p;
    tile_centre(x, y)
}

fn player(gs: &GameState<Pose>, id: u32) -> &Player<Pose> {
    gs.players.iter().find(|p| p.id == id).expect("player")
}

/// The pose after one frame of `intent`, sliding along walls.
fn step_pose(gs: &GameState<Pose>, id: u32, intent: Intent) -> Pose {
    let p = player(gs, id).pose;
    let angle = p.angle + intent.turn_delta;
    let (mut dx, mut dy) = (0.0f32, 0.0f32);
    if intent.forward {
        dx += angle.cos() * MOVE_SPEED * DT;
        dy += angle.sin() * MOVE_SPEED * DT;
    }
    let wall = |x: f32, y: f32| x < 0.0 || y < 0.0 || gs.map.is_wall(x as usize, y as usize);
    let mut nx = p.x;
    let mut ny = p.y;
    if dx.abs() > 1e-6 && !wall(p.x + dx + RADIUS.copysign(dx), p.y) {
        nx += dx;
    }
    if dy.abs() > 1e-6 && !wall(p.x, p.y + dy + RADIUS.copysign(dy)) {
        ny += dy;
    }
    Pose { x: nx, y: ny, angle }
}

fn send(gs: &mut GameState<Pose>, id: u32, intent: Intent, shoot: bool, seq: u32, target: Option<u32>) {
    gs.process_input(
        id,
        shoot,
        seq,
        |g: &GameState<Pose>, pid: u32| step_pose(g, pid, intent),
        |_g: &GameState<Pose>, _pid: u32, _pose: &Pose| target,
        moved_to,
    );
}

#[test]
fn add_and_remove_player() {
    let mut gs: GameState<Pose> = GameState::new(1, Difficulty::Easy);
    gs.add_player(1, "Alice".into(), dummy_addr(), tile_centre);
    assert_eq!(gs.players.len(), 1);
    assert!(gs.remove_player(1));
    assert_eq!(gs.players.len(), 0);
}

#[test]
fn process_forward_input() {
    let mut gs: GameState<Pose> = GameState::new(1, Difficulty::Easy);
    let addr = dummy_addr();
    gs.add_player(1, "Bob".into(), addr, tile_centre);

    let start_x = player(&gs, 1).pose.x;
    let start_y = player(&gs, 1).pose.y;

    let input = Intent { forward: true, ..Default::default() };
    send(&mut gs, 1, input, false, 1, None);

    let p = player(&gs, 1);
    assert!(p.pose.x > start_x, "player should move forward in x");
    assert!((p.pose.y - start_y).abs() < 0.001);
}

#[test]
fn process_turn_input() {
    let mut gs: GameState<Pose> = GameState::new(1, Difficulty::Easy);
    gs.add_player(1, "Carol".into(), dummy_addr(), tile_centre);

    let start_angle = player(&gs, 1).pose.angle;
    // Positive turn_delta rotates the player clockwise (increasing angle)
    let input = Intent { turn_delta: 0.2, ..Default::default() };
    send(&mut gs, 1, input, false, 1, None);

    assert!(player(&gs, 1).pose.angle > start_angle);
}

#[test]
fn snapshot_contains_all_players() {
    let mut gs: GameState<Pose> = GameState::new(1, Difficulty::Easy);
    gs.add_player(1, "A".into(), endpoint_v4(1001), tile_centre);
    gs.add_player(2, "B".into(), endpoint_v4(1002), tile_centre);
    let snap = gs.snapshot();
    assert_eq!(snap.len(), 2);
}

#[test]
fn duplicate_input_seq_ignored() {
    let mut gs: GameState<Pose> = GameState::new(1, Difficulty::Easy);
    gs.add_player(1, "Dup".into(), dummy_addr(), tile_centre);

    let input = Intent { forward: true, ..Default::default() };
    send(&mut gs, 1, input, false, 1, None);
    let x_after_first = player(&gs, 1).pose.x;

    send(&mut gs, 1, input, false, 1, None);
    assert_eq!(player(&gs, 1).pose.x, x_after_first);
}

#[test]
fn level_starts_at_one() {
    let gs: GameState<Pose> = GameState::new(42, Difficulty::Easy);
    assert_eq!(gs.level, 1);
    assert_eq!(gs.total_frags, 0);
}

#[test]
fn players_spawn_on_successive_spawn_tiles() {
    let mut gs: GameState<Pose> = GameState::new(3, Difficulty::Easy);
    gs.add_player(10, "A".into(), endpoint_v4(1), tile_centre);
    gs.add_player(11, "B".into(), endpoint_v4(2), tile_centre);
    let (x0, y0) = gs.map.spawn_cells[0];
    let (x1, y1) = gs.map.spawn_cells[1];
    assert_eq!(player(&gs, 10).pose, tile_centre(x0, y0));
    assert_eq!(player(&gs, 11).pose, tile_centre(x1, y1));
    assert_eq!(player(&gs, 10).health, 100);
    assert_eq!(gs.find_spawn_nth(7), gs.find_spawn_nth(0));
    assert_eq!(gs.find_spawn_nth(8), gs.map.spawn_cells[1]);
    assert_eq!(gs.find_spawn(), gs.map.spawn_cells[0]);
}

#[test]
fn adding_an_existing_id_replaces_the_player() {
    let mut gs: GameState<Pose> = GameState::new(3, Difficulty::Easy);
    gs.add_player(1, "A".into(), endpoint_v4(1), tile_centre);
    gs.add_player(1, "A2".into(), endpoint_v4(2), tile_centre);
    assert_eq!(gs.players.len(), 1);
    assert_eq!(player(&gs, 1).name, "A2");
    assert_eq!(player(&gs, 1).addr, endpoint_v4(2));
}

#[test]
fn removing_an_unknown_player_changes_nothing() {
    let mut gs: GameState<Pose> = GameState::new(3, Difficulty::Easy);
    gs.add_player(1, "A".into(), endpoint_v4(1), tile_centre);
    assert!(!gs.remove_player(2));
    assert_eq!(gs.players.len(), 1);
}

#[test]
fn players_found_and_removed_by_address() {
    let mut gs: GameState<Pose> = GameState::new(3, Difficulty::Easy);
    gs.add_player(1, "A".into(), endpoint_v4(1001), tile_centre);
    gs.add_player(2, "B".into(), endpoint_v4(1002), tile_centre);
    assert_eq!(gs.player_id_by_addr(&endpoint_v4(1002)), Some(2));
    assert_eq!(gs.player_id_by_addr(&endpoint_v4(1003)), None);
    let v6 = Endpoint { v6: true, ..endpoint_v4(1002) };
    assert_eq!(gs.player_id_by_addr(&v6), None);
    assert_eq!(gs.remove_player_by_addr(&endpoint_v4(1001)), Some(1));
    assert_eq!(gs.players.len(), 1);
    assert_eq!(gs.players[0].id, 2);
    assert_eq!(gs.remove_player_by_addr(&endpoint_v4(1001)), None);
    assert_eq!(gs.players.len(), 1);
}

#[test]
fn shots_damage_then_frag_and_congratulate() {
    let mut gs: GameState<Pose> = GameState::new(9, Difficulty::Easy);
    gs.add_player(1, "Ann".into(), endpoint_v4(1), tile_centre);
    gs.add_player(2, "Ben".into(), endpoint_v4(2), tile_centre);
    for (i, health) in [75u8, 50, 25].iter().enumerate() {
        gs.resolve_shot(1, Some(2), moved_to);
        assert_eq!(player(&gs, 2).health, *health, "after shot {}", i + 1);
        assert!(!player(&gs, 2).is_game_over);
    }
    assert!(gs.message_queue.is_empty());
    gs.resolve_shot(1, Some(2), moved_to);
    assert_eq!(player(&gs, 2).health, 0);
    assert!(player(&gs, 2).is_game_over);
    assert_eq!(player(&gs, 1).frags, 1);
    assert_eq!(gs.total_frags, 1);
    assert_eq!(
        gs.message_queue,
        vec![
            "Ann fragged Ben! (1 kills)".to_string(),
            "🎉 CONGRATULATIONS! Ann is the last one standing! 🎉".to_string(),
        ]
    );
    // A dead target and the shooter itself are no targets.
    gs.resolve_shot(1, Some(2), moved_to);
    gs.resolve_shot(1, Some(1), moved_to);
    gs.resolve_shot(1, Some(77), moved_to);
    gs.resolve_shot(1, None, moved_to);
    assert_eq!(player(&gs, 1).health, 100);
    assert_eq!(player(&gs, 1).frags, 1);
    assert_eq!(gs.message_queue.len(), 2);
}

#[test]
fn respawn_only_after_game_over() {
    let mut gs: GameState<Pose> = GameState::new(9, Difficulty::Easy);
    gs.add_player(1, "Ann".into(), endpoint_v4(1), tile_centre);
    gs.add_player(2, "Ben".into(), endpoint_v4(2), tile_centre);
    assert!(!gs.respawn_player(2, tile_centre));
    assert!(!gs.respawn_player(5, tile_centre));
    for _ in 0..4 {
        gs.resolve_shot(1, Some(2), moved_to);
    }
    assert!(player(&gs, 2).is_game_over);
    assert!(gs.respawn_player(2, tile_centre));
    let p = player(&gs, 2);
    assert!(!p.is_game_over);
    assert_eq!(p.health, 100);
    let (x, y) = gs.map.spawn_cells[0];
    assert_eq!(p.pose, tile_centre(x, y));
    assert_eq!(p.frags, 0);
}

#[test]
fn five_frags_advance_to_level_two() {
    let mut gs: GameState<Pose> = GameState::new(1000, Difficulty::Easy);
    gs.add_player(1, "Ann".into(), endpoint_v4(1), tile_centre);
    gs.add_player(2, "Ben".into(), endpoint_v4(2), tile_centre);
    for round in 0..5 {
        for _ in 0..4 {
            gs.resolve_shot(1, Some(2), moved_to);
        }
        if round < 4 {
            assert_eq!(gs.level, 1);
            assert!(gs.respawn_player(2, tile_centre));
        }
    }
    assert_eq!(gs.level, 2);
    assert_eq!(gs.difficulty, Difficulty::Medium);
    assert_eq!(gs.total_frags, 0);
    let seed = 1000u64.wrapping_add(1442695040888963407);
    assert_eq!(gs.seed, seed);
    let pending = gs.pending_level_change.as_ref().expect("pending level change");
    assert_eq!((pending.seed, pending.difficulty, pending.level), (seed, Difficulty::Medium, 2));
    assert_eq!(gs.map.width, 31);
    assert_eq!(gs.message_queue.last().unwrap(), "=== LEVEL 2 START! Maze grows harder... ===");
    assert_eq!(player(&gs, 1).frags, 5);
    assert_eq!(player(&gs, 2).health, 100);
    // Everyone comes back into play on the new level.
    assert!(!player(&gs, 2).is_game_over);
    let (x1, y1) = gs.map.spawn_cells[1];
    assert_eq!(player(&gs, 2).pose, tile_centre(x1, y1));
}

#[test]
fn shooting_waits_for_the_cooldown() {
    let mut gs: GameState<Pose> = GameState::new(9, Difficulty::Easy);
    gs.add_player(1, "Ann".into(), endpoint_v4(1), tile_centre);
    gs.add_player(2, "Ben".into(), endpoint_v4(2), tile_centre);
    let still = Intent::default();
    send(&mut gs, 1, still, true, 1, Some(2));
    assert_eq!(player(&gs, 2).health, 100);
    for _ in 0..30 {
        gs.tick();
    }
    send(&mut gs, 1, still, true, 2, Some(2));
    assert_eq!(player(&gs, 2).health, 75);
    assert_eq!(player(&gs, 1).last_shot_tick, 30);
    send(&mut gs, 1, still, true, 3, Some(2));
    assert_eq!(player(&gs, 2).health, 75);
    assert_eq!(player(&gs, 1).last_input_seq, 3);
}

#[test]
fn input_of_unknown_player_is_ignored() {
    let mut gs: GameState<Pose> = GameState::new(9, Difficulty::Easy);
    gs.add_player(1, "Ann".into(), endpoint_v4(1), tile_centre);
    let before = player(&gs, 1).pose;
    send(&mut gs, 2, Intent { forward: true, ..Default::default() }, false, 1, None);
    assert_eq!(player(&gs, 1).pose, before);
    assert_eq!(player(&gs, 1).last_input_seq, 0);
}

#[test]
fn tick_wraps_around() {
    let mut gs: GameState<Pose> = GameState::new(9, Difficulty::Easy);
    gs.tick = u32::MAX;
    gs.tick();
    assert_eq!(gs.tick, 0);
}

#[test]
fn snapshot_encodes_names() {
    let mut gs: GameState<Pose> = GameState::new(1, Difficulty::Easy);
    gs.add_player(4, "Zed".into(), endpoint_v4(1), tile_centre);
    let snap = gs.snapshot();
    assert_eq!(snap[0].id, 4);
    assert_eq!(&snap[0].name[..3], b"Zed");
    assert!(snap[0].name[3..].iter().all(|b| *b == 0));
    assert_eq!(snap[0].health, 100);
    assert!(!snap[0].is_game_over);
}

#[test]
fn level_map_is_the_one_built_from_the_new_seed() {
    let mut gs: GameState<Pose> = GameState::new(77, Difficulty::Easy);
    gs.add_player(1, "Ann".into(), endpoint_v4(1), tile_centre);
    gs.add_player(2, "Ben".into(), endpoint_v4(2), tile_centre);
    for round in 0..5 {
        for _ in 0..4 {
            gs.resolve_shot(1, Some(2), moved_to);
        }
        if round < 4 {
            assert!(gs.respawn_player(2, tile_centre));
        }
    }
    let pending = gs.pending_level_change.as_ref().unwrap();
    let rebuilt = maze_wars::maze::GameMap::generate(pending.seed, pending.difficulty);
    assert_eq!(rebuilt.grid, gs.map.grid);
    assert_eq!(rebuilt.spawn_cells, gs.map.spawn_cells);
}
