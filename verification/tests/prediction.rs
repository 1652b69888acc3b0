use maze_wars::maze::{Difficulty, GameMap};
use maze_wars::prediction::{PendingInput, PredictionLocal};
use maze_wars::protocol::PlayerState;

/// Moves one tile right per input, unless the tile there is a wall.
fn walk(p: &(usize, usize), steps: &u32, m: &GameMap) -> (usize, usize) {
    let mut q = *p;
    for _ in 0..*steps {
        if !m.is_wall(q.0 + 1, q.1) {
            q.0 += 1;
        }
    }
    q
}

fn plain_step(p: &(i64, i64), d: &i64, _m: &GameMap) -> (i64, i64) {
    (p.0 + d, p.1)
}

fn server_state(x: i64, frags: u32) -> PlayerState<(i64, i64)> {
    PlayerState { id: 3, name: [0; 24], pose: (x, 0), health: 60, frags, is_game_over: false }
}

#[test]
fn fresh_prediction_is_empty() {
    let p: PredictionLocal<(i64, i64), i64> = PredictionLocal::new((1, 1));
    assert_eq!(p.local_state.pose, (1, 1));
    assert_eq!(p.local_state.health, 100);
    assert!(p.unacked_inputs.is_empty());
    assert!(p.map.is_none());
}

#[test]
fn without_a_map_inputs_are_not_predicted() {
    let mut p: PredictionLocal<(i64, i64), i64> = PredictionLocal::new((0, 0));
    p.add_input(1, 5, plain_step);
    assert_eq!(p.local_state.pose, (0, 0));
    assert!(p.unacked_inputs.is_empty());
}

#[test]
fn reconcile_replays_unacknowledged_inputs() {
    let mut p: PredictionLocal<(i64, i64), i64> = PredictionLocal::new((0, 0));
    p.map = Some(GameMap::generate(1, Difficulty::Easy));
    p.add_input(1, 1, plain_step);
    p.add_input(2, 10, plain_step);
    p.add_input(3, 100, plain_step);
    assert_eq!(p.local_state.pose, (111, 0));
    // The server has processed input 1 and put us at x = 50.
    p.reconcile(&server_state(50, 2), 7, 1, plain_step);
    assert_eq!(p.local_state.pose, (160, 0));
    assert_eq!(p.local_state.health, 60);
    assert_eq!(p.local_state.frags, 2);
    let seqs: Vec<u32> = p.unacked_inputs.iter().map(|i: &PendingInput<i64>| i.sequence).collect();
    assert_eq!(seqs, vec![2, 3]);
    assert_eq!(p.latest_server_tick, 7);
    // An older snapshot is ignored.
    p.reconcile(&server_state(0, 0), 6, 3, plain_step);
    assert_eq!(p.local_state.pose, (160, 0));
    assert_eq!(p.unacked_inputs.len(), 2);
}

#[test]
fn reconcile_without_map_snaps_to_server() {
    let mut p: PredictionLocal<(i64, i64), i64> = PredictionLocal::new((0, 0));
    p.reconcile(&server_state(9, 0), 1, 0, plain_step);
    assert_eq!(p.local_state.pose, (9, 0));
    assert_eq!(p.local_state.id, 3);
}

#[test]
fn prediction_uses_the_map() {
    let m = GameMap::generate(4, Difficulty::Easy);
    let start = m.spawn_cells[0];
    let mut p: PredictionLocal<(usize, usize), u32> = PredictionLocal::new(start);
    p.map = Some(m);
    p.add_input(1, 50, walk);
    let end = p.local_state.pose;
    assert_eq!(end.1, start.1);
    assert!(p.map.as_ref().unwrap().is_wall(end.0 + 1, end.1));
}
