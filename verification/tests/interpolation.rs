use maze_wars::interpolation::{Bracket, InterpolationRemote, HISTORY_LEN};
use maze_wars::protocol::PlayerState;

fn st(id: u32, x: i32) -> PlayerState<i32> {
    PlayerState { id, name: [0; 24], pose: x, health: 100, frags: 0, is_game_over: false }
}

#[test]
fn local_player_is_left_out_and_ids_kept_once() {
    let mut h: InterpolationRemote<u64, i32> = InterpolationRemote::new();
    h.push_snapshot(1, vec![st(1, 0), st(2, 5), st(3, 7), st(2, 6)], 1, 100);
    assert_eq!(h.history.len(), 1);
    let ids: Vec<(u32, i32)> = h.history[0].players.iter().map(|p| (p.id, p.pose)).collect();
    assert_eq!(ids, vec![(2, 6), (3, 7)]);
    assert_eq!(h.history[0].timestamp, 100);
}

#[test]
fn stale_snapshots_are_dropped_and_history_is_bounded() {
    let mut h: InterpolationRemote<u64, i32> = InterpolationRemote::new();
    h.push_snapshot(5, vec![], 0, 1);
    h.push_snapshot(5, vec![], 0, 2);
    h.push_snapshot(3, vec![], 0, 3);
    assert_eq!(h.history.len(), 1);
    for t in 6..40u32 {
        h.push_snapshot(t, vec![], 0, t as u64);
    }
    assert_eq!(h.history.len(), HISTORY_LEN);
    assert_eq!(h.history[0].tick, 20);
    assert_eq!(h.history[HISTORY_LEN - 1].tick, 39);
}

#[test]
fn render_time_brackets() {
    let mut h: InterpolationRemote<u64, i32> = InterpolationRemote::new();
    assert_eq!(h.bracket(|t: &u64| *t <= 10), Bracket::Empty);
    for (tick, ts) in [(1u32, 100u64), (2, 200), (3, 300)] {
        h.push_snapshot(tick, vec![st(2, tick as i32)], 1, ts);
    }
    assert_eq!(h.bracket(|t: &u64| *t <= 250), Bracket::Between(1, 2));
    assert_eq!(h.bracket(|t: &u64| *t <= 50), Bracket::OnlyNewer(0));
    assert_eq!(h.bracket(|t: &u64| *t <= 999), Bracket::OnlyOlder(2));
}

#[test]
fn snapshots_pair_players_by_id() {
    let mut h: InterpolationRemote<u64, i32> = InterpolationRemote::new();
    h.push_snapshot(1, vec![st(2, 0), st(3, 0), st(4, 0)], 1, 10);
    h.push_snapshot(2, vec![st(4, 1), st(2, 1)], 1, 20);
    assert_eq!(h.matching_entries(0, 1), vec![Some(1), None, Some(0)]);
    assert_eq!(h.matching_entries(1, 0), vec![Some(2), Some(0)]);
}
