use maze_wars::maze::Difficulty;
use maze_wars::protocol::{encode_name, PlayerState};
use maze_wars::session::{
    connect_screen_keys, connect_step, connect_timed_out, dashboard, find_state, ConnectEvent, ConnectStep, push_bounded, rank_players, round_status, trim_messages, ClientSession, FrameKeys,
    KeyOutcome, Leave, SnapshotUse, MAX_BULLET_MARKS, MAX_MESSAGES,
};

fn state(id: u32, frags: u32, over: bool) -> PlayerState<(i32, i32)> {
    PlayerState { id, name: encode_name(&format!("P{}", id)), pose: (0, 0), health: 100, frags, is_game_over: over }
}

fn no_keys() -> FrameKeys {
    FrameKeys { tab: false, escape: false, alt: false, respawn: false, quit: false }
}

const QUIET: KeyOutcome = KeyOutcome { grab_cursor: false, release_cursor: false, send_respawn: false, leave: None };

#[test]
fn round_status_decides_winner_and_game_over() {
    let ps = vec![state(1, 0, false), state(2, 0, true)];
    assert_eq!(round_status(&ps, &ps[0]), (true, true));
    assert_eq!(round_status(&ps, &ps[1]), (false, true));
    let both = vec![state(1, 0, false), state(2, 0, false)];
    assert_eq!(round_status(&both, &both[0]), (false, false));
    // Alone on the server nobody has won.
    let alone = vec![state(1, 0, false)];
    assert_eq!(round_status(&alone, &alone[0]), (false, false));
}

#[test]
fn find_state_finds_the_first_entry() {
    let ps = vec![state(3, 0, false), state(5, 1, false), state(5, 2, false)];
    assert_eq!(find_state(&ps, 5), Some(1));
    assert_eq!(find_state(&ps, 4), None);
}

#[test]
fn only_the_newest_messages_are_kept() {
    let mut m: Vec<String> = (0..11).map(|i| format!("m{}", i)).collect();
    trim_messages(&mut m);
    assert_eq!(m.len(), MAX_MESSAGES);
    assert_eq!(m[0], "m3");
    assert_eq!(m[7], "m10");
    let mut few = vec!["a".to_string()];
    trim_messages(&mut few);
    assert_eq!(few, vec!["a".to_string()]);
}

#[test]
fn bounded_list_drops_the_oldest() {
    let mut v: Vec<u32> = (0..MAX_BULLET_MARKS as u32).collect();
    push_bounded(&mut v, 999, MAX_BULLET_MARKS);
    assert_eq!(v.len(), MAX_BULLET_MARKS);
    assert_eq!(v[0], 1);
    assert_eq!(*v.last().unwrap(), 999);
    let mut w = vec![1, 2];
    push_bounded(&mut w, 3, 64);
    assert_eq!(w, vec![1, 2, 3]);
}

#[test]
fn leaderboard_order() {
    let ps = vec![state(4, 1, false), state(2, 3, false), state(1, 1, false), state(9, 0, true)];
    let ranked = rank_players(&ps);
    let ids: Vec<u32> = ranked.iter().map(|p| p.id).collect();
    assert_eq!(ids, vec![2, 1, 4, 9]);
}

#[test]
fn dashboard_lists_seven_and_counts_the_rest() {
    let ps: Vec<PlayerState<(i32, i32)>> = (1..=9).map(|i| state(i, 10 - i, false)).collect();
    let (rows, more) = dashboard(&ps, 2);
    assert_eq!(rows.len(), 7);
    assert_eq!(rows[0].name, "P1");
    assert_eq!(rows[0].frags, "9");
    assert!(!rows[0].is_me);
    assert!(rows[1].is_me);
    assert_eq!(more, Some("...2 other players".to_string()));
    let (rows2, more2) = dashboard(&ps[..3].to_vec(), 7);
    assert_eq!(rows2.len(), 3);
    assert!(rows2.iter().all(|r| !r.is_me));
    assert_eq!(more2, None);
}

#[test]
fn settings_open_and_close() {
    let mut s = ClientSession::new(1);
    assert!(s.takes_input());
    let o = s.handle_keys(FrameKeys { tab: true, ..no_keys() });
    assert_eq!(o, KeyOutcome { release_cursor: true, ..QUIET });
    assert!(s.settings_open);
    assert!(!s.takes_input());
    // Alt does not close them; Escape does, without leaving.
    assert_eq!(s.handle_keys(FrameKeys { alt: true, ..no_keys() }), QUIET);
    let o = s.handle_keys(FrameKeys { escape: true, ..no_keys() });
    assert_eq!(o, KeyOutcome { grab_cursor: true, ..QUIET });
    assert!(!s.settings_open);
}

#[test]
fn quitting_while_playing_exits() {
    let mut s = ClientSession::new(1);
    let o = s.handle_keys(FrameKeys { quit: true, tab: true, ..no_keys() });
    assert_eq!(o.leave, Some(Leave::Exit));
    assert!(!s.settings_open);
}

#[test]
fn snapshots_drive_the_round_status() {
    let mut s = ClientSession::new(1);
    let ps = vec![state(1, 0, false), state(2, 0, true)];
    assert_eq!(s.on_snapshot(5, &ps), SnapshotUse { accepted: true, local: Some(0) });
    assert!(s.is_winner && s.game_over);
    assert_eq!(s.last_snapshot_tick, 5);
    // Older or equal ticks are not used.
    assert_eq!(s.on_snapshot(5, &ps), SnapshotUse { accepted: false, local: None });
    assert_eq!(s.on_snapshot(4, &Vec::<PlayerState<(i32, i32)>>::new()), SnapshotUse { accepted: false, local: None });
    // After the round: the cursor is freed once, R respawns, Escape goes to the lobby.
    let o = s.handle_keys(FrameKeys { respawn: true, ..no_keys() });
    assert_eq!(o, KeyOutcome { release_cursor: true, send_respawn: true, ..QUIET });
    s.end_frame();
    assert!(s.was_game_over);
    let o = s.handle_keys(FrameKeys { escape: true, ..no_keys() });
    assert_eq!(o, KeyOutcome { leave: Some(Leave::ToLobby), ..QUIET });
    s.on_level_change();
    assert!(!s.is_winner);
    assert!(s.game_over);
    // A snapshot without the local player leaves the status alone.
    let others = vec![state(2, 0, false), state(3, 0, false)];
    assert_eq!(s.on_snapshot(6, &others), SnapshotUse { accepted: true, local: None });
    assert!(s.game_over);
    let back = vec![state(1, 0, false), state(2, 0, false)];
    assert_eq!(s.on_snapshot(7, &back), SnapshotUse { accepted: true, local: Some(0) });
    assert!(!s.game_over && !s.is_winner);
}

#[test]
fn inputs_are_numbered_from_one() {
    let mut s = ClientSession::new(1);
    assert_eq!(s.next_input_sequence(), 1);
    assert_eq!(s.next_input_sequence(), 2);
    assert_eq!(s.input_sequence, 2);
}

#[test]
fn frames_with_input_are_numbered_in_turn() {
    let mut s = ClientSession::new(1);
    assert_eq!(s.frame_input(true), Some(1));
    assert_eq!(s.frame_input(false), None);
    assert_eq!(s.frame_input(true), Some(2));
    s.handle_keys(FrameKeys { tab: true, ..no_keys() });
    assert_eq!(s.frame_input(true), None);
    assert_eq!(s.input_sequence, 2);
}

#[test]
fn waiting_for_the_server() {
    assert!(!connect_timed_out(4));
    assert!(connect_timed_out(5));
    assert_eq!(connect_step(ConnectEvent::Other), ConnectStep::Wait);
    assert_eq!(connect_step(ConnectEvent::ReceiveError), ConnectStep::Failed);
    assert_eq!(
        connect_step(ConnectEvent::Accepted { player_id: 3, seed: 9, difficulty: Difficulty::Hard }),
        ConnectStep::Connected { player_id: 3, seed: 9, difficulty: Difficulty::Hard }
    );
}

#[test]
fn keys_around_connecting() {
    assert_eq!(connect_screen_keys(false, false, true), Some(Leave::ToLobby));
    assert_eq!(connect_screen_keys(false, true, false), None);
    assert_eq!(connect_screen_keys(true, true, true), Some(Leave::ToLobby));
    assert_eq!(connect_screen_keys(true, false, true), Some(Leave::Exit));
    assert_eq!(connect_screen_keys(true, false, false), None);
}
