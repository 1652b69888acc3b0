use maze_wars::maze::Difficulty;
use maze_wars::network::Endpoint;
use maze_wars::server::ServerState;

fn peer(port: u16) -> Endpoint {
    Endpoint { v6: false, ip: 0x0a00_0002, port, flowinfo: 0, scope_id: 0 }
}

fn at_tile(x: usize, y: usize) -> (usize, usize) {
    (x, y)
}

#[test]
fn clients_get_increasing_ids_and_the_current_maze() {
    let mut s: ServerState<(usize, usize)> = ServerState::new(77, Difficulty::Easy);
    let w1 = s.connect("Ann".into(), peer(1), at_tile).expect("welcome");
    let w2 = s.connect("Ben".into(), peer(2), at_tile).expect("welcome");
    assert_eq!((w1.player_id, w2.player_id), (1, 2));
    assert_eq!((w1.seed, w1.difficulty), (77, Difficulty::Easy));
    assert!(w1.level_change.is_none());
    assert_eq!(s.client_id(&peer(2)), Some(2));
    assert_eq!(s.game.players[1].pose, s.game.map.spawn_cells[1]);
    assert_eq!(s.next_player_id, 3);
}

#[test]
fn second_connect_from_same_address_is_ignored() {
    let mut s: ServerState<(usize, usize)> = ServerState::new(77, Difficulty::Easy);
    assert!(s.connect("Ann".into(), peer(1), at_tile).is_some());
    assert!(s.connect("Ann again".into(), peer(1), at_tile).is_none());
    assert_eq!(s.game.players.len(), 1);
    assert_eq!(s.next_player_id, 2);
}

#[test]
fn disconnect_removes_only_that_client() {
    let mut s: ServerState<(usize, usize)> = ServerState::new(77, Difficulty::Easy);
    s.connect("Ann".into(), peer(1), at_tile);
    s.connect("Ben".into(), peer(2), at_tile);
    assert_eq!(s.disconnect(&peer(1)), Some(1));
    assert_eq!(s.client_id(&peer(1)), None);
    assert_eq!(s.client_id(&peer(2)), Some(2));
    assert_eq!(s.disconnect(&peer(1)), None);
    // Ids are not reused.
    let w = s.connect("Cid".into(), peer(1), at_tile).unwrap();
    assert_eq!(w.player_id, 3);
}

#[test]
fn late_joiners_hear_about_the_level() {
    let mut s: ServerState<(usize, usize)> = ServerState::new(77, Difficulty::Easy);
    s.game.level = 2;
    let w = s.connect("Ann".into(), peer(1), at_tile).unwrap();
    let lc = w.level_change.expect("level change");
    assert_eq!((lc.seed, lc.difficulty, lc.level), (77, Difficulty::Easy, 2));
}

#[test]
fn end_of_tick_broadcast() {
    let mut s: ServerState<(usize, usize)> = ServerState::new(77, Difficulty::Easy);
    s.connect("Ann".into(), peer(1), at_tile);
    s.connect("Ben".into(), peer(2), at_tile);
    s.game.message_queue.push("hello".into());
    let b = s.end_tick();
    assert_eq!(b.tick, 1);
    assert_eq!(b.messages, vec!["hello".to_string()]);
    assert!(b.level_change.is_none());
    assert_eq!(b.recipients, vec![peer(1), peer(2)]);
    assert_eq!(b.players.len(), 2);
    assert_eq!(b.players[1].id, 2);
    assert!(s.game.message_queue.is_empty());
    let b2 = s.end_tick();
    assert_eq!(b2.tick, 2);
    assert!(b2.messages.is_empty());
}
