use maze_wars::network::{Endpoint, SequenceState};

#[test]
fn headers_count_up_and_carry_the_ack() {
    let mut s = SequenceState::new();
    assert_eq!(s.next_header(), (0, 0));
    assert_eq!(s.next_header(), (1, 0));
    s.observe_remote(5);
    assert_eq!(s.next_header(), (2, 5));
    assert_eq!(s.next_sequence, 3);
}

#[test]
fn outgoing_sequence_wraps() {
    let mut s = SequenceState { next_sequence: u32::MAX, last_remote_sequence: 0 };
    assert_eq!(s.next_header(), (u32::MAX, 0));
    assert_eq!(s.next_sequence, 0);
}

#[test]
fn late_and_duplicate_packets_keep_the_ack() {
    let mut s = SequenceState::new();
    s.observe_remote(10);
    assert_eq!(s.last_remote_sequence, 10);
    s.observe_remote(9);
    assert_eq!(s.last_remote_sequence, 10);
    s.observe_remote(11);
    assert_eq!(s.last_remote_sequence, 11);
    // 11 itself: 0 ahead, which counts as newer.
    s.observe_remote(11);
    assert_eq!(s.last_remote_sequence, 11);
}

#[test]
fn ack_follows_sequence_numbers_across_the_wrap() {
    let mut s = SequenceState { next_sequence: 0, last_remote_sequence: u32::MAX - 1 };
    s.observe_remote(2);
    assert_eq!(s.last_remote_sequence, 2);
    // Half the space ahead or more counts as old.
    let mut t = SequenceState::new();
    t.observe_remote(u32::MAX / 2);
    assert_eq!(t.last_remote_sequence, 0);
    t.observe_remote(u32::MAX / 2 - 1);
    assert_eq!(t.last_remote_sequence, u32::MAX / 2 - 1);
}

#[test]
fn endpoints_compare_by_all_fields() {
    let a = Endpoint { v6: false, ip: 1, port: 2, flowinfo: 0, scope_id: 0 };
    assert_eq!(a, a.clone());
    assert_ne!(a, Endpoint { port: 3, ..a });
    assert_ne!(a, Endpoint { v6: true, ..a });
    assert_ne!(a, Endpoint { scope_id: 1, ..a });
}
