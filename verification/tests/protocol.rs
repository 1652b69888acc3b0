use maze_wars::protocol::{
    decode_name, encode_name, fit_packet, DEFAULT_SERVER_PORT, MAX_HEALTH, MAX_PACKET_SIZE, NAME_LEN, TICK_RATE,
    WEAPON_COOLDOWN_TICKS, WEAPON_DAMAGE,
};

#[test]
fn constants_match_the_protocol() {
    assert_eq!(MAX_PACKET_SIZE, 2048);
    assert_eq!(DEFAULT_SERVER_PORT, 7878);
    assert_eq!(TICK_RATE, 60);
    assert_eq!(MAX_HEALTH, 100);
    assert_eq!(WEAPON_DAMAGE, 25);
    assert_eq!(WEAPON_COOLDOWN_TICKS, 30);
    assert_eq!(NAME_LEN, 24);
}

#[test]
fn short_name_round_trips() {
    let buf = encode_name("Alice");
    assert_eq!(&buf[..5], b"Alice");
    assert!(buf[5..].iter().all(|b| *b == 0));
    assert_eq!(decode_name(&buf), "Alice");
}

#[test]
fn empty_name_is_all_zero() {
    let buf = encode_name("");
    assert_eq!(buf, [0u8; 24]);
    assert_eq!(decode_name(&buf), "");
}

#[test]
fn long_name_is_cut_after_24_bytes() {
    let name = "abcdefghijklmnopqrstuvwxyz";
    let buf = encode_name(name);
    assert_eq!(&buf[..], &name.as_bytes()[..24]);
    assert_eq!(decode_name(&buf), "abcdefghijklmnopqrstuvwx");
}

#[test]
fn name_of_exactly_24_bytes_round_trips() {
    let name = "ABCDEFGHIJKLMNOPQRSTUVWX";
    assert_eq!(decode_name(&encode_name(name)), name);
}

#[test]
fn multibyte_name_round_trips_when_it_fits() {
    let name = "Zoë 🎮";
    assert_eq!(decode_name(&encode_name(name)), name);
}

#[test]
fn cut_inside_a_character_reads_as_empty() {
    // 23 ASCII bytes then a 2-byte character: the cut splits the character.
    let name = "ABCDEFGHIJKLMNOPQRSTUVWé";
    let buf = encode_name(name);
    assert_eq!(buf[23], 0xC3);
    assert_eq!(decode_name(&buf), "");
}

#[test]
fn invalid_utf8_reads_as_empty() {
    let mut buf = [0u8; 24];
    buf[0] = 0xFF;
    assert_eq!(decode_name(&buf), "");
}

#[test]
fn trailing_nuls_are_dropped_but_inner_ones_kept() {
    let mut buf = [0u8; 24];
    buf[0] = b'a';
    buf[2] = b'b';
    assert_eq!(decode_name(&buf), "a\0b");
}

#[test]
fn packet_at_limit_is_kept() {
    let bytes = vec![7u8; 2048];
    assert_eq!(fit_packet(bytes.clone()), Some(bytes));
    assert_eq!(fit_packet(Vec::new()), Some(Vec::new()));
}

#[test]
fn packet_over_limit_is_dropped() {
    assert_eq!(fit_packet(vec![0u8; 2049]), None);
}
