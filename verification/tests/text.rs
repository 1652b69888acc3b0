use maze_wars::maze::Difficulty;
use maze_wars::text::{
    count_text, difficulty_name, frag_message, level_change_message, level_message, more_players_message,
    push_decimal, welcome_message, winner_message,
};

#[test]
fn decimals_have_no_leading_zeros() {
    assert_eq!(count_text(0), "0");
    assert_eq!(count_text(7), "7");
    assert_eq!(count_text(10), "10");
    assert_eq!(count_text(4096), "4096");
    assert_eq!(count_text(u64::MAX), "18446744073709551615");
    let mut s = String::from("x=");
    push_decimal(&mut s, 305);
    assert_eq!(s, "x=305");
}

#[test]
fn frag_announcement() {
    assert_eq!(frag_message("Ann", "Ben", 3), "Ann fragged Ben! (3 kills)");
}

#[test]
fn winner_announcement() {
    assert_eq!(winner_message("Ann"), "🎉 CONGRATULATIONS! Ann is the last one standing! 🎉");
}

#[test]
fn level_announcement() {
    assert_eq!(level_message(2), "=== LEVEL 2 START! Maze grows harder... ===");
}

#[test]
fn level_change_notice_names_the_difficulty() {
    assert_eq!(level_change_message(3, Difficulty::Hard), "=== LEVEL 3 - Hard ===");
    assert_eq!(level_change_message(2, Difficulty::Medium), "=== LEVEL 2 - Medium ===");
    assert_eq!(difficulty_name(Difficulty::Easy), format!("{:?}", Difficulty::Easy));
}

#[test]
fn welcome_lists_the_controls() {
    assert_eq!(
        welcome_message("Zoe"),
        "Welcome Zoe!  WASD=move  Mouse=aim  Click=shoot  Tab=settings  Q=quit"
    );
}

#[test]
fn leaderboard_overflow_note() {
    assert_eq!(more_players_message(3), "...3 other players");
}
