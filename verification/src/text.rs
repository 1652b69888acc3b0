//! Decimal rendering of counters, the server's announcement texts and the
//! texts the client shows.
use vstd::prelude::*;
use vstd::string::*;
use crate::maze::Difficulty;

verus! {

/// The character of a decimal digit.
pub open spec fn digit_char(d: nat) -> char {
    if d == 0 { '0' } else if d == 1 { '1' } else if d == 2 { '2' } else if d == 3 { '3' } else if d == 4 {
        '4'
    } else if d == 5 { '5' } else if d == 6 { '6' } else if d == 7 { '7' } else if d == 8 { '8' } else {
        '9'
    }
}

/// The decimal representation of `n`, without leading zeros.
pub open spec fn decimal(n: nat) -> Seq<char>
    decreases n,
{
    if n < 10 {
        seq![digit_char(n)]
    } else {
        decimal(n / 10) + seq![digit_char(n % 10)]
    }
}

fn digit_str(d: u32) -> (r: &'static str)
    requires
        d < 10,
    ensures
        r@ == seq![digit_char(d as nat)],
{
    proof {
        reveal_strlit("0");
        reveal_strlit("1");
        reveal_strlit("2");
        reveal_strlit("3");
        reveal_strlit("4");
        reveal_strlit("5");
        reveal_strlit("6");
        reveal_strlit("7");
        reveal_strlit("8");
        reveal_strlit("9");
    }
    if d == 0 { "0" } else if d == 1 { "1" } else if d == 2 { "2" } else if d == 3 { "3" } else if d == 4 {
        "4"
    } else if d == 5 { "5" } else if d == 6 { "6" } else if d == 7 { "7" } else if d == 8 { "8" } else {
        "9"
    }
}

/// Appends the decimal representation of `n` to `s`.
pub fn push_decimal(s: &mut String, n: u64)
    ensures
        final(s)@ == old(s)@ + decimal(n as nat),
    decreases n,
{
    if n >= 10 {
        push_decimal(s, n / 10);
    }
    s.append(digit_str((n % 10) as u32));
    assert(final(s)@ =~= old(s)@ + decimal(n as nat));
}

/// Announcement of a frag.
pub open spec fn frag_text(shooter: Seq<char>, target: Seq<char>, kills: u32) -> Seq<char> {
    shooter + " fragged "@ + target + "! ("@ + decimal(kills as nat) + " kills)"@
}

/// Announcement of the last player left alive.
pub open spec fn winner_text(name: Seq<char>) -> Seq<char> {
    "🎉 CONGRATULATIONS! "@ + name + " is the last one standing! 🎉"@
}

/// Announcement of a new level.
pub open spec fn level_text(level: u8) -> Seq<char> {
    "=== LEVEL "@ + decimal(level as nat) + " START! Maze grows harder... ==="@
}

/// "`shooter` fragged `target`! (`kills` kills)"
pub fn frag_message(shooter: &str, target: &str, kills: u32) -> (r: String)
    ensures
        r@ == frag_text(shooter@, target@, kills),
{
    let mut s = String::from_str(shooter);
    s.append(" fragged ");
    s.append(target);
    s.append("! (");
    push_decimal(&mut s, kills as u64);
    s.append(" kills)");
    assert(s@ =~= frag_text(shooter@, target@, kills));
    s
}

/// "🎉 CONGRATULATIONS! `name` is the last one standing! 🎉"
pub fn winner_message(name: &str) -> (r: String)
    ensures
        r@ == winner_text(name@),
{
    let mut s = String::from_str("🎉 CONGRATULATIONS! ");
    s.append(name);
    s.append(" is the last one standing! 🎉");
    assert(s@ =~= winner_text(name@));
    s
}

/// "=== LEVEL `level` START! Maze grows harder... ==="
pub fn level_message(level: u8) -> (r: String)
    ensures
        r@ == level_text(level),
{
    let mut s = String::from_str("=== LEVEL ");
    push_decimal(&mut s, level as u64);
    s.append(" START! Maze grows harder... ===");
    assert(s@ =~= level_text(level));
    s
}


/// The name a difficulty is shown under.
pub open spec fn difficulty_text(d: Difficulty) -> Seq<char> {
    match d {
        Difficulty::Easy => "Easy"@,
        Difficulty::Medium => "Medium"@,
        Difficulty::Hard => "Hard"@,
    }
}

/// The name a difficulty is shown under: "Easy", "Medium" or "Hard".
pub fn difficulty_name(d: Difficulty) -> (r: &'static str)
    ensures
        r@ == difficulty_text(d),
{
    match d {
        Difficulty::Easy => "Easy",
        Difficulty::Medium => "Medium",
        Difficulty::Hard => "Hard",
    }
}

/// The client's notice of a new level.
pub open spec fn level_change_text(level: u8, d: Difficulty) -> Seq<char> {
    "=== LEVEL "@ + decimal(level as nat) + " - "@ + difficulty_text(d) + " ==="@
}

/// The client's greeting, with the controls.
pub open spec fn welcome_text(name: Seq<char>) -> Seq<char> {
    "Welcome "@ + name + "!  WASD=move  Mouse=aim  Click=shoot  Tab=settings  Q=quit"@
}

/// The leaderboard's note on the players it does not list.
pub open spec fn more_players_text(n: nat) -> Seq<char> {
    "..."@ + decimal(n) + " other players"@
}

/// "=== LEVEL `level` - `difficulty` ==="
pub fn level_change_message(level: u8, d: Difficulty) -> (r: String)
    ensures
        r@ == level_change_text(level, d),
{
    let mut s = String::from_str("=== LEVEL ");
    push_decimal(&mut s, level as u64);
    s.append(" - ");
    s.append(difficulty_name(d));
    s.append(" ===");
    assert(s@ =~= level_change_text(level, d));
    s
}

/// "Welcome `name`!" and the controls.
pub fn welcome_message(name: &str) -> (r: String)
    ensures
        r@ == welcome_text(name@),
{
    let mut s = String::from_str("Welcome ");
    s.append(name);
    s.append("!  WASD=move  Mouse=aim  Click=shoot  Tab=settings  Q=quit");
    assert(s@ =~= welcome_text(name@));
    s
}

/// "...`n` other players"
pub fn more_players_message(n: u64) -> (r: String)
    ensures
        r@ == more_players_text(n as nat),
{
    let mut s = String::from_str("...");
    push_decimal(&mut s, n);
    s.append(" other players");
    assert(s@ =~= more_players_text(n as nat));
    s
}

/// The decimal text of a counter.
pub fn count_text(n: u64) -> (r: String)
    ensures
        r@ == decimal(n as nat),
{
    let mut s = String::new();
    push_decimal(&mut s, n);
    assert(s@ =~= decimal(n as nat));
    s
}

} // verus!
