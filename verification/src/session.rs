//! Decisions of the client's game session that do not touch the screen or
//! the network: the end-of-round status, the bounded message and
//! bullet-mark lists, and the leaderboard order.
use vstd::prelude::*;
use crate::maze::Difficulty;
use crate::protocol::{decode_name, field_name, PlayerState};
use crate::text::{count_text, decimal, more_players_message, more_players_text};

verus! {

/// Most messages shown on screen.
pub const MAX_MESSAGES: usize = 8;

/// Most bullet marks kept on the walls.
pub const MAX_BULLET_MARKS: usize = 64;

/// Number of players not in game over state.
pub open spec fn alive_states<P>(ps: Seq<PlayerState<P>>) -> nat
    decreases ps.len(),
{
    if ps.len() == 0 {
        0
    } else {
        alive_states(ps.drop_last()) + if !ps.last().is_game_over { 1nat } else { 0nat }
    }
}

/// The local player has won: alive, the only one alive, among several players.
pub open spec fn spec_is_winner<P>(players: Seq<PlayerState<P>>, me: PlayerState<P>) -> bool {
    !me.is_game_over && alive_states(players) == 1 && players.len() > 1
}

/// What the local player sees after a snapshot: whether they won, and
/// whether the round is over for them (eliminated or winner).
pub fn round_status<P>(players: &Vec<PlayerState<P>>, me: &PlayerState<P>) -> (r: (bool, bool))
    ensures
        r.0 == spec_is_winner(players@, *me),
        r.1 == (me.is_game_over || spec_is_winner(players@, *me)),
{
    let mut alive: usize = 0;
    let mut k: usize = 0;
    while k < players.len()
        invariant
            k <= players@.len(),
            alive == alive_states(players@.take(k as int)),
            alive <= k,
        decreases players.len() - k,
    {
        assert(players@.take(k + 1).drop_last() =~= players@.take(k as int));
        if !players[k].is_game_over {
            alive += 1;
        }
        k += 1;
    }
    assert(players@.take(k as int) =~= players@);
    let is_winner = !me.is_game_over && alive == 1 && players.len() > 1;
    (is_winner, me.is_game_over || is_winner)
}

/// Position of the player with the given id in a snapshot, if any: the first one.
pub fn find_state<P>(players: &Vec<PlayerState<P>>, id: u32) -> (r: Option<usize>)
    ensures
        r matches Some(j) ==> j < players@.len() && players@[j as int].id == id
            && forall|i: int| 0 <= i < j ==> players@[i].id != id,
        r is None ==> forall|i: int| 0 <= i < players@.len() ==> players@[i].id != id,
{
    let mut j: usize = 0;
    while j < players.len()
        invariant
            j <= players@.len(),
            forall|i: int| 0 <= i < j ==> players@[i].id != id,
        decreases players.len() - j,
    {
        if players[j].id == id {
            return Some(j);
        }
        j += 1;
    }
    None
}

/// Drops the oldest messages until at most `MAX_MESSAGES` remain.
pub fn trim_messages(messages: &mut Vec<String>)
    ensures
        final(messages)@ == (if old(messages)@.len() > MAX_MESSAGES {
            old(messages)@.skip(old(messages)@.len() - MAX_MESSAGES)
        } else {
            old(messages)@
        }),
{
    let ghost m0 = messages@;
    while messages.len() > MAX_MESSAGES
        invariant
            messages@.len() <= m0.len(),
            m0.len() > MAX_MESSAGES ==> messages@.len() >= MAX_MESSAGES && messages@ == m0.skip(m0.len() - messages@.len()),
            m0.len() <= MAX_MESSAGES ==> messages@ == m0,
        decreases messages@.len(),
    {
        let ghost before = messages@;
        messages.remove(0);
        proof {
            assert(messages@ =~= before.skip(1));
            if m0.len() > MAX_MESSAGES {
                let a = m0.len() - before.len();
                assert(messages@.len() == before.len() - 1);
                assert forall|i: int| 0 <= i < messages@.len() implies messages@[i] == m0[a + 1 + i] by {
                    assert(messages@[i] == before[i + 1]);
                    assert(before[i + 1] == m0.skip(a)[i + 1]);
                }
                assert(messages@ =~= m0.skip(a + 1));
            }
        }
    }
}

/// Appends an item to a list holding at most `cap` items, first dropping
/// the oldest one when the list is full.
pub fn push_bounded<T>(items: &mut Vec<T>, item: T, cap: usize)
    requires
        cap > 0,
    ensures
        final(items)@ == (if old(items)@.len() >= cap { old(items)@.skip(1) } else { old(items)@ }).push(item),
{
    if items.len() >= cap {
        items.remove(0);
        assert(items@ =~= old(items)@.skip(1));
    }
    items.push(item);
}


/// Seconds the client waits for the server to accept it.
pub const CONNECT_TIMEOUT_SECS: u64 = 5;

/// What came in while the client waits to be accepted.
#[derive(PartialEq, Eq, Structural, Clone, Copy, Debug)]
pub enum ConnectEvent {
    /// The server accepted: the client's id and the current maze.
    Accepted { player_id: u32, seed: u64, difficulty: Difficulty },
    /// Nothing, or some other packet.
    Other,
    /// Receiving failed.
    ReceiveError,
}

/// What the waiting client does next.
#[derive(PartialEq, Eq, Structural, Clone, Copy, Debug)]
pub enum ConnectStep {
    Wait,
    Connected { player_id: u32, seed: u64, difficulty: Difficulty },
    Failed,
}

/// The wait for the server's answer is over once `elapsed_secs` whole
/// seconds have passed since the request: the connection failed.
pub fn connect_timed_out(elapsed_secs: u64) -> (r: bool)
    ensures
        r == (elapsed_secs >= CONNECT_TIMEOUT_SECS),
{
    elapsed_secs >= CONNECT_TIMEOUT_SECS
}

/// The next step of the wait, given what came in: an acceptance starts the
/// game, a receive error fails the connection, anything else waits on.
pub fn connect_step(event: ConnectEvent) -> (r: ConnectStep)
    ensures
        r == (match event {
            ConnectEvent::Accepted { player_id, seed, difficulty } => ConnectStep::Connected { player_id, seed, difficulty },
            ConnectEvent::Other => ConnectStep::Wait,
            ConnectEvent::ReceiveError => ConnectStep::Failed,
        }),
{
    match event {
        ConnectEvent::Accepted { player_id, seed, difficulty } => ConnectStep::Connected { player_id, seed, difficulty },
        ConnectEvent::Other => ConnectStep::Wait,
        ConnectEvent::ReceiveError => ConnectStep::Failed,
    }
}

/// The keys on the screens around connecting: while waiting, Escape
/// cancels back to the lobby; once the connection failed, Enter goes back
/// to the lobby and otherwise Escape leaves the game.
pub fn connect_screen_keys(failed: bool, enter: bool, escape: bool) -> (r: Option<Leave>)
    ensures
        r == (if !failed {
            if escape { Some(Leave::ToLobby) } else { None }
        } else if enter {
            Some(Leave::ToLobby)
        } else if escape {
            Some(Leave::Exit)
        } else {
            None
        }),
{
    if !failed {
        if escape { Some(Leave::ToLobby) } else { None }
    } else if enter {
        Some(Leave::ToLobby)
    } else if escape {
        Some(Leave::Exit)
    } else {
        None
    }
}

/// The keys of one frame that steer the session.
#[derive(Clone, Copy, Debug)]
pub struct FrameKeys {
    pub tab: bool,
    pub escape: bool,
    pub alt: bool,
    pub respawn: bool,
    pub quit: bool,
}

/// Where a session ends: back in the lobby, or out of the game.
#[derive(PartialEq, Eq, Structural, Clone, Copy, Debug)]
pub enum Leave {
    ToLobby,
    Exit,
}

/// What the keys of a frame ask of the outside: capture or release the
/// mouse, ask the server for a respawn, or leave (after telling the server).
#[derive(PartialEq, Eq, Structural, Clone, Copy, Debug)]
pub struct KeyOutcome {
    pub grab_cursor: bool,
    pub release_cursor: bool,
    pub send_respawn: bool,
    pub leave: Option<Leave>,
}

/// How a received snapshot is used: whether it is newer than the last one
/// taken (and goes to the interpolation buffer), and where the local
/// player's state is in it (for reconciliation), when it is taken.
#[derive(PartialEq, Eq, Structural, Clone, Copy, Debug)]
pub struct SnapshotUse {
    pub accepted: bool,
    pub local: Option<usize>,
}

/// The client's session state between frames.
#[derive(PartialEq, Eq, Structural, Clone, Copy, Debug)]
pub struct ClientSession {
    pub my_id: u32,
    pub settings_open: bool,
    pub game_over: bool,
    pub was_game_over: bool,
    pub is_winner: bool,
    pub input_sequence: u32,
    pub last_snapshot_tick: u32,
}

/// The session state and outcome after the keys of a frame: while the
/// settings are open, Tab or Escape closes them; after the round is over,
/// the mouse is released once, R asks for a respawn and Q or Escape goes
/// back to the lobby; while playing, Q or Escape leaves the game, and
/// otherwise Tab or Alt opens the settings.
pub open spec fn after_keys(s: ClientSession, k: FrameKeys) -> (ClientSession, KeyOutcome) {
    let none = KeyOutcome { grab_cursor: false, release_cursor: false, send_respawn: false, leave: None };
    if s.settings_open {
        if k.tab || k.escape {
            (ClientSession { settings_open: false, ..s }, KeyOutcome { grab_cursor: true, ..none })
        } else {
            (s, none)
        }
    } else if s.game_over {
        (s, KeyOutcome {
            release_cursor: !s.was_game_over,
            send_respawn: k.respawn,
            leave: if k.quit || k.escape { Some(Leave::ToLobby) } else { None },
            ..none
        })
    } else if k.quit || k.escape {
        (s, KeyOutcome { leave: Some(Leave::Exit), ..none })
    } else if k.tab || k.alt {
        (ClientSession { settings_open: true, ..s }, KeyOutcome { release_cursor: true, ..none })
    } else {
        (s, none)
    }
}

/// Opening the settings with Tab and closing them again with Tab gives
/// back the session as it was, with the mouse released and then captured.
pub proof fn lemma_settings_round_trip(s: ClientSession, k: FrameKeys)
    requires
        !s.settings_open,
        !s.game_over,
        k.tab,
        !k.quit,
        !k.escape,
    ensures
        after_keys(s, k).0.settings_open,
        after_keys(s, k).1.release_cursor,
        after_keys(after_keys(s, k).0, k).0 == s,
        after_keys(after_keys(s, k).0, k).1.grab_cursor,
{
}

/// One frame's movement and shooting keys: while playing with the settings
/// closed, a frame with input gets the next sequence number (it is sent
/// and buffered under that number); otherwise nothing is numbered.
pub open spec fn frame_step(s: ClientSession, has_input: bool) -> (ClientSession, Option<u32>) {
    if !s.settings_open && !s.game_over && has_input {
        let n = (s.input_sequence + 1) as u32;
        (ClientSession { input_sequence: n, ..s }, Some(n))
    } else {
        (s, None)
    }
}

/// Number of frames with input.
pub open spec fn count_inputs(has: Seq<bool>) -> nat
    decreases has.len(),
{
    if has.len() == 0 {
        0
    } else {
        count_inputs(has.drop_last()) + if has.last() { 1nat } else { 0nat }
    }
}

/// A run of frames, one `frame_step` each: the session after them and the
/// number given to each frame's input, if any.
pub open spec fn run_frames(s: ClientSession, has: Seq<bool>) -> (ClientSession, Seq<Option<u32>>)
    decreases has.len(),
{
    if has.len() == 0 {
        (s, seq![])
    } else {
        let prev = run_frames(s, has.drop_last());
        let next = frame_step(prev.0, has.last());
        (next.0, prev.1.push(next.1))
    }
}

/// Over a run of frames while playing with the settings closed, the k-th
/// frame with input gets number `start + k` (so 1, 2, 3, ... from a new
/// session), frames without input get none, and nothing else in the
/// session changes.
pub proof fn lemma_inputs_numbered(s: ClientSession, has: Seq<bool>)
    requires
        !s.settings_open,
        !s.game_over,
        s.input_sequence + count_inputs(has) <= u32::MAX,
    ensures
        run_frames(s, has).0 == (ClientSession {
            input_sequence: (s.input_sequence + count_inputs(has)) as u32,
            ..s
        }),
        run_frames(s, has).1.len() == has.len(),
        forall|i: int| 0 <= i < has.len() ==> #[trigger] run_frames(s, has).1[i] == (if has[i] {
            Some((s.input_sequence + count_inputs(has.take(i + 1))) as u32)
        } else {
            None
        }),
    decreases has.len(),
{
    if has.len() > 0 {
        let init = has.drop_last();
        assert(count_inputs(init) <= count_inputs(has));
        lemma_inputs_numbered(s, init);
        let prev = run_frames(s, init);
        let out = run_frames(s, has).1;
        assert(has.take(has.len() as int) =~= has);
        assert forall|i: int| 0 <= i < has.len() implies #[trigger] out[i] == (if has[i] {
            Some((s.input_sequence + count_inputs(has.take(i + 1))) as u32)
        } else {
            None
        }) by {
            if i < init.len() {
                assert(out[i] == prev.1[i]);
                assert(init.take(i + 1) =~= has.take(i + 1));
                assert(init[i] == has[i]);
            }
        }
    }
}

impl ClientSession {
    /// The session of player `my_id` right after joining: playing, no
    /// input sent, no snapshot taken.
    pub fn new(my_id: u32) -> (s: ClientSession)
        ensures
            s == (ClientSession {
                my_id,
                settings_open: false,
                game_over: false,
                was_game_over: false,
                is_winner: false,
                input_sequence: 0,
                last_snapshot_tick: 0,
            }),
    {
        ClientSession {
            my_id,
            settings_open: false,
            game_over: false,
            was_game_over: false,
            is_winner: false,
            input_sequence: 0,
            last_snapshot_tick: 0,
        }
    }

    /// Reacts to the keys of a frame.
    pub fn handle_keys(&mut self, keys: FrameKeys) -> (o: KeyOutcome)
        ensures
            (*final(self), o) == after_keys(*old(self), keys),
    {
        let none = KeyOutcome { grab_cursor: false, release_cursor: false, send_respawn: false, leave: None };
        if self.settings_open {
            if keys.tab || keys.escape {
                self.settings_open = false;
                KeyOutcome { grab_cursor: true, ..none }
            } else {
                none
            }
        } else if self.game_over {
            KeyOutcome {
                release_cursor: !self.was_game_over,
                send_respawn: keys.respawn,
                leave: if keys.quit || keys.escape { Some(Leave::ToLobby) } else { None },
                ..none
            }
        } else if keys.quit || keys.escape {
            KeyOutcome { leave: Some(Leave::Exit), ..none }
        } else if keys.tab || keys.alt {
            self.settings_open = true;
            KeyOutcome { release_cursor: true, ..none }
        } else {
            none
        }
    }

    /// Movement and shooting keys count only while playing, with the
    /// settings closed.
    pub fn takes_input(&self) -> (r: bool)
        ensures
            r == (!self.settings_open && !self.game_over),
    {
        !self.settings_open && !self.game_over
    }

    /// Numbers an input that is sent to the server: the next sequence number.
    pub fn next_input_sequence(&mut self) -> (seq: u32)
        requires
            old(self).input_sequence < u32::MAX,
        ensures
            seq == old(self).input_sequence + 1,
            *final(self) == (ClientSession { input_sequence: seq, ..*old(self) }),
    {
        self.input_sequence = self.input_sequence + 1;
        self.input_sequence
    }

    /// The movement and shooting keys of a frame: the sequence number the
    /// frame's input is sent and buffered under, if it is taken at all.
    pub fn frame_input(&mut self, has_input: bool) -> (r: Option<u32>)
        requires
            !old(self).settings_open && !old(self).game_over && has_input ==> old(self).input_sequence < u32::MAX,
        ensures
            (*final(self), r) == frame_step(*old(self), has_input),
    {
        if self.takes_input() && has_input {
            Some(self.next_input_sequence())
        } else {
            None
        }
    }

    /// Takes in a snapshot of tick `tick`: only one newer than the last
    /// taken is used. When it holds the local player, the round status is
    /// updated from it.
    pub fn on_snapshot<P>(&mut self, tick: u32, players: &Vec<PlayerState<P>>) -> (u: SnapshotUse)
        ensures
            u.accepted == (tick > old(self).last_snapshot_tick),
            !u.accepted ==> *final(self) == *old(self) && u.local is None,
            u.accepted ==> {
                let s1 = ClientSession { last_snapshot_tick: tick, ..*old(self) };
                match u.local {
                    Some(j) => {
                        let me = players@[j as int];
                        &&& j < players@.len()
                        &&& me.id == old(self).my_id
                        &&& forall|i: int| 0 <= i < j ==> players@[i].id != old(self).my_id
                        &&& *final(self) == ClientSession {
                            is_winner: spec_is_winner(players@, me),
                            game_over: me.is_game_over || spec_is_winner(players@, me),
                            ..s1
                        }
                    },
                    None => {
                        &&& forall|i: int| 0 <= i < players@.len() ==> players@[i].id != old(self).my_id
                        &&& *final(self) == s1
                    },
                }
            },
    {
        if tick <= self.last_snapshot_tick {
            return SnapshotUse { accepted: false, local: None };
        }
        self.last_snapshot_tick = tick;
        let local = find_state(players, self.my_id);
        if let Some(j) = local {
            let (w, over) = round_status(players, &players[j]);
            self.is_winner = w;
            self.game_over = over;
        }
        SnapshotUse { accepted: true, local }
    }

    /// A new level began: nobody has won it yet.
    pub fn on_level_change(&mut self)
        ensures
            *final(self) == (ClientSession { is_winner: false, ..*old(self) }),
    {
        self.is_winner = false;
    }

    /// The frame is over: its round status becomes the previous one.
    pub fn end_frame(&mut self)
        ensures
            *final(self) == (ClientSession { was_game_over: old(self).game_over, ..*old(self) }),
    {
        self.was_game_over = self.game_over;
    }
}


/// Most players listed on the leaderboard.
pub const DASHBOARD_ROWS: usize = 7;

/// One line of the leaderboard: a player's name and frag count, and
/// whether it is the local player (shown highlighted).
pub struct DashboardRow {
    pub name: String,
    pub frags: String,
    pub is_me: bool,
}

/// The leaderboard of players given in leaderboard order: a line for each
/// of the first seven, and a note on how many more there are, if any.
pub fn dashboard<P>(players: &Vec<PlayerState<P>>, my_id: u32) -> (r: (Vec<DashboardRow>, Option<String>))
    ensures
        r.0@.len() == (if players@.len() < DASHBOARD_ROWS { players@.len() } else { DASHBOARD_ROWS as nat }),
        forall|i: int| 0 <= i < r.0@.len() ==> {
            &&& (#[trigger] r.0@[i]).name@ == field_name(players@[i].name@)
            &&& r.0@[i].frags@ == decimal(players@[i].frags as nat)
            &&& r.0@[i].is_me == (players@[i].id == my_id)
        },
        r.1 is Some <==> players@.len() > DASHBOARD_ROWS,
        r.1 matches Some(m) ==> m@ == more_players_text((players@.len() - DASHBOARD_ROWS) as nat),
{
    let mut rows: Vec<DashboardRow> = Vec::new();
    let mut k: usize = 0;
    while k < players.len() && k < DASHBOARD_ROWS
        invariant
            k <= players@.len(),
            k <= DASHBOARD_ROWS,
            rows@.len() == k,
            forall|i: int| 0 <= i < k ==> {
                &&& (#[trigger] rows@[i]).name@ == field_name(players@[i].name@)
                &&& rows@[i].frags@ == decimal(players@[i].frags as nat)
                &&& rows@[i].is_me == (players@[i].id == my_id)
            },
        decreases players.len() - k,
    {
        let p = &players[k];
        let name = String::from_str(decode_name(&p.name));
        rows.push(DashboardRow { name, frags: count_text(p.frags as u64), is_me: p.id == my_id });
        k += 1;
    }
    let more = if players.len() > DASHBOARD_ROWS {
        Some(more_players_message((players.len() - DASHBOARD_ROWS) as u64))
    } else {
        None
    };
    (rows, more)
}

} // verus!

verus! {

/// `a` is listed no later than `b` on the leaderboard: more frags first,
/// then lower id first.
pub open spec fn ranks_before<P>(a: PlayerState<P>, b: PlayerState<P>) -> bool {
    a.frags > b.frags || (a.frags == b.frags && a.id <= b.id)
}

/// The list is in leaderboard order.
pub open spec fn ranked<P>(s: Seq<PlayerState<P>>) -> bool {
    forall|i: int, j: int| 0 <= i < j < s.len() ==> ranks_before(#[trigger] s[i], #[trigger] s[j])
}

proof fn lemma_insert_multiset<A>(s: Seq<A>, pos: int, e: A)
    requires
        0 <= pos <= s.len(),
    ensures
        s.insert(pos, e).to_multiset() =~= s.to_multiset().insert(e),
{
    broadcast use vstd::seq_lib::group_to_multiset_ensures;
    let t = s.insert(pos, e);
    s.insert_ensures(pos, e);
    assert(t.remove(pos) =~= s);
    assert(t.to_multiset().remove(t[pos]) =~= s.to_multiset());
    assert(t.contains(e)) by {
        assert(t[pos] == e);
    }
    assert(t.to_multiset().count(e) > 0);
}

/// The players in leaderboard order: most frags first, then lowest id.
pub fn rank_players<P: Copy>(states: &Vec<PlayerState<P>>) -> (r: Vec<PlayerState<P>>)
    ensures
        ranked(r@),
        r@.to_multiset() == states@.to_multiset(),
{
    broadcast use vstd::seq_lib::group_to_multiset_ensures;
    let mut out: Vec<PlayerState<P>> = Vec::new();
    let mut k: usize = 0;
    while k < states.len()
        invariant
            k <= states@.len(),
            ranked(out@),
            out@.to_multiset() == states@.take(k as int).to_multiset(),
        decreases states.len() - k,
    {
        let p = states[k];
        let mut j = out.len();
        while j > 0 && !(out[j - 1].frags > p.frags || (out[j - 1].frags == p.frags && out[j - 1].id <= p.id))
            invariant
                j <= out@.len(),
                forall|i: int| j <= i < out@.len() ==> ranks_before(p, #[trigger] out@[i]) && !ranks_before(out@[i], p),
            decreases j,
        {
            j -= 1;
        }
        let ghost o0 = out@;
        proof {
            lemma_insert_multiset(o0, j as int, p);
            o0.insert_ensures(j as int, p);
            assert(states@.take(k + 1) =~= states@.take(k as int).push(p));
        }
        out.insert(j, p);
        proof {
            assert(out@ == o0.insert(j as int, p));
            vstd::seq_lib::to_multiset_build(states@.take(k as int), p);
            assert(out@.to_multiset() == states@.take(k + 1).to_multiset());
            assert forall|a: int, b: int| 0 <= a < b < out@.len() implies ranks_before(#[trigger] out@[a], #[trigger] out@[b]) by {
                if a < j && b < j {
                    assert(out@[a] == o0[a] && out@[b] == o0[b]);
                } else if a < j && b == j {
                    assert(out@[a] == o0[a]);
                    assert(ranks_before(o0[j - 1], p));
                    if a < j - 1 {
                        assert(ranks_before(o0[a], o0[j - 1]));
                    }
                } else if a < j && b > j {
                    assert(out@[a] == o0[a] && out@[b] == o0[b - 1]);
                } else if a == j {
                    assert(out@[b] == o0[b - 1]);
                } else {
                    assert(out@[a] == o0[a - 1] && out@[b] == o0[b - 1]);
                }
            }
        }
        k += 1;
    }
    assert(states@.take(k as int) =~= states@);
    out
}

} // verus!
