//! Authoritative game state kept by the server: players, health, frags,
//! weapon cooldowns and level progression. Positions and facings are
//! carried as an opaque pose `P`; the geometry that produces and tests
//! poses is supplied by the caller.
use vstd::prelude::*;
use vstd::utf8::encode_utf8;
use crate::maze::{Difficulty, GameMap, generated_map, map_of_seed, spec_side};
use crate::network::Endpoint;
use crate::protocol::{encode_name, name_field, PlayerState, MAX_HEALTH, WEAPON_COOLDOWN_TICKS, WEAPON_DAMAGE};
use crate::text::{frag_message, frag_text, level_message, level_text, winner_message, winner_text};

verus! {

/// Server-side representation of a connected player.
pub struct Player<P> {
    pub id: u32,
    pub name: String,
    /// Where the player's packets come from.
    pub addr: Endpoint,
    pub pose: P,
    pub health: u8,
    pub frags: u32,
    /// Last input sequence processed for this player.
    pub last_input_seq: u32,
    /// The server tick when the player last shot.
    pub last_shot_tick: u32,
    /// Whether the player is in game over state (dead and needs to respawn).
    pub is_game_over: bool,
}

/// Pending level change information.
pub struct LevelChangePending {
    pub seed: u64,
    pub difficulty: Difficulty,
    pub level: u8,
}

/// Authoritative game state managed by the server.
pub struct GameState<P> {
    /// Connected players, in the order they joined; ids are distinct.
    pub players: Vec<Player<P>>,
    pub tick: u32,
    pub seed: u64,
    pub difficulty: Difficulty,
    pub map: GameMap,
    pub message_queue: Vec<String>,
    /// Current level (1-based: 1, 2, 3).
    pub level: u8,
    /// Total frags across all players since last level change.
    pub total_frags: u32,
    /// Set when a level advance is triggered; cleared by the server loop.
    pub pending_level_change: Option<LevelChangePending>,
}

/// Index of the player with the given id, or -1 when there is none.
pub open spec fn index_of<P>(ps: Seq<Player<P>>, id: u32) -> int {
    if exists|i: int| 0 <= i < ps.len() && ps[i].id == id {
        choose|i: int| 0 <= i < ps.len() && ps[i].id == id
    } else {
        -1
    }
}

/// No two players share an id.
pub open spec fn ids_distinct<P>(ps: Seq<Player<P>>) -> bool {
    forall|i: int, j: int|
        #![trigger ps[i], ps[j]]
        0 <= i < ps.len() && 0 <= j < ps.len() && i != j ==> ps[i].id != ps[j].id
}

/// A player who has just joined or rejoined: full health, no frags, no
/// input or shot recorded yet, alive.
pub open spec fn fresh_player<P>(p: Player<P>, id: u32, name: String, addr: Endpoint, pose: P) -> bool {
    &&& p.id == id
    &&& p.name == name
    &&& p.addr == addr
    &&& p.pose == pose
    &&& p.health == MAX_HEALTH
    &&& p.frags == 0
    &&& p.last_input_seq == 0
    &&& p.last_shot_tick == 0
    &&& !p.is_game_over
}

/// Frags needed to advance from the given level; no threshold past level 3.
pub open spec fn frags_to_advance(level: u8) -> u32 {
    if level == 1 {
        5
    } else if level == 2 {
        10
    } else if level == 3 {
        15
    } else {
        u32::MAX
    }
}

/// The difficulty of a level (1-based).
pub open spec fn level_difficulty(level: u8) -> Difficulty {
    if level == 1 {
        Difficulty::Easy
    } else if level == 2 {
        Difficulty::Medium
    } else {
        Difficulty::Hard
    }
}

/// A level advance goes up one level, up to the last: from level 1 to 2
/// (Medium, a 31 by 31 maze), from 2 to 3 (Hard, 41 by 41), and level 3
/// stays at 3.
pub proof fn lemma_level_advance_goes_up<P, M: Fn(&P, usize, usize) -> P>(
    before: GameView<P>,
    after: GameView<P>,
    relocate: M,
)
    requires
        1 <= before.level <= 3,
        level_advanced(before, after, relocate),
    ensures
        after.level == (if before.level < 3 { before.level + 1 } else { 3 }),
        after.level == 2 ==> after.difficulty == Difficulty::Medium && after.map.width == 31 && after.map.height == 31,
        after.level == 3 ==> after.difficulty == Difficulty::Hard && after.map.width == 41 && after.map.height == 41,
{
}

/// The frag that brings the level's frag count to its threshold, with no
/// level change pending, moves the game up one level (up to the last).
pub proof fn lemma_threshold_frag_advances<P, M: Fn(&P, usize, usize) -> P>(
    before: GameView<P>,
    after: GameView<P>,
    shooter_id: u32,
    target: u32,
    relocate: M,
)
    requires
        1 <= before.level <= 3,
        index_of(before.players, shooter_id) >= 0,
        valid_target(before.players, shooter_id, target),
        before.players[index_of(before.players, target)].health <= WEAPON_DAMAGE,
        before.total_frags.wrapping_add(1) >= frags_to_advance(before.level),
        before.pending is None,
        shot_resolved(before, after, shooter_id, Some(target), relocate),
    ensures
        after.level == (if before.level < 3 { before.level + 1 } else { 3 }),
        after.total_frags == 0,
{
}

/// Each level is harder than the ones before: a larger maze with fewer
/// loops and less widening, and more frags needed to leave it.
pub proof fn lemma_levels_get_harder(a: u8, b: u8)
    requires
        1 <= a < b <= 3,
    ensures
        spec_side(level_difficulty(a)) < spec_side(level_difficulty(b)),
        level_difficulty(b).spec_loop_percent() < level_difficulty(a).spec_loop_percent(),
        level_difficulty(b).spec_widen_percent() < level_difficulty(a).spec_widen_percent(),
        frags_to_advance(a) < frags_to_advance(b),
{
}

/// The seed of the next level's maze, derived from the current seed and tick.
pub open spec fn next_seed(seed: u64, tick: u32) -> u64 {
    seed.wrapping_add((tick as u64).wrapping_mul(6364136223846793005u64).wrapping_add(1442695040888963407u64))
}

impl<P> GameState<P> {
    /// Player ids are distinct, the level is between 1 and 3, and the map
    /// is the one generated from the game's seed and difficulty (so a
    /// client given the seed and difficulty builds the same maze); it is
    /// well formed and offers at least one spawn tile.
    pub open spec fn wf(&self) -> bool {
        &&& ids_distinct(self.players@)
        &&& 1 <= self.level <= 3
        &&& self.map.wf()
        &&& self.map.spawn_cells@.len() > 0
        &&& map_of_seed(self.map, self.seed, self.difficulty)
    }

    /// The spawn tile of the `n`-th player placed (wrapping around the spawn list).
    pub open spec fn spawn_nth(&self, n: int) -> (usize, usize) {
        self.map.spawn_cells@[n % (self.map.spawn_cells@.len() as int)]
    }

    /// Everything but the players is unchanged.
    pub open spec fn same_world(&self, other: &Self) -> bool {
        &&& self.tick == other.tick
        &&& self.seed == other.seed
        &&& self.difficulty == other.difficulty
        &&& self.map == other.map
        &&& self.message_queue@ == other.message_queue@
        &&& self.level == other.level
        &&& self.total_frags == other.total_frags
        &&& self.pending_level_change == other.pending_level_change
    }
}

/// Position of the player with the given id, if any.
fn find_player<P>(players: &Vec<Player<P>>, id: u32) -> (r: Option<usize>)
    requires
        ids_distinct(players@),
    ensures
        r is Some <==> index_of(players@, id) >= 0,
        r matches Some(k) ==> k == index_of(players@, id) && players@[k as int].id == id,
        r is None ==> forall|i: int| 0 <= i < players@.len() ==> players@[i].id != id,
{
    let mut k: usize = 0;
    while k < players.len()
        invariant
            ids_distinct(players@),
            k <= players@.len(),
            forall|i: int| 0 <= i < k ==> players@[i].id != id,
        decreases players.len() - k,
    {
        if players[k].id == id {
            assert(players@[k as int].id == id);
            let ghost c = index_of(players@, id);
            assert(0 <= c < players@.len() && players@[c].id == id);
            assert(c == k as int);
            return Some(k);
        }
        k += 1;
    }
    None
}

/// `i` is the position of the first player whose packets come from `addr`.
pub open spec fn first_at_addr<P>(ps: Seq<Player<P>>, addr: Endpoint, i: int) -> bool {
    &&& 0 <= i < ps.len()
    &&& ps[i].addr == addr
    &&& forall|j: int| 0 <= j < i ==> ps[j].addr != addr
}

/// Position of the first player at `addr`, or -1 when there is none.
pub open spec fn index_at_addr<P>(ps: Seq<Player<P>>, addr: Endpoint) -> int {
    if exists|i: int| first_at_addr(ps, addr, i) {
        choose|i: int| first_at_addr(ps, addr, i)
    } else {
        -1
    }
}

/// Position of the first player at `addr`, if any.
fn find_by_addr<P>(players: &Vec<Player<P>>, addr: &Endpoint) -> (r: Option<usize>)
    ensures
        r is Some <==> index_at_addr(players@, *addr) >= 0,
        r matches Some(k) ==> k == index_at_addr(players@, *addr),
        r is None ==> forall|i: int| 0 <= i < players@.len() ==> players@[i].addr != *addr,
{
    let mut k: usize = 0;
    while k < players.len()
        invariant
            k <= players@.len(),
            forall|i: int| 0 <= i < k ==> players@[i].addr != *addr,
        decreases players.len() - k,
    {
        if players[k].addr == *addr {
            assert(first_at_addr(players@, *addr, k as int));
            let ghost c = index_at_addr(players@, *addr);
            assert(first_at_addr(players@, *addr, c));
            assert(c == k as int);
            return Some(k);
        }
        k += 1;
    }
    None
}

impl<P> GameState<P> {
    /// A fresh game on level 1 with the maze generated from `seed`.
    pub fn new(seed: u64, difficulty: Difficulty) -> (gs: GameState<P>)
        ensures
            gs.wf(),
            gs.players@.len() == 0,
            gs.tick == 0,
            gs.seed == seed,
            gs.difficulty == difficulty,
            generated_map(gs.map, difficulty),
            map_of_seed(gs.map, seed, difficulty),
            gs.message_queue@.len() == 0,
            gs.level == 1,
            gs.total_frags == 0,
            gs.pending_level_change is None,
    {
        let map = GameMap::generate(seed, difficulty);
        GameState {
            players: Vec::new(),
            tick: 0,
            seed,
            difficulty,
            map,
            message_queue: Vec::new(),
            level: 1,
            total_frags: 0,
            pending_level_change: None,
        }
    }

    /// The spawn tile for the `n`-th player placed: spawn tiles are used in
    /// turn, wrapping around.
    pub fn find_spawn_nth(&self, n: usize) -> (c: (usize, usize))
        requires
            self.wf(),
        ensures
            c == self.spawn_nth(n as int),
    {
        self.map.spawn_cells[n % self.map.spawn_cells.len()]
    }

    /// The spawn tile for a player coming back to life: the first spawn tile.
    pub fn find_spawn(&self) -> (c: (usize, usize))
        requires
            self.wf(),
        ensures
            c == self.map.spawn_cells@[0],
    {
        self.map.spawn_cells[0]
    }

    /// Add a player at the spawn tile that follows the ones already taken;
    /// `place` turns that tile into the player's starting pose. A player
    /// with the same id is replaced.
    pub fn add_player<F: Fn(usize, usize) -> P>(&mut self, id: u32, name: String, addr: Endpoint, place: F)
        requires
            old(self).wf(),
            forall|x: usize, y: usize| call_requires(place, (x, y)),
        ensures
            final(self).wf(),
            final(self).same_world(old(self)),
            ({
                let k = index_of(old(self).players@, id);
                let c = old(self).spawn_nth(old(self).players@.len() as int);
                if k >= 0 {
                    &&& final(self).players@.len() == old(self).players@.len()
                    &&& fresh_player(final(self).players@[k], id, name, addr, final(self).players@[k].pose)
                    &&& call_ensures(place, (c.0, c.1), final(self).players@[k].pose)
                    &&& forall|i: int| 0 <= i < old(self).players@.len() && i != k ==> final(self).players@[i] == old(self).players@[i]
                } else {
                    let n = old(self).players@.len() as int;
                    &&& final(self).players@.len() == n + 1
                    &&& fresh_player(final(self).players@[n], id, name, addr, final(self).players@[n].pose)
                    &&& call_ensures(place, (c.0, c.1), final(self).players@[n].pose)
                    &&& forall|i: int| 0 <= i < n ==> final(self).players@[i] == old(self).players@[i]
                }
            }),
    {
        let spawn = self.find_spawn_nth(self.players.len());
        let pose = place(spawn.0, spawn.1);
        let player = Player {
            id,
            name,
            addr,
            pose,
            health: MAX_HEALTH,
            frags: 0,
            last_input_seq: 0,
            last_shot_tick: 0,
            is_game_over: false,
        };
        let ghost old_players = self.players@;
        match find_player(&self.players, id) {
            Some(k) => {
                self.players.set(k, player);
                assert forall|i: int, j: int| 0 <= i < self.players@.len() && 0 <= j < self.players@.len() && i != j
                    implies self.players@[i].id != self.players@[j].id by {
                    if i != k && j != k {
                        assert(self.players@[i] == old_players[i]);
                        assert(self.players@[j] == old_players[j]);
                    } else if i == k {
                        assert(self.players@[j] == old_players[j]);
                    } else {
                        assert(self.players@[i] == old_players[i]);
                    }
                }
            },
            None => {
                self.players.push(player);
                assert forall|i: int, j: int| 0 <= i < self.players@.len() && 0 <= j < self.players@.len() && i != j
                    implies self.players@[i].id != self.players@[j].id by {
                    if i < old_players.len() && j < old_players.len() {
                        assert(self.players@[i] == old_players[i]);
                        assert(self.players@[j] == old_players[j]);
                    } else if i < old_players.len() {
                        assert(self.players@[i] == old_players[i]);
                    } else {
                        assert(self.players@[j] == old_players[j]);
                    }
                }
            },
        }
    }

    /// Remove a player by id; returns whether there was one.
    pub fn remove_player(&mut self, id: u32) -> (r: bool)
        requires
            old(self).wf(),
        ensures
            final(self).wf(),
            final(self).same_world(old(self)),
            r == (index_of(old(self).players@, id) >= 0),
            r ==> final(self).players@ == old(self).players@.remove(index_of(old(self).players@, id)),
            !r ==> final(self).players@ == old(self).players@,
    {
        match find_player(&self.players, id) {
            Some(k) => {
                let ghost old_players = self.players@;
                self.players.remove(k);
                assert forall|i: int, j: int| 0 <= i < self.players@.len() && 0 <= j < self.players@.len() && i != j
                    implies self.players@[i].id != self.players@[j].id by {
                    let oi = if i < k { i } else { i + 1 };
                    let oj = if j < k { j } else { j + 1 };
                    assert(self.players@[i] == old_players[oi]);
                    assert(self.players@[j] == old_players[oj]);
                }
                true
            },
            None => false,
        }
    }

    /// Remove the player whose packets come from `addr` (the first one, if
    /// several do); returns its id, or `None` when no player is at `addr`.
    pub fn remove_player_by_addr(&mut self, addr: &Endpoint) -> (r: Option<u32>)
        requires
            old(self).wf(),
        ensures
            final(self).wf(),
            final(self).same_world(old(self)),
            ({
                let k = index_at_addr(old(self).players@, *addr);
                &&& r == (if k >= 0 { Some(old(self).players@[k].id) } else { None::<u32> })
                &&& k >= 0 ==> final(self).players@ == old(self).players@.remove(k)
                &&& k < 0 ==> final(self).players@ == old(self).players@
            }),
            r is None <==> forall|i: int| 0 <= i < old(self).players@.len() ==> old(self).players@[i].addr != *addr,
    {
        match find_by_addr(&self.players, addr) {
            Some(k) => {
                let id = self.players[k].id;
                let ghost old_players = self.players@;
                self.players.remove(k);
                assert forall|i: int, j: int| 0 <= i < self.players@.len() && 0 <= j < self.players@.len() && i != j
                    implies self.players@[i].id != self.players@[j].id by {
                    let oi = if i < k { i } else { i + 1 };
                    let oj = if j < k { j } else { j + 1 };
                    assert(self.players@[i] == old_players[oi]);
                    assert(self.players@[j] == old_players[oj]);
                }
                Some(id)
            },
            None => None,
        }
    }

    /// The id of the player whose packets come from `addr` (the first one,
    /// if several do), or `None` when no player is at `addr`.
    pub fn player_id_by_addr(&self, addr: &Endpoint) -> (r: Option<u32>)
        ensures
            ({
                let k = index_at_addr(self.players@, *addr);
                r == (if k >= 0 { Some(self.players@[k].id) } else { None::<u32> })
            }),
            r is None <==> forall|i: int| 0 <= i < self.players@.len() ==> self.players@[i].addr != *addr,
    {
        match find_by_addr(&self.players, addr) {
            Some(k) => Some(self.players[k].id),
            None => None,
        }
    }

    /// Bring a player in game over state back to life at the first spawn
    /// tile, with full health; `place` turns the tile into the pose.
    /// Returns `false`, changing nothing, for an unknown or living player.
    pub fn respawn_player<F: Fn(usize, usize) -> P>(&mut self, player_id: u32, place: F) -> (r: bool)
        requires
            old(self).wf(),
            forall|x: usize, y: usize| call_requires(place, (x, y)),
        ensures
            final(self).wf(),
            final(self).same_world(old(self)),
            ({
                let k = index_of(old(self).players@, player_id);
                &&& r == (k >= 0 && old(self).players@[k].is_game_over)
                &&& !r ==> final(self).players@ == old(self).players@
                &&& r ==> {
                    let p = old(self).players@[k];
                    let q = final(self).players@[k];
                    let c = old(self).map.spawn_cells@[0];
                    &&& final(self).players@.len() == old(self).players@.len()
                    &&& forall|i: int| 0 <= i < old(self).players@.len() && i != k ==> final(self).players@[i] == old(self).players@[i]
                    &&& q == Player { is_game_over: false, health: MAX_HEALTH, pose: q.pose, ..p }
                    &&& call_ensures(place, (c.0, c.1), q.pose)
                }
            }),
    {
        let k = match find_player(&self.players, player_id) {
            Some(k) => k,
            None => return false,
        };
        if !self.players[k].is_game_over {
            return false;
        }
        let spawn = self.find_spawn();
        let pose = place(spawn.0, spawn.1);
        let ghost old_players = self.players@;
        let player = &mut self.players[k];
        player.is_game_over = false;
        player.health = MAX_HEALTH;
        player.pose = pose;
        assert forall|i: int, j: int| 0 <= i < self.players@.len() && 0 <= j < self.players@.len() && i != j
            implies self.players@[i].id != self.players@[j].id by {
            assert(self.players@[i].id == old_players[i].id);
            assert(self.players@[j].id == old_players[j].id);
        }
        true
    }

    /// Advance the tick counter, wrapping around at `u32::MAX`.
    pub fn tick(&mut self)
        ensures
            final(self).tick == old(self).tick.wrapping_add(1),
            final(self).players@ == old(self).players@,
            final(self).seed == old(self).seed,
            final(self).difficulty == old(self).difficulty,
            final(self).map == old(self).map,
            final(self).message_queue@ == old(self).message_queue@,
            final(self).level == old(self).level,
            final(self).total_frags == old(self).total_frags,
            final(self).pending_level_change == old(self).pending_level_change,
    {
        self.tick = self.tick.wrapping_add(1);
    }
}

} // verus!

verus! {

/// The abstract value of a game state: players, counters, map, messages.
pub struct GameView<P> {
    pub players: Seq<Player<P>>,
    pub tick: u32,
    pub seed: u64,
    pub difficulty: Difficulty,
    pub map: GameMap,
    pub messages: Seq<Seq<char>>,
    pub level: u8,
    pub total_frags: u32,
    pub pending: Option<LevelChangePending>,
}

impl<P> View for GameState<P> {
    type V = GameView<P>;

    open spec fn view(&self) -> GameView<P> {
        GameView {
            players: self.players@,
            tick: self.tick,
            seed: self.seed,
            difficulty: self.difficulty,
            map: self.map,
            messages: self.message_queue@.map_values(|s: String| s@),
            level: self.level,
            total_frags: self.total_frags,
            pending: self.pending_level_change,
        }
    }
}

/// Number of players not in game over state.
pub open spec fn alive_count<P>(ps: Seq<Player<P>>) -> nat
    decreases ps.len(),
{
    if ps.len() == 0 {
        0
    } else {
        alive_count(ps.drop_last()) + if !ps.last().is_game_over { 1nat } else { 0nat }
    }
}

/// Index of the last player not in game over state, or -1.
pub open spec fn last_alive<P>(ps: Seq<Player<P>>) -> int
    decreases ps.len(),
{
    if ps.len() == 0 {
        -1
    } else if !ps.last().is_game_over {
        ps.len() - 1
    } else {
        last_alive(ps.drop_last())
    }
}

/// `target` names a player other than the shooter who still has health.
pub open spec fn valid_target<P>(ps: Seq<Player<P>>, shooter_id: u32, target: u32) -> bool {
    &&& target != shooter_id
    &&& index_of(ps, target) >= 0
    &&& ps[index_of(ps, target)].health > 0
}

/// The level after `level`: one more, at most 3.
pub open spec fn next_level(level: u8) -> u8 {
    if level + 1 <= 3 { (level + 1) as u8 } else { 3u8 }
}

/// `after` is `before` moved to the next level: new seed, difficulty,
/// level, and the map generated from the new seed, the frag count reset, the change announced and left
/// pending, and every player moved by `relocate` to the spawn tile of its
/// place in the player list on the new map, with full health and back in play.
pub open spec fn level_advanced<P, M: Fn(&P, usize, usize) -> P>(
    before: GameView<P>,
    after: GameView<P>,
    relocate: M,
) -> bool {
    let nl = next_level(before.level);
    let d = level_difficulty(nl);
    let s = next_seed(before.seed, before.tick);
    &&& after.tick == before.tick
    &&& after.seed == s
    &&& after.difficulty == d
    &&& after.level == nl
    &&& after.total_frags == 0
    &&& after.pending == Some(LevelChangePending { seed: s, difficulty: d, level: nl })
    &&& after.messages == before.messages.push(level_text(nl))
    &&& generated_map(after.map, d)
    &&& map_of_seed(after.map, s, d)
    &&& after.players.len() == before.players.len()
    &&& forall|i: int| 0 <= i < before.players.len() ==> {
        let c = after.map.spawn_cells@[i % (after.map.spawn_cells@.len() as int)];
        &&& #[trigger] after.players[i] == Player { pose: after.players[i].pose, health: MAX_HEALTH, is_game_over: false, ..before.players[i] }
        &&& call_ensures(relocate, (&before.players[i].pose, c.0, c.1), after.players[i].pose)
    }
}

/// What a shot by `shooter_id` at `target` does. A target that is not
/// another living player is no hit. A hit costs the target 25 health
/// (not below 0). A target left at 0 health is fragged: it goes to game
/// over, the shooter's and the total frag counts go up by one, the frag is
/// announced, a sole survivor is congratulated, and reaching the level's
/// frag threshold with no level change pending moves the game to the next
/// level.
pub open spec fn shot_resolved<P, M: Fn(&P, usize, usize) -> P>(
    before: GameView<P>,
    after: GameView<P>,
    shooter_id: u32,
    target: Option<u32>,
    relocate: M,
) -> bool {
    if target is Some && valid_target(before.players, shooter_id, target->0) {
        let k = index_of(before.players, shooter_id);
        let tk = index_of(before.players, target->0);
        let tp = before.players[tk];
        let h = tp.health.saturating_sub(WEAPON_DAMAGE);
        if h > 0 {
            after == GameView { players: before.players.update(tk, Player { health: h, ..tp }), ..before }
        } else {
            let ps1 = before.players.update(tk, Player { health: 0, is_game_over: true, ..tp });
            let sp = ps1[k];
            let frags = sp.frags.wrapping_add(1);
            let ps2 = ps1.update(k, Player { frags: frags, ..sp });
            let total = before.total_frags.wrapping_add(1);
            let msgs1 = before.messages.push(frag_text(sp.name@, tp.name@, frags));
            let msgs2 = if alive_count(ps2) == 1 {
                msgs1.push(winner_text(ps2[last_alive(ps2)].name@))
            } else {
                msgs1
            };
            let mid = GameView { players: ps2, messages: msgs2, total_frags: total, ..before };
            if total >= frags_to_advance(before.level) && before.pending is None {
                level_advanced(mid, after, relocate)
            } else {
                after == mid
            }
        }
    } else {
        after == before
    }
}

/// Counts the players not in game over state and finds the last of them.
fn alive_summary<P>(players: &Vec<Player<P>>) -> (r: (usize, Option<usize>))
    ensures
        r.0 == alive_count(players@),
        r.1 is Some <==> last_alive(players@) >= 0,
        r.1 matches Some(i) ==> i == last_alive(players@) && i < players@.len(),
{
    let mut count: usize = 0;
    let mut last: Option<usize> = None;
    let mut k: usize = 0;
    while k < players.len()
        invariant
            k <= players@.len(),
            count == alive_count(players@.take(k as int)),
            count <= k,
            last is Some <==> last_alive(players@.take(k as int)) >= 0,
            last matches Some(i) ==> i == last_alive(players@.take(k as int)) && i < k,
        decreases players.len() - k,
    {
        assert(players@.take(k + 1).drop_last() =~= players@.take(k as int));
        if !players[k].is_game_over {
            count += 1;
            last = Some(k);
        }
        k += 1;
    }
    assert(players@.take(k as int) =~= players@);
    (count, last)
}

/// Moves every player, in list order, to the spawn tile of its place in the
/// list (wrapping around the spawn list) and restores full health, bringing players in game over back in play.
fn relocate_all<P, M: Fn(&P, usize, usize) -> P>(players: &mut Vec<Player<P>>, spawns: &Vec<(usize, usize)>, relocate: M)
    requires
        spawns@.len() > 0,
        ids_distinct(old(players)@),
        forall|p: &P, x: usize, y: usize| call_requires(relocate, (p, x, y)),
    ensures
        ids_distinct(final(players)@),
        final(players)@.len() == old(players)@.len(),
        forall|j: int| 0 <= j < old(players)@.len() ==> {
            let c = spawns@[j % (spawns@.len() as int)];
            &&& #[trigger] final(players)@[j] == Player { pose: final(players)@[j].pose, health: MAX_HEALTH, is_game_over: false, ..old(players)@[j] }
            &&& call_ensures(relocate, (&old(players)@[j].pose, c.0, c.1), final(players)@[j].pose)
        },
{
    let ghost before = players@;
    let mut i: usize = 0;
    while i < players.len()
        invariant
            spawns@.len() > 0,
            ids_distinct(players@),
            forall|p: &P, x: usize, y: usize| call_requires(relocate, (p, x, y)),
            i <= players@.len(),
            players@.len() == before.len(),
            forall|j: int| i <= j < before.len() ==> players@[j] == before[j],
            forall|j: int| 0 <= j < i ==> {
                let c = spawns@[j % (spawns@.len() as int)];
                &&& #[trigger] players@[j] == Player { pose: players@[j].pose, health: MAX_HEALTH, is_game_over: false, ..before[j] }
                &&& call_ensures(relocate, (&before[j].pose, c.0, c.1), players@[j].pose)
            },
        decreases before.len() - i,
    {
        let c = spawns[i % spawns.len()];
        let pose = relocate(&players[i].pose, c.0, c.1);
        let ghost ps0 = players@;
        let player = &mut players[i];
        player.pose = pose;
        player.health = MAX_HEALTH;
        player.is_game_over = false;
        assert forall|a: int, b: int| #![trigger players@[a], players@[b]] 0 <= a < players@.len() && 0 <= b < players@.len() && a != b
            implies players@[a].id != players@[b].id by {
            assert(players@[a].id == ps0[a].id);
            assert(players@[b].id == ps0[b].id);
        }
        i += 1;
    }
}

impl<P> GameState<P> {
    /// Triggers a level advance: picks the next difficulty and seed, regenerates
    /// the map and puts every player back on a spawn tile with full health and out of game over.
    fn trigger_level_advance<M: Fn(&P, usize, usize) -> P>(&mut self, relocate: M)
        requires
            old(self).wf(),
            forall|p: &P, x: usize, y: usize| call_requires(relocate, (p, x, y)),
        ensures
            final(self).wf(),
            level_advanced(old(self)@, final(self)@, relocate),
    {
        let next = if self.level + 1 <= 3 { self.level + 1 } else { 3 };
        let next_difficulty = if next == 1 {
            Difficulty::Easy
        } else if next == 2 {
            Difficulty::Medium
        } else {
            Difficulty::Hard
        };
        let new_seed = self.seed.wrapping_add(
            (self.tick as u64).wrapping_mul(6364136223846793005u64).wrapping_add(1442695040888963407u64),
        );
        self.message_queue.push(level_message(next));
        self.pending_level_change = Some(LevelChangePending { seed: new_seed, difficulty: next_difficulty, level: next });
        self.seed = new_seed;
        self.difficulty = next_difficulty;
        self.level = next;
        self.total_frags = 0;
        self.map = GameMap::generate(new_seed, next_difficulty);
        relocate_all(&mut self.players, &self.map.spawn_cells, relocate);
        proof {
            assert(self@.messages =~= old(self)@.messages.push(level_text(next)));
        }
    }
}


/// Frags needed to advance from the given level.
fn frags_needed(level: u8) -> (r: u32)
    ensures
        r == frags_to_advance(level),
{
    if level == 1 {
        5
    } else if level == 2 {
        10
    } else if level == 3 {
        15
    } else {
        u32::MAX
    }
}

impl<P> GameState<P> {
    /// Applies a shot by `shooter_id` that struck `target` (`None` for a
    /// miss): damage, frag, announcements and level progression, as
    /// `shot_resolved` states.
    pub fn resolve_shot<M: Fn(&P, usize, usize) -> P>(&mut self, shooter_id: u32, target: Option<u32>, relocate: M)
        requires
            old(self).wf(),
            index_of(old(self).players@, shooter_id) >= 0,
            forall|p: &P, x: usize, y: usize| call_requires(relocate, (p, x, y)),
        ensures
            final(self).wf(),
            shot_resolved(old(self)@, final(self)@, shooter_id, target, relocate),
    {
        let k = match find_player(&self.players, shooter_id) {
            Some(k) => k,
            None => return,
        };
        let t = match target {
            Some(t) => t,
            None => return,
        };
        if t == shooter_id {
            return;
        }
        let tk = match find_player(&self.players, t) {
            Some(tk) => tk,
            None => return,
        };
        if self.players[tk].health == 0 {
            return;
        }
        let ghost v0 = self@;
        let target_name = self.players[tk].name.clone();
        let h = self.players[tk].health.saturating_sub(WEAPON_DAMAGE);
        let ghost ps0 = self.players@;
        self.players[tk].health = h;
        proof {
            assert forall|a: int, b: int| #![trigger self.players@[a], self.players@[b]] 0 <= a < self.players@.len() && 0 <= b < self.players@.len() && a != b
                implies self.players@[a].id != self.players@[b].id by {
                assert(self.players@[a].id == ps0[a].id);
                assert(self.players@[b].id == ps0[b].id);
            }
        }
        if h > 0 {
            proof {
                assert(self@.players =~= v0.players.update(tk as int, Player { health: h, ..v0.players[tk as int] }));
                assert(self@ == GameView { players: v0.players.update(tk as int, Player { health: h, ..v0.players[tk as int] }), ..v0 });
            }
            return;
        }
        self.players[tk].is_game_over = true;
        let ghost ps1 = self.players@;
        let frags = self.players[k].frags.wrapping_add(1);
        self.players[k].frags = frags;
        let ghost ps2 = self.players@;
        proof {
            assert(ps1 =~= v0.players.update(tk as int, Player { health: 0, is_game_over: true, ..v0.players[tk as int] }));
            assert(ps2 =~= ps1.update(k as int, Player { frags: frags, ..ps1[k as int] }));
            assert forall|a: int, b: int| #![trigger self.players@[a], self.players@[b]] 0 <= a < self.players@.len() && 0 <= b < self.players@.len() && a != b
                implies self.players@[a].id != self.players@[b].id by {
                assert(self.players@[a].id == ps0[a].id);
                assert(self.players@[b].id == ps0[b].id);
            }
        }
        self.total_frags = self.total_frags.wrapping_add(1);
        let msg = frag_message(self.players[k].name.as_str(), target_name.as_str(), frags);
        self.message_queue.push(msg);
        let ghost msgs1 = self@.messages;
        proof {
            assert(msgs1 =~= v0.messages.push(frag_text(ps1[k as int].name@, v0.players[tk as int].name@, frags)));
        }
        let (alive, last) = alive_summary(&self.players);
        if alive == 1 {
            match last {
                Some(w) => {
                    let m = winner_message(self.players[w].name.as_str());
                    self.message_queue.push(m);
                    proof {
                        assert(self@.messages =~= msgs1.push(winner_text(ps2[last_alive(ps2)].name@)));
                    }
                },
                None => {},
            }
        }
        let ghost mid = self@;
        proof {
            assert(alive == 1 ==> last is Some) by {
                if alive == 1 {
                    lemma_alive_count_last(ps2);
                }
            }
        }
        let threshold = frags_needed(self.level);
        if self.total_frags >= threshold && self.pending_level_change.is_none() {
            self.trigger_level_advance(relocate);
        }
    }
}

/// Some player is alive when the alive count is positive.
proof fn lemma_alive_count_last<P>(ps: Seq<Player<P>>)
    requires
        alive_count(ps) > 0,
    ensures
        last_alive(ps) >= 0,
    decreases ps.len(),
{
    if ps.len() > 0 && ps.last().is_game_over {
        lemma_alive_count_last(ps.drop_last());
    }
}


/// An input is ignored when its sequence number is not newer than the last
/// one processed for the player (a player with no input yet accepts any).
pub open spec fn input_stale(last_input_seq: u32, input_seq: u32) -> bool {
    input_seq <= last_input_seq && last_input_seq > 0
}

/// The player may fire: at least `WEAPON_COOLDOWN_TICKS` ticks have passed
/// since their last shot.
pub open spec fn cooled_down(tick: u32, last_shot_tick: u32) -> bool {
    tick as int >= last_shot_tick as int + WEAPON_COOLDOWN_TICKS as int
}

/// A shot is fired when the player pulls the trigger and the weapon has cooled down.
pub open spec fn fires(shoot: bool, tick: u32, last_shot_tick: u32) -> bool {
    shoot && cooled_down(tick, last_shot_tick)
}

/// The game after player `k` took an input: the input is recorded, the
/// player moved to `pose`, and a shot, if fired, recorded at this tick.
pub open spec fn moved_view<P>(v: GameView<P>, k: int, input_seq: u32, pose: P, fired: bool) -> GameView<P> {
    let p = v.players[k];
    GameView {
        players: v.players.update(
            k,
            Player {
                pose: pose,
                last_input_seq: input_seq,
                last_shot_tick: if fired { v.tick } else { p.last_shot_tick },
                ..p
            },
        ),
        ..v
    }
}

/// How an accepted input of player `player_id` turned `before` into `after`,
/// given the pose `step` returned and the target `aim` returned: `step` and
/// `aim` were asked about the state before the input, `aim` only when a
/// shot was fired, and the shot was then resolved on the moved game.
#[verifier::opaque]
pub open spec fn input_outcome<P, S, A, M>(
    before: GameState<P>,
    after: GameView<P>,
    player_id: u32,
    input_seq: u32,
    fired: bool,
    step: S,
    aim: A,
    relocate: M,
    pose: P,
    target: Option<u32>,
) -> bool where
    S: Fn(&GameState<P>, u32) -> P,
    A: Fn(&GameState<P>, u32, &P) -> Option<u32>,
    M: Fn(&P, usize, usize) -> P,
 {
    &&& call_ensures(step, (&before, player_id), pose)
    &&& fired ==> call_ensures(aim, (&before, player_id, &pose), target)
    &&& !fired ==> target is None
    &&& shot_resolved(
        moved_view(before@, index_of(before.players@, player_id), input_seq, pose, fired),
        after,
        player_id,
        target,
        relocate,
    )
}

impl<P> GameState<P> {
    /// Process one frame of input from a player. Stale inputs (by sequence
    /// number) and unknown players are ignored. Otherwise the player takes
    /// the pose that `step` computes from the current state; when `shoot` is
    /// set and the weapon has cooled down the shot is recorded, `aim` names
    /// the player struck (if any), and the shot is resolved as in
    /// `resolve_shot`, with `relocate` placing players on a new level.
    #[verifier::spinoff_prover]
    pub fn process_input<S, A, M>(
        &mut self,
        player_id: u32,
        shoot: bool,
        input_seq: u32,
        step: S,
        aim: A,
        relocate: M,
    ) where
        S: Fn(&GameState<P>, u32) -> P,
        A: Fn(&GameState<P>, u32, &P) -> Option<u32>,
        M: Fn(&P, usize, usize) -> P,
        requires
            old(self).wf(),
            forall|g: &GameState<P>, id: u32| call_requires(step, (g, id)),
            forall|g: &GameState<P>, id: u32, p: &P| call_requires(aim, (g, id, p)),
            forall|p: &P, x: usize, y: usize| call_requires(relocate, (p, x, y)),
        ensures
            final(self).wf(),
            ({
                let k = index_of(old(self).players@, player_id);
                if k < 0 || input_stale(old(self).players@[k].last_input_seq, input_seq) {
                    final(self)@ == old(self)@
                } else {
                    exists|pose: P, target: Option<u32>|
                        #[trigger] input_outcome(
                            *old(self), final(self)@, player_id, input_seq, fires(shoot, old(self).tick, old(self).players@[k].last_shot_tick), step, aim, relocate, pose, target)
                }
            }),
    {
        let k = match find_player(&self.players, player_id) {
            Some(k) => k,
            None => return,
        };
        let last = self.players[k].last_input_seq;
        if input_seq <= last && last > 0 {
            assert(input_stale(old(self).players@[index_of(old(self).players@, player_id)].last_input_seq, input_seq));
            return;
        }
        let pose = step(&*self, player_id);
        let ghost gpose = pose;
        let fired = shoot && (self.tick as u64) >= (self.players[k].last_shot_tick as u64) + (WEAPON_COOLDOWN_TICKS as u64);
        let target = if fired {
            aim(&*self, player_id, &pose)
        } else {
            None
        };
        let ghost v0 = self@;
        let ghost ps0 = self.players@;
        let tick = self.tick;
        let player = &mut self.players[k];
        player.last_input_seq = input_seq;
        player.pose = pose;
        if fired {
            player.last_shot_tick = tick;
        }
        proof {
            assert forall|a: int, b: int| #![trigger self.players@[a], self.players@[b]] 0 <= a < self.players@.len() && 0 <= b < self.players@.len() && a != b
                implies self.players@[a].id != self.players@[b].id by {
                assert(self.players@[a].id == ps0[a].id);
                assert(self.players@[b].id == ps0[b].id);
            }
            assert(self@ == moved_view(v0, k as int, input_seq, pose, fired));
            assert(index_of(self.players@, player_id) >= 0) by {
                assert(self.players@[k as int].id == player_id);
            }
        }
        self.resolve_shot(player_id, target, relocate);
        proof {
            let k0 = index_of(old(self).players@, player_id);
            assert(k0 == k as int);
            assert(fired == fires(shoot, old(self).tick, old(self).players@[k0].last_shot_tick));
            assert(!input_stale(old(self).players@[k0].last_input_seq, input_seq));
            assert(call_ensures(step, (&*old(self), player_id), gpose));
            assert(fired ==> call_ensures(aim, (&*old(self), player_id, &gpose), target));
            assert(shot_resolved(moved_view(old(self)@, k0, input_seq, gpose, fired), final(self)@, player_id, target, relocate));
            reveal(input_outcome);
            assert(input_outcome(*old(self), final(self)@, player_id, input_seq, fired, step, aim, relocate, gpose, target));
        }
    }
}


/// The snapshot entry broadcast for a player.
pub open spec fn player_snapshot<P>(p: Player<P>, s: PlayerState<P>) -> bool {
    &&& s.id == p.id
    &&& s.name@ == name_field(encode_utf8(p.name@))
    &&& s.pose == p.pose
    &&& s.health == p.health
    &&& s.frags == p.frags
    &&& s.is_game_over == p.is_game_over
}


impl<P: Copy> GameState<P> {
    /// Build a snapshot of all players for broadcast, in player order.
    pub fn snapshot(&self) -> (r: Vec<PlayerState<P>>)
        ensures
            r@.len() == self.players@.len(),
            forall|i: int| 0 <= i < r@.len() ==> player_snapshot(self.players@[i], #[trigger] r@[i]),
    {
        let mut r: Vec<PlayerState<P>> = Vec::new();
        let mut k: usize = 0;
        while k < self.players.len()
            invariant
                k <= self.players@.len(),
                r@.len() == k,
                forall|i: int| 0 <= i < k ==> player_snapshot(self.players@[i], #[trigger] r@[i]),
            decreases self.players.len() - k,
        {
            let p = &self.players[k];
            let name = encode_name(p.name.as_str());
            r.push(PlayerState {
                id: p.id,
                name,
                pose: p.pose,
                health: p.health,
                frags: p.frags,
                is_game_over: p.is_game_over,
            });
            k += 1;
        }
        r
    }
}


/// Two player lists with the same ids at every position.
pub open spec fn same_ids<P>(a: Seq<Player<P>>, b: Seq<Player<P>>) -> bool {
    &&& a.len() == b.len()
    &&& forall|i: int| 0 <= i < a.len() ==> (#[trigger] a[i]).id == b[i].id
}

/// With distinct ids, equal ids at every position give equal indices.
proof fn lemma_index_of_same_ids<P>(a: Seq<Player<P>>, b: Seq<Player<P>>, id: u32)
    requires
        ids_distinct(a),
        same_ids(a, b),
    ensures
        index_of(a, id) == index_of(b, id),
{
    if exists|i: int| 0 <= i < a.len() && a[i].id == id {
        let i = choose|i: int| 0 <= i < a.len() && a[i].id == id;
        assert(b[i].id == id);
        let j = index_of(b, id);
        assert(a[j].id == id);
    } else {
        assert forall|i: int| 0 <= i < b.len() implies b[i].id != id by {
            assert(a[i].id == b[i].id);
        }
    }
}

/// Removing a player just added under a new id gives back the player list
/// as it was before the add.
pub proof fn lemma_remove_undoes_add<P>(before: Seq<Player<P>>, after_add: Seq<Player<P>>, id: u32)
    requires
        ids_distinct(before),
        index_of(before, id) < 0,
        after_add.len() == before.len() + 1,
        after_add[before.len() as int].id == id,
        forall|i: int| 0 <= i < before.len() ==> after_add[i] == before[i],
    ensures
        after_add.remove(index_of(after_add, id)) == before,
{
    let n = before.len() as int;
    assert(after_add[n].id == id);
    let k = index_of(after_add, id);
    assert(0 <= k < after_add.len() && after_add[k].id == id);
    if k < n {
        assert(after_add[k] == before[k]);
        assert(index_of(before, id) >= 0) by {
            assert(before[k].id == id);
        }
    }
    assert(after_add.remove(k) =~= before);
}

/// A shot never changes who is in the game, their names, the inputs and
/// shots recorded for them, or their order; and the level never goes down
/// or past 3.
pub proof fn lemma_shot_keeps_roster<P, M: Fn(&P, usize, usize) -> P>(
    before: GameView<P>,
    after: GameView<P>,
    shooter_id: u32,
    target: Option<u32>,
    relocate: M,
)
    requires
        ids_distinct(before.players),
        1 <= before.level <= 3,
        index_of(before.players, shooter_id) >= 0,
        shot_resolved(before, after, shooter_id, target, relocate),
    ensures
        same_ids(before.players, after.players),
        forall|i: int| 0 <= i < before.players.len() ==> {
            &&& (#[trigger] after.players[i]).name == before.players[i].name
            &&& after.players[i].last_input_seq == before.players[i].last_input_seq
            &&& after.players[i].last_shot_tick == before.players[i].last_shot_tick
        },
        before.level <= after.level <= 3,
{
    if target is Some && valid_target(before.players, shooter_id, target->0) {
        let k = index_of(before.players, shooter_id);
        let tk = index_of(before.players, target->0);
        let tp = before.players[tk];
        let h = tp.health.saturating_sub(WEAPON_DAMAGE);
        if h == 0 {
            let ps1 = before.players.update(tk, Player { health: 0, is_game_over: true, ..tp });
            let sp = ps1[k];
            let frags = sp.frags.wrapping_add(1);
            let ps2 = ps1.update(k, Player { frags: frags, ..sp });
            assert forall|i: int| 0 <= i < before.players.len() implies ps2[i].id == before.players[i].id
                && ps2[i].name == before.players[i].name && ps2[i].last_input_seq == before.players[i].last_input_seq
                && ps2[i].last_shot_tick == before.players[i].last_shot_tick by {
            }
        }
    }
}

/// Once an input with sequence number `s > 0` has been taken, the same
/// input sent again is stale and changes nothing.
pub proof fn lemma_repeated_input_ignored<P, S, A, M>(
    before: GameState<P>,
    after: GameView<P>,
    player_id: u32,
    s: u32,
    fired: bool,
    step: S,
    aim: A,
    relocate: M,
    pose: P,
    target: Option<u32>,
)
    where
        S: Fn(&GameState<P>, u32) -> P,
        A: Fn(&GameState<P>, u32, &P) -> Option<u32>,
        M: Fn(&P, usize, usize) -> P,
    requires
        before.wf(),
        s > 0,
        index_of(before.players@, player_id) >= 0,
        input_outcome(before, after, player_id, s, fired, step, aim, relocate, pose, target),
    ensures
        index_of(after.players, player_id) >= 0,
        input_stale(after.players[index_of(after.players, player_id)].last_input_seq, s),
{
    reveal(input_outcome);
    let k = index_of(before.players@, player_id);
    let mid = moved_view(before@, k, s, pose, fired);
    assert(same_ids(before.players@, mid.players));
    assert(ids_distinct(mid.players)) by {
        assert forall|i: int, j: int| 0 <= i < mid.players.len() && 0 <= j < mid.players.len() && i != j
            implies mid.players[i].id != mid.players[j].id by {
            assert(mid.players[i].id == before.players@[i].id);
            assert(mid.players[j].id == before.players@[j].id);
        }
    }
    lemma_index_of_same_ids(before.players@, mid.players, player_id);
    lemma_shot_keeps_roster(mid, after, player_id, target, relocate);
    lemma_index_of_same_ids(mid.players, after.players, player_id);
    assert(after.players[k].last_input_seq == mid.players[k].last_input_seq);
}


/// An input without the trigger pulled fires no shot: whatever `aim`
/// would say, no other player is touched, the shooter keeps its health,
/// frags and last shot tick, and the frag count, messages and level stay
/// as they were; only the shooter's pose and last input change.
pub proof fn lemma_no_trigger_no_shot<P, S, A, M>(
    before: GameState<P>,
    after: GameView<P>,
    player_id: u32,
    s: u32,
    step: S,
    aim: A,
    relocate: M,
    pose: P,
    target: Option<u32>,
)
    where
        S: Fn(&GameState<P>, u32) -> P,
        A: Fn(&GameState<P>, u32, &P) -> Option<u32>,
        M: Fn(&P, usize, usize) -> P,
    requires
        before.wf(),
        index_of(before.players@, player_id) >= 0,
        input_outcome(
            before,
            after,
            player_id,
            s,
            fires(false, before.tick, before.players@[index_of(before.players@, player_id)].last_shot_tick),
            step,
            aim,
            relocate,
            pose,
            target,
        ),
    ensures
        ({
            let k = index_of(before.players@, player_id);
            &&& after.players.len() == before.players@.len()
            &&& forall|i: int| 0 <= i < after.players.len() && i != k ==> #[trigger] after.players[i] == before.players@[i]
            &&& after.players[k] == Player { pose: pose, last_input_seq: s, ..before.players@[k] }
            &&& after.total_frags == before.total_frags
            &&& after.messages == before@.messages
            &&& after.level == before.level
            &&& after.map == before.map
        }),
{
    reveal(input_outcome);
}

} // verus!
