//! The server's bookkeeping around the game state: which address belongs
//! to which player, handing out player ids on connect, and gathering what
//! is broadcast at the end of a tick.
use vstd::prelude::*;
use crate::game::{GameState, LevelChangePending, Player, player_snapshot, index_of, index_at_addr};
use crate::maze::Difficulty;
use crate::network::Endpoint;
use crate::protocol::PlayerState;

verus! {

/// What a newly connected client is told: its id and the current maze,
/// and the current level when past the first.
pub struct Welcome {
    pub player_id: u32,
    pub seed: u64,
    pub difficulty: Difficulty,
    pub level_change: Option<LevelChangePending>,
}

/// What every client is sent at the end of a tick: the queued messages,
/// a level change if one happened, and the snapshot of all players, to
/// the addresses of all connected players.
pub struct TickBroadcast<P> {
    pub recipients: Vec<Endpoint>,
    pub messages: Vec<String>,
    pub level_change: Option<LevelChangePending>,
    pub tick: u32,
    pub players: Vec<PlayerState<P>>,
}

/// The authoritative game and the next player id to hand out.
pub struct ServerState<P> {
    pub game: GameState<P>,
    pub next_player_id: u32,
}

/// No two players send from the same address.
pub open spec fn addrs_distinct<P>(ps: Seq<Player<P>>) -> bool {
    forall|i: int, j: int|
        #![trigger ps[i], ps[j]]
        0 <= i < ps.len() && 0 <= j < ps.len() && i != j ==> ps[i].addr != ps[j].addr
}

/// The player ids handed out so far are all below `next`.
pub open spec fn ids_below<P>(ps: Seq<Player<P>>, next: u32) -> bool {
    forall|i: int| 0 <= i < ps.len() ==> #[trigger] ps[i].id < next
}

/// The id of the player at `addr`, if one is connected from there.
pub open spec fn client_at<P>(ps: Seq<Player<P>>, addr: Endpoint) -> Option<u32> {
    let k = index_at_addr(ps, addr);
    if k >= 0 {
        Some(ps[k].id)
    } else {
        None
    }
}

proof fn lemma_index_at_addr_unique<P>(ps: Seq<Player<P>>, addr: Endpoint, k: int)
    requires
        0 <= k < ps.len(),
        ps[k].addr == addr,
        addrs_distinct(ps),
    ensures
        index_at_addr(ps, addr) == k,
{
    assert(crate::game::first_at_addr(ps, addr, k)) by {
        assert forall|j: int| 0 <= j < k implies ps[j].addr != addr by {
            assert(ps[j].addr != ps[k].addr);
        }
    }
    let c = index_at_addr(ps, addr);
    assert(crate::game::first_at_addr(ps, addr, c));
    if c != k {
        assert(ps[c].addr != ps[k].addr);
    }
}

proof fn lemma_no_index_at_addr<P>(ps: Seq<Player<P>>, addr: Endpoint)
    requires
        forall|i: int| 0 <= i < ps.len() ==> ps[i].addr != addr,
    ensures
        index_at_addr(ps, addr) == -1,
{
}

/// With distinct addresses, the client at `e` is the one player sending
/// from `e`, if there is one.
proof fn lemma_client_at<P>(ps: Seq<Player<P>>, e: Endpoint)
    requires
        addrs_distinct(ps),
    ensures
        forall|i: int| 0 <= i < ps.len() && ps[i].addr == e ==> client_at(ps, e) == Some(ps[i].id),
        (forall|i: int| 0 <= i < ps.len() ==> ps[i].addr != e) ==> client_at(ps, e) is None,
{
    if exists|i: int| 0 <= i < ps.len() && ps[i].addr == e {
        let i0 = choose|i: int| 0 <= i < ps.len() && ps[i].addr == e;
        lemma_index_at_addr_unique(ps, e, i0);
        assert forall|i: int| 0 <= i < ps.len() && ps[i].addr == e implies client_at(ps, e) == Some(ps[i].id) by {
            if i != i0 {
                assert(ps[i].addr != ps[i0].addr);
            }
        }
    } else {
        lemma_no_index_at_addr(ps, e);
    }
}

/// A client that joins from an address not yet connected and then leaves
/// from it takes exactly its own player along: the player list is again
/// what it was before the join.
pub proof fn lemma_disconnect_undoes_connect<P>(before: Seq<Player<P>>, after_connect: Seq<Player<P>>, addr: Endpoint)
    requires
        addrs_distinct(before),
        client_at(before, addr) is None,
        after_connect.len() == before.len() + 1,
        after_connect.take(before.len() as int) == before,
        after_connect[before.len() as int].addr == addr,
    ensures
        after_connect.remove(index_at_addr(after_connect, addr)) == before,
{
    let n = before.len() as int;
    assert forall|i: int| 0 <= i < n implies before[i].addr != addr by {
        if before[i].addr == addr {
            lemma_index_at_addr_unique(before, addr, i);
        }
    }
    assert forall|i: int| 0 <= i < n implies after_connect[i] == before[i] by {
        assert(after_connect.take(n)[i] == after_connect[i]);
    }
    assert(crate::game::first_at_addr(after_connect, addr, n));
    let k = index_at_addr(after_connect, addr);
    assert(crate::game::first_at_addr(after_connect, addr, k));
    if k < n {
        assert(after_connect[k] == before[k]);
    }
    assert(k == n);
    assert(after_connect.remove(k) =~= before);
}

impl<P> ServerState<P> {
    /// The game is well formed, each address belongs to at most one
    /// player, and every id handed out lies below the next one.
    pub open spec fn wf(&self) -> bool {
        &&& self.game.wf()
        &&& addrs_distinct(self.game.players@)
        &&& ids_below(self.game.players@, self.next_player_id)
        &&& self.next_player_id >= 1
    }

    /// A server starting on level 1 with the maze of `seed`; ids start at 1.
    pub fn new(seed: u64, difficulty: Difficulty) -> (s: Self)
        ensures
            s.wf(),
            s.game.players@.len() == 0,
            s.game.level == 1,
            s.game.seed == seed,
            s.game.difficulty == difficulty,
            crate::maze::map_of_seed(s.game.map, seed, difficulty),
            s.game.tick == 0,
            s.game.message_queue@.len() == 0,
            s.game.pending_level_change is None,
            s.next_player_id == 1,
    {
        ServerState { game: GameState::new(seed, difficulty), next_player_id: 1 }
    }

    /// The id of the player connected from `addr`, if any.
    pub fn client_id(&self, addr: &Endpoint) -> (r: Option<u32>)
        ensures
            r == client_at(self.game.players@, *addr),
            r is None <==> forall|i: int| 0 <= i < self.game.players@.len() ==> self.game.players@[i].addr != *addr,
    {
        self.game.player_id_by_addr(addr)
    }

    /// A client at `addr` asks to join under `name`. A second request from
    /// an address already connected is ignored (`None`). Otherwise the
    /// client gets the next id and a player at the next spawn tile (placed
    /// by `place`), and the welcome to send back.
    pub fn connect<F: Fn(usize, usize) -> P>(&mut self, name: String, addr: Endpoint, place: F) -> (w: Option<Welcome>)
        requires
            old(self).wf(),
            client_at(old(self).game.players@, addr) is None ==> old(self).next_player_id < u32::MAX,
            forall|x: usize, y: usize| call_requires(place, (x, y)),
        ensures
            final(self).wf(),
            w is None <==> client_at(old(self).game.players@, addr) is Some,
            w is None ==> final(self).game.players@ == old(self).game.players@
                && final(self).next_player_id == old(self).next_player_id,
            final(self).game.same_world(&old(self).game),
            forall|e: Endpoint| e != addr ==> client_at(final(self).game.players@, e) == client_at(old(self).game.players@, e),
            w matches Some(w) ==> {
                let n = old(self).game.players@.len() as int;
                let c = old(self).game.spawn_nth(n);
                let q = final(self).game.players@[n];
                &&& w.player_id == old(self).next_player_id
                &&& final(self).next_player_id == old(self).next_player_id + 1
                &&& w.seed == old(self).game.seed
                &&& w.difficulty == old(self).game.difficulty
                &&& w.level_change == (if old(self).game.level > 1 {
                    Some(LevelChangePending { seed: old(self).game.seed, difficulty: old(self).game.difficulty, level: old(self).game.level })
                } else {
                    None
                })
                &&& final(self).game.players@.len() == n + 1
                &&& final(self).game.players@.take(n) == old(self).game.players@
                &&& crate::game::fresh_player(q, w.player_id, name, addr, q.pose)
                &&& call_ensures(place, (c.0, c.1), q.pose)
                &&& client_at(final(self).game.players@, addr) == Some(w.player_id)
            },
    {
        if self.game.player_id_by_addr(&addr).is_some() {
            return None;
        }
        let player_id = self.next_player_id;
        let ghost ps0 = self.game.players@;
        proof {
            if index_of(ps0, player_id) >= 0 {
                let k = index_of(ps0, player_id);
                assert(ps0[k].id < player_id);
            }
        }
        self.game.add_player(player_id, name, addr, place);
        self.next_player_id = self.next_player_id + 1;
        proof {
            let ps = self.game.players@;
            let n = ps0.len() as int;
            assert(ps.take(n) =~= ps0);
            assert forall|i: int, j: int| 0 <= i < ps.len() && 0 <= j < ps.len() && i != j
                implies ps[i].addr != ps[j].addr by {
                if i < n && j < n {
                    assert(ps[i] == ps0[i] && ps[j] == ps0[j]);
                } else if i < n {
                    assert(ps[i] == ps0[i]);
                } else {
                    assert(ps[j] == ps0[j]);
                }
            }
            assert forall|i: int| 0 <= i < ps.len() implies #[trigger] ps[i].id < self.next_player_id by {
                if i < n {
                    assert(ps[i] == ps0[i]);
                }
            }
            lemma_index_at_addr_unique(ps, addr, n);
            assert forall|e: Endpoint| e != addr implies client_at(ps, e) == client_at(ps0, e) by {
                lemma_client_at(ps, e);
                lemma_client_at(ps0, e);
                if exists|i: int| 0 <= i < ps0.len() && ps0[i].addr == e {
                    let i = choose|i: int| 0 <= i < ps0.len() && ps0[i].addr == e;
                    assert(ps[i] == ps0[i]);
                } else {
                    assert forall|i: int| 0 <= i < ps.len() implies ps[i].addr != e by {
                        if i < n {
                            assert(ps[i] == ps0[i]);
                        }
                    }
                }
            }
        }
        let level_change = if self.game.level > 1 {
            Some(LevelChangePending { seed: self.game.seed, difficulty: self.game.difficulty, level: self.game.level })
        } else {
            None
        };
        Some(Welcome { player_id, seed: self.game.seed, difficulty: self.game.difficulty, level_change })
    }

    /// The client at `addr` leaves: its player is removed. Returns the
    /// player's id, or `None` when nobody is connected from `addr`.
    pub fn disconnect(&mut self, addr: &Endpoint) -> (r: Option<u32>)
        requires
            old(self).wf(),
        ensures
            final(self).wf(),
            final(self).game.same_world(&old(self).game),
            final(self).next_player_id == old(self).next_player_id,
            r == client_at(old(self).game.players@, *addr),
            r is None ==> final(self).game.players@ == old(self).game.players@,
            r is Some ==> final(self).game.players@ == old(self).game.players@.remove(index_at_addr(old(self).game.players@, *addr)),
            client_at(final(self).game.players@, *addr) is None,
            forall|e: Endpoint| e != *addr ==> client_at(final(self).game.players@, e) == client_at(old(self).game.players@, e),
    {
        let ghost ps0 = self.game.players@;
        let r = self.game.remove_player_by_addr(addr);
        proof {
            let ps = self.game.players@;
            if r is Some {
                let k = index_at_addr(ps0, *addr);
                assert forall|i: int, j: int| 0 <= i < ps.len() && 0 <= j < ps.len() && i != j
                    implies ps[i].addr != ps[j].addr by {
                    let oi = if i < k { i } else { i + 1 };
                    let oj = if j < k { j } else { j + 1 };
                    assert(ps[i] == ps0[oi] && ps[j] == ps0[oj]);
                }
                assert forall|i: int| 0 <= i < ps.len() implies #[trigger] ps[i].id < self.next_player_id by {
                    let oi = if i < k { i } else { i + 1 };
                    assert(ps[i] == ps0[oi]);
                }
                assert forall|i: int| 0 <= i < ps.len() implies ps[i].addr != *addr by {
                    let oi = if i < k { i } else { i + 1 };
                    assert(ps[i] == ps0[oi]);
                    assert(ps0[oi].addr != ps0[k].addr);
                }
            }
            lemma_no_index_at_addr(ps, *addr);
            assert forall|e: Endpoint| e != *addr implies client_at(ps, e) == client_at(ps0, e) by {
                lemma_client_at(ps, e);
                lemma_client_at(ps0, e);
                if r is Some {
                    let k = index_at_addr(ps0, *addr);
                    if exists|i: int| 0 <= i < ps0.len() && ps0[i].addr == e {
                        let i = choose|i: int| 0 <= i < ps0.len() && ps0[i].addr == e;
                        assert(i != k);
                        let ni = if i < k { i } else { i - 1 };
                        assert(ps[ni] == ps0[i]);
                    } else {
                        assert forall|i: int| 0 <= i < ps.len() implies ps[i].addr != e by {
                            let oi = if i < k { i } else { i + 1 };
                            assert(ps[i] == ps0[oi]);
                        }
                    }
                }
            }
        }
        r
    }
}

impl<P: Copy> ServerState<P> {
    /// Ends a tick: advances the tick counter, drains the message queue,
    /// takes the pending level change, and snapshots all players, for
    /// every connected address.
    pub fn end_tick(&mut self) -> (b: TickBroadcast<P>)
        requires
            old(self).wf(),
        ensures
            final(self).wf(),
            final(self).next_player_id == old(self).next_player_id,
            final(self).game.tick == old(self).game.tick.wrapping_add(1),
            b.tick == final(self).game.tick,
            b.messages@ == old(self).game.message_queue@,
            final(self).game.message_queue@.len() == 0,
            b.level_change == old(self).game.pending_level_change,
            final(self).game.pending_level_change is None,
            final(self).game.players@ == old(self).game.players@,
            final(self).game.map == old(self).game.map,
            final(self).game.level == old(self).game.level,
            final(self).game.seed == old(self).game.seed,
            final(self).game.difficulty == old(self).game.difficulty,
            final(self).game.total_frags == old(self).game.total_frags,
            b.recipients@.len() == old(self).game.players@.len(),
            forall|i: int| 0 <= i < b.recipients@.len() ==> #[trigger] b.recipients@[i] == old(self).game.players@[i].addr,
            b.players@.len() == old(self).game.players@.len(),
            forall|i: int| 0 <= i < b.players@.len() ==> player_snapshot(old(self).game.players@[i], #[trigger] b.players@[i]),
    {
        self.game.tick();
        let mut recipients: Vec<Endpoint> = Vec::new();
        let mut k: usize = 0;
        while k < self.game.players.len()
            invariant
                k <= self.game.players@.len(),
                recipients@.len() == k,
                forall|i: int| 0 <= i < k ==> #[trigger] recipients@[i] == self.game.players@[i].addr,
            decreases self.game.players.len() - k,
        {
            recipients.push(self.game.players[k].addr);
            k += 1;
        }
        let mut messages: Vec<String> = Vec::new();
        std::mem::swap(&mut messages, &mut self.game.message_queue);
        let level_change = self.game.pending_level_change.take();
        let players = self.game.snapshot();
        TickBroadcast { recipients, messages, level_change, tick: self.game.tick, players }
    }
}

} // verus!
