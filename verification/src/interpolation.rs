//! The history of server snapshots a client keeps for interpolating remote
//! players. Timestamps and poses are carried as opaque values; reading the
//! clock and blending poses is left to the caller.
use vstd::prelude::*;
use crate::protocol::PlayerState;

verus! {

/// Most snapshots kept in the history.
pub const HISTORY_LEN: usize = 20;

/// A snapshot of all remote players at a specific server tick, one entry
/// per player id.
pub struct SnapshotNode<T, P> {
    pub tick: u32,
    pub timestamp: T,
    pub players: Vec<PlayerState<P>>,
}

/// The remote players of a snapshot, keyed by id: each listed player except
/// the local one, a later entry for an id replacing an earlier one in place.
pub open spec fn remote_entries<P>(players: Seq<PlayerState<P>>, local_id: u32) -> Seq<PlayerState<P>>
    decreases players.len(),
{
    if players.len() == 0 {
        seq![]
    } else {
        let acc = remote_entries(players.drop_last(), local_id);
        let p = players.last();
        if p.id == local_id {
            acc
        } else if exists|i: int| 0 <= i < acc.len() && acc[i].id == p.id {
            acc.update(choose|i: int| 0 <= i < acc.len() && acc[i].id == p.id, p)
        } else {
            acc.push(p)
        }
    }
}

/// No two entries share an id.
pub open spec fn distinct_ids<P>(s: Seq<PlayerState<P>>) -> bool {
    forall|i: int, j: int| #![trigger s[i], s[j]] 0 <= i < s.len() && 0 <= j < s.len() && i != j ==> s[i].id != s[j].id
}

/// Snapshot ticks increase strictly from front to back.
pub open spec fn history_ordered<T, P>(h: Seq<SnapshotNode<T, P>>) -> bool {
    forall|i: int, j: int| 0 <= i < j < h.len() ==> (#[trigger] h[i]).tick < (#[trigger] h[j]).tick
}

/// The remote entries of a snapshot never include the local player, and
/// hold one entry per id.
pub proof fn lemma_remote_entries<P>(players: Seq<PlayerState<P>>, local_id: u32)
    ensures
        distinct_ids(remote_entries(players, local_id)),
        forall|i: int| 0 <= i < remote_entries(players, local_id).len() ==> #[trigger] remote_entries(players, local_id)[i].id != local_id,
    decreases players.len(),
{
    if players.len() > 0 {
        lemma_remote_entries(players.drop_last(), local_id);
        let acc = remote_entries(players.drop_last(), local_id);
        let p = players.last();
        let r = remote_entries(players, local_id);
        if p.id != local_id {
            if exists|i: int| 0 <= i < acc.len() && acc[i].id == p.id {
                let c = choose|i: int| 0 <= i < acc.len() && acc[i].id == p.id;
                assert(r == acc.update(c, p));
                assert forall|a: int, b: int| #![trigger r[a], r[b]] 0 <= a < r.len() && 0 <= b < r.len() && a != b implies r[a].id != r[b].id by {
                    assert(r[a].id == acc[a].id);
                    assert(r[b].id == acc[b].id);
                }
            } else {
                assert(r == acc.push(p));
                assert forall|a: int, b: int| #![trigger r[a], r[b]] 0 <= a < r.len() && 0 <= b < r.len() && a != b implies r[a].id != r[b].id by {
                    if a < acc.len() { assert(r[a] == acc[a]); }
                    if b < acc.len() { assert(r[b] == acc[b]); }
                }
            }
        }
    }
}

/// The remote entries of a snapshot hold exactly its remote players: every
/// listed player other than the local one has an entry under its id
/// (whatever its health or state), and every entry is a listed player other
/// than the local one.
pub proof fn lemma_remote_entries_complete<P>(players: Seq<PlayerState<P>>, local_id: u32)
    ensures
        forall|i: int| 0 <= i < players.len() && #[trigger] players[i].id != local_id ==> exists|j: int|
            0 <= j < remote_entries(players, local_id).len() && #[trigger] remote_entries(players, local_id)[j].id
                == players[i].id,
        forall|j: int| 0 <= j < remote_entries(players, local_id).len() ==> exists|i: int|
            0 <= i < players.len() && #[trigger] players[i] == #[trigger] remote_entries(players, local_id)[j]
                && players[i].id != local_id,
    decreases players.len(),
{
    if players.len() > 0 {
        let init = players.drop_last();
        lemma_remote_entries_complete(init, local_id);
        let acc = remote_entries(init, local_id);
        let p = players.last();
        let r = remote_entries(players, local_id);
        assert forall|i: int| 0 <= i < players.len() && #[trigger] players[i].id != local_id implies exists|j: int|
            0 <= j < r.len() && #[trigger] r[j].id == players[i].id by {
            if i < init.len() {
                assert(players[i] == init[i]);
                let j = choose|j: int| 0 <= j < acc.len() && #[trigger] acc[j].id == init[i].id;
                if p.id == local_id {
                    assert(r[j].id == players[i].id);
                } else if exists|c: int| 0 <= c < acc.len() && acc[c].id == p.id {
                    let c = choose|c: int| 0 <= c < acc.len() && acc[c].id == p.id;
                    assert(r == acc.update(c, p));
                    assert(r[j].id == players[i].id);
                } else {
                    assert(r == acc.push(p));
                    assert(r[j].id == players[i].id);
                }
            } else {
                assert(players[i] == p);
                if exists|c: int| 0 <= c < acc.len() && acc[c].id == p.id {
                    let c = choose|c: int| 0 <= c < acc.len() && acc[c].id == p.id;
                    assert(r == acc.update(c, p));
                    assert(r[c].id == players[i].id);
                } else {
                    assert(r == acc.push(p));
                    assert(r[acc.len() as int].id == players[i].id);
                }
            }
        }
        assert forall|j: int| 0 <= j < r.len() implies exists|i: int|
            0 <= i < players.len() && #[trigger] players[i] == #[trigger] r[j] && players[i].id != local_id by {
            if p.id == local_id {
                assert(r == acc);
                let i = choose|i: int| 0 <= i < init.len() && #[trigger] init[i] == #[trigger] acc[j] && init[i].id != local_id;
                assert(players[i] == init[i]);
            } else if exists|c: int| 0 <= c < acc.len() && acc[c].id == p.id {
                let c = choose|c: int| 0 <= c < acc.len() && acc[c].id == p.id;
                assert(r == acc.update(c, p));
                if j == c {
                    assert(players[players.len() - 1] == r[j]);
                } else {
                    let i = choose|i: int| 0 <= i < init.len() && #[trigger] init[i] == #[trigger] acc[j] && init[i].id != local_id;
                    assert(players[i] == init[i]);
                }
            } else {
                assert(r == acc.push(p));
                if j == acc.len() {
                    assert(players[players.len() - 1] == r[j]);
                } else {
                    let i = choose|i: int| 0 <= i < init.len() && #[trigger] init[i] == #[trigger] acc[j] && init[i].id != local_id;
                    assert(players[i] == init[i]);
                }
            }
        }
    }
}

/// Manages interpolation of remote players over time to smooth out network stutters.
pub struct InterpolationRemote<T, P> {
    /// Ordered list of snapshots, newest at the back.
    pub history: Vec<SnapshotNode<T, P>>,
}

/// Where a render time falls in the history: between two snapshots, before
/// all of them, after all of them, or nowhere (empty history).
#[derive(Debug, Clone, Copy, PartialEq, Eq, Structural)]
pub enum Bracket {
    Between(usize, usize),
    OnlyNewer(usize),
    OnlyOlder(usize),
    Empty,
}

/// The bracket of a render time, given the answers to "was this snapshot
/// taken at or before the render time?" asked in order up to the first
/// "no": the first snapshot after the render time, and the one before it;
/// or, when every answer was "yes", the last snapshot.
pub open spec fn bracket_of(flags: Seq<bool>) -> Bracket {
    if flags.len() > 0 && !flags.last() {
        if flags.len() > 1 {
            Bracket::Between((flags.len() - 2) as usize, (flags.len() - 1) as usize)
        } else {
            Bracket::OnlyNewer(0)
        }
    } else if flags.len() > 0 {
        Bracket::OnlyOlder((flags.len() - 1) as usize)
    } else {
        Bracket::Empty
    }
}

/// `flags` are the answers `at_or_before` gave for the timestamps of
/// `history`, asked in order until the first "no" or the end.
pub open spec fn flags_of<T, P, F: Fn(&T) -> bool>(at_or_before: F, history: Seq<SnapshotNode<T, P>>, flags: Seq<bool>) -> bool {
    &&& flags.len() <= history.len()
    &&& forall|j: int| 0 <= j < flags.len() ==> call_ensures(at_or_before, (&history[j].timestamp,), #[trigger] flags[j])
    &&& forall|j: int| 0 <= j < flags.len() - 1 ==> #[trigger] flags[j]
    &&& flags.len() < history.len() ==> flags.len() > 0 && !flags.last()
}

/// Position of the entry with the given id, if any.
fn find_entry<P>(entries: &Vec<PlayerState<P>>, id: u32) -> (r: Option<usize>)
    requires
        distinct_ids(entries@),
    ensures
        r matches Some(j) ==> j < entries@.len() && entries@[j as int].id == id,
        r is None ==> !(exists|i: int| 0 <= i < entries@.len() && entries@[i].id == id),
{
    let mut j: usize = 0;
    while j < entries.len()
        invariant
            j <= entries@.len(),
            forall|i: int| 0 <= i < j ==> entries@[i].id != id,
        decreases entries.len() - j,
    {
        if entries[j].id == id {
            return Some(j);
        }
        j += 1;
    }
    None
}

impl<T, P: Copy> InterpolationRemote<T, P> {
    /// An empty history.
    pub fn new() -> (r: Self)
        ensures
            r.history@.len() == 0,
    {
        InterpolationRemote { history: Vec::new() }
    }

    /// Push a new server snapshot, taken at `now`, into the history. A
    /// snapshot no newer than the last one is discarded; the local player is
    /// left out; only the latest `HISTORY_LEN` snapshots are kept.
    pub fn push_snapshot(&mut self, tick: u32, players: Vec<PlayerState<P>>, local_id: u32, now: T)
        ensures
            old(self).history@.len() > 0 && tick <= old(self).history@.last().tick ==> final(self).history@ == old(self).history@,
            !(old(self).history@.len() > 0 && tick <= old(self).history@.last().tick) ==> {
                let h = old(self).history@;
                let n = final(self).history@.last();
                &&& final(self).history@.len() > 0
                &&& final(self).history@.drop_last() == (if h.len() + 1 > HISTORY_LEN { h.skip(1) } else { h })
                &&& n.tick == tick
                &&& n.timestamp == now
                &&& n.players@ == remote_entries(players@, local_id)
            },
            history_ordered(old(self).history@) ==> history_ordered(final(self).history@),
            old(self).history@.len() <= HISTORY_LEN ==> final(self).history@.len() <= HISTORY_LEN,
    {
        if self.history.len() > 0 {
            if tick <= self.history[self.history.len() - 1].tick {
                return;
            }
        }
        let mut entries: Vec<PlayerState<P>> = Vec::new();
        let mut k: usize = 0;
        while k < players.len()
            invariant
                k <= players@.len(),
                entries@ == remote_entries(players@.take(k as int), local_id),
                distinct_ids(entries@),
            decreases players.len() - k,
        {
            let p = players[k];
            proof {
                assert(players@.take(k + 1).drop_last() =~= players@.take(k as int));
                assert(players@.take(k + 1).last() == p);
            }
            if p.id != local_id {
                match find_entry(&entries, p.id) {
                    Some(j) => {
                        let ghost e0 = entries@;
                        proof {
                            let c = choose|i: int| 0 <= i < e0.len() && e0[i].id == p.id;
                            assert(e0[c].id == p.id);
                            assert(c == j as int);
                        }
                        entries.set(j, p);
                        proof {
                            assert forall|a: int, b: int| #![trigger entries@[a], entries@[b]] 0 <= a < entries@.len() && 0 <= b < entries@.len() && a != b
                                implies entries@[a].id != entries@[b].id by {
                                assert(entries@[a].id == e0[a].id);
                                assert(entries@[b].id == e0[b].id);
                            }
                        }
                    },
                    None => {
                        let ghost e0 = entries@;
                        entries.push(p);
                        proof {
                            assert forall|a: int, b: int| #![trigger entries@[a], entries@[b]] 0 <= a < entries@.len() && 0 <= b < entries@.len() && a != b
                                implies entries@[a].id != entries@[b].id by {
                                if a < e0.len() { assert(entries@[a] == e0[a]); }
                                if b < e0.len() { assert(entries@[b] == e0[b]); }
                            }
                        }
                    },
                }
            }
            k += 1;
        }
        assert(players@.take(k as int) =~= players@);
        let ghost h0 = self.history@;
        let ghost ent = entries@;
        proof {
            lemma_remote_entries(players@, local_id);
        }
        self.history.push(SnapshotNode { tick, timestamp: now, players: entries });
        let ghost h1 = self.history@;
        assert(h1.last().players@ == ent);
        if self.history.len() > HISTORY_LEN {
            self.history.remove(0);
            assert(self.history@.drop_last() =~= h0.skip(1));
            assert(self.history@.last() == h1.last());
            assert(self.history@ =~= h1.skip(1));
        } else {
            assert(self.history@.drop_last() =~= h0);
        }
        proof {
            if history_ordered(h0) {
                assert(history_ordered(h1)) by {
                    assert forall|i: int, j: int| 0 <= i < j < h1.len() implies (#[trigger] h1[i]).tick < (#[trigger] h1[j]).tick by {
                        if j == h0.len() && i < j - 1 {
                            assert(h0[i].tick < h0[h0.len() - 1].tick);
                        }
                    }
                }
                assert forall|i: int, j: int| 0 <= i < j < self.history@.len() implies
                    (#[trigger] self.history@[i]).tick < (#[trigger] self.history@[j]).tick by {
                    if self.history@.len() < h1.len() {
                        assert(self.history@[i] == h1[i + 1] && self.history@[j] == h1[j + 1]);
                    } else {
                        assert(self.history@[i] == h1[i] && self.history@[j] == h1[j]);
                    }
                }
            }
        }
    }

    /// Pairs the remote players of snapshot `i0` with snapshot `i1`: for
    /// each entry of `i0`, in order, the position of the same player in
    /// `i1`, or `None` when that player is not in it.
    pub fn matching_entries(&self, i0: usize, i1: usize) -> (r: Vec<Option<usize>>)
        requires
            i0 < self.history@.len(),
            i1 < self.history@.len(),
        ensures
            r@.len() == self.history@[i0 as int].players@.len(),
            forall|k: int| 0 <= k < r@.len() ==> match #[trigger] r@[k] {
                Some(j) => j < self.history@[i1 as int].players@.len()
                    && self.history@[i1 as int].players@[j as int].id == self.history@[i0 as int].players@[k].id,
                None => forall|j: int| 0 <= j < self.history@[i1 as int].players@.len()
                    ==> self.history@[i1 as int].players@[j].id != self.history@[i0 as int].players@[k].id,
            },
    {
        let a = &self.history[i0].players;
        let b = &self.history[i1].players;
        let mut r: Vec<Option<usize>> = Vec::new();
        let mut k: usize = 0;
        while k < a.len()
            invariant
                k <= a@.len(),
                r@.len() == k,
                forall|q: int| 0 <= q < k ==> match #[trigger] r@[q] {
                    Some(j) => j < b@.len() && b@[j as int].id == a@[q].id,
                    None => forall|j: int| 0 <= j < b@.len() ==> b@[j].id != a@[q].id,
                },
            decreases a.len() - k,
        {
            let id = a[k].id;
            let mut j: usize = 0;
            let mut found: Option<usize> = None;
            while j < b.len()
                invariant
                    j <= b@.len(),
                    found matches Some(f) ==> f < b@.len() && b@[f as int].id == id,
                    found is None ==> forall|q: int| 0 <= q < j ==> b@[q].id != id,
                decreases b.len() - j,
            {
                if found.is_none() && b[j].id == id {
                    found = Some(j);
                }
                j += 1;
            }
            r.push(found);
            k += 1;
        }
        r
    }

    /// Finds where a render time falls in the history; `at_or_before` tells,
    /// for a snapshot's timestamp, whether it is at or before that time.
    pub fn bracket<F: Fn(&T) -> bool>(&self, at_or_before: F) -> (r: Bracket)
        requires
            forall|t: &T| call_requires(at_or_before, (t,)),
        ensures
            exists|flags: Seq<bool>| #[trigger] flags_of(at_or_before, self.history@, flags) && r == bracket_of(flags),
    {
        let ghost mut flags: Seq<bool> = seq![];
        let mut i: usize = 0;
        while i < self.history.len()
            invariant
                i <= self.history@.len(),
                forall|t: &T| call_requires(at_or_before, (t,)),
                flags.len() == i,
                forall|j: int| 0 <= j < i ==> call_ensures(at_or_before, (&self.history@[j].timestamp,), #[trigger] flags[j]),
                forall|j: int| 0 <= j < i ==> #[trigger] flags[j],
            decreases self.history.len() - i,
        {
            let b = at_or_before(&self.history[i].timestamp);
            proof {
                flags = flags.push(b);
            }
            if !b {
                let r = if i > 0 { Bracket::Between(i - 1, i) } else { Bracket::OnlyNewer(i) };
                proof {
                    assert(flags_of(at_or_before, self.history@, flags));
                    assert(r == bracket_of(flags));
                }
                return r;
            }
            i += 1;
        }
        let r = if i > 0 { Bracket::OnlyOlder(i - 1) } else { Bracket::Empty };
        proof {
            assert(flags_of(at_or_before, self.history@, flags));
            assert(r == bracket_of(flags));
        }
        r
    }
}

} // verus!
