//! Client-side prediction of the local player and reconciliation with the
//! server's authoritative snapshots. The movement rule is supplied by the
//! caller; inputs and poses are carried as opaque values.
use vstd::prelude::*;
use crate::maze::GameMap;
use crate::protocol::PlayerState;

verus! {

/// A local input that hasn't been acknowledged by the server yet.
#[derive(Debug, Clone, Copy)]
pub struct PendingInput<I> {
    pub sequence: u32,
    pub input: I,
}

/// Manages client-side prediction and server reconciliation for the local player.
pub struct PredictionLocal<P, I> {
    pub local_state: PlayerState<P>,
    /// Inputs applied locally and not yet acknowledged, oldest first.
    pub unacked_inputs: Vec<PendingInput<I>>,
    pub latest_server_tick: u32,
    pub map: Option<GameMap>,
}

/// The inputs the server has not yet processed, given the last one it did.
pub open spec fn unacked_after<I>(inputs: Seq<PendingInput<I>>, acked: u32) -> Seq<PendingInput<I>> {
    inputs.filter(|p: PendingInput<I>| p.sequence > acked)
}

/// `poses` is a run of `step` over `inputs` from `start`: each pose comes
/// from the one before and the next input.
pub open spec fn replay_run<P, I, F: Fn(&P, &I, &GameMap) -> P>(
    step: F,
    map: GameMap,
    start: P,
    inputs: Seq<PendingInput<I>>,
    poses: Seq<P>,
) -> bool {
    &&& poses.len() == inputs.len() + 1
    &&& poses[0] == start
    &&& forall|i: int| 0 <= i < inputs.len() ==> call_ensures(step, (&poses[i], &inputs[i].input, &map), #[trigger] poses[i + 1])
}

/// Once the server has processed every pending input, reconciling replays
/// nothing: the local player ends up exactly where the server put it.
pub proof fn lemma_full_ack_snaps_to_server<P, I, F: Fn(&P, &I, &GameMap) -> P>(
    step: F,
    map: GameMap,
    start: P,
    inputs: Seq<PendingInput<I>>,
    acked: u32,
    poses: Seq<P>,
)
    requires
        forall|i: int| 0 <= i < inputs.len() ==> (#[trigger] inputs[i]).sequence <= acked,
        replay_run(step, map, start, unacked_after(inputs, acked), poses),
    ensures
        unacked_after(inputs, acked).len() == 0,
        poses.last() == start,
{
    let pred = |p: PendingInput<I>| p.sequence > acked;
    assert(inputs.all(|x: PendingInput<I>| !pred(x))) by {
        assert forall|i: int| 0 <= i < inputs.len() implies !pred(#[trigger] inputs[i]) by {}
    }
    inputs.lemma_all_neg_filter_empty(pred);
    assert(unacked_after(inputs, acked) == inputs.filter(pred));
}

impl<P: Copy, I: Copy> PredictionLocal<P, I> {
    /// Nothing predicted yet: the local player is id 0 at the origin pose
    /// with full health, and there is no map.
    pub fn new(origin: P) -> (r: Self)
        ensures
            r.local_state.id == 0,
            r.local_state.name@ == Seq::new(24, |i: int| 0u8),
            r.local_state.pose == origin,
            r.local_state.health == 100,
            r.local_state.frags == 0,
            !r.local_state.is_game_over,
            r.unacked_inputs@.len() == 0,
            r.latest_server_tick == 0,
            r.map is None,
    {
        PredictionLocal {
            local_state: PlayerState { id: 0, name: [0u8; 24], pose: origin, health: 100, frags: 0, is_game_over: false },
            unacked_inputs: Vec::new(),
            latest_server_tick: 0,
            map: None,
        }
    }

    /// Reset local state from a server snapshot (the reconciliation step).
    /// Snapshots no newer than the latest seen are ignored. Otherwise the
    /// local state snaps to the server's, the inputs the server has already
    /// processed are dropped, and, when a map is loaded, the remaining ones
    /// are replayed with `step` in order.
    pub fn reconcile<F: Fn(&P, &I, &GameMap) -> P>(
        &mut self,
        server_state: &PlayerState<P>,
        server_tick: u32,
        acked_input_seq: u32,
        step: F,
    )
        requires
            forall|p: &P, i: &I, m: &GameMap| call_requires(step, (p, i, m)),
        ensures
            server_tick <= old(self).latest_server_tick ==> *final(self) == *old(self),
            server_tick > old(self).latest_server_tick ==> {
                let kept = unacked_after(old(self).unacked_inputs@, acked_input_seq);
                &&& final(self).latest_server_tick == server_tick
                &&& final(self).unacked_inputs@ == kept
                &&& forall|i: int| 0 <= i < kept.len() ==> (#[trigger] kept[i]).sequence > acked_input_seq
                &&& final(self).map == old(self).map
                &&& final(self).local_state == (PlayerState { pose: final(self).local_state.pose, ..*server_state })
                &&& old(self).map is None ==> final(self).local_state.pose == server_state.pose
                &&& old(self).map is Some ==> exists|poses: Seq<P>|
                    #[trigger] replay_run(step, old(self).map->0, server_state.pose, kept, poses)
                        && final(self).local_state.pose == poses.last()
            },
    {
        if server_tick <= self.latest_server_tick {
            return;
        }
        self.latest_server_tick = server_tick;
        self.local_state = *server_state;
        let mut kept: Vec<PendingInput<I>> = Vec::new();
        let mut k: usize = 0;
        let ghost all = self.unacked_inputs@;
        while k < self.unacked_inputs.len()
            invariant
                all == self.unacked_inputs@,
                k <= all.len(),
                kept@ == unacked_after(all.take(k as int), acked_input_seq),
            decreases all.len() - k,
        {
            let p = self.unacked_inputs[k];
            proof {
                assert(all.take(k + 1).drop_last() =~= all.take(k as int));
                reveal_with_fuel(Seq::filter, 1);
            }
            if p.sequence > acked_input_seq {
                kept.push(p);
            }
            k += 1;
        }
        assert(all.take(k as int) =~= all);
        proof {
            let f = unacked_after(all, acked_input_seq);
            assert forall|i: int| 0 <= i < f.len() implies (#[trigger] f[i]).sequence > acked_input_seq by {
                all.lemma_filter_pred(|p: PendingInput<I>| p.sequence > acked_input_seq, i);
            }
        }
        self.unacked_inputs = kept;
        match &self.map {
            Some(map) => {
                let ghost start = self.local_state.pose;
                let ghost mut poses: Seq<P> = seq![start];
                let mut j: usize = 0;
                while j < self.unacked_inputs.len()
                    invariant
                        j <= self.unacked_inputs@.len(),
                        self.map == Some(*map),
                        forall|p: &P, i: &I, m: &GameMap| call_requires(step, (p, i, m)),
                        poses.len() == j + 1,
                        poses[0] == start,
                        poses.last() == self.local_state.pose,
                        forall|i: int| 0 <= i < j ==> call_ensures(step, (&poses[i], &self.unacked_inputs@[i].input, map), #[trigger] poses[i + 1]),
                        self.local_state == (PlayerState { pose: self.local_state.pose, ..*server_state }),
                        self.latest_server_tick == server_tick,
                        self.unacked_inputs@ == unacked_after(all, acked_input_seq),
                    decreases self.unacked_inputs@.len() - j,
                {
                    let pose = step(&self.local_state.pose, &self.unacked_inputs[j].input, map);
                    proof {
                        poses = poses.push(pose);
                    }
                    self.local_state.pose = pose;
                    j += 1;
                }
                proof {
                    assert(replay_run(step, *map, server_state.pose, self.unacked_inputs@, poses));
                }
            },
            None => {},
        }
    }

    /// Apply an input locally immediately (client-side prediction) and
    /// buffer it until the server acknowledges it. Without a map nothing
    /// happens.
    pub fn add_input<F: Fn(&P, &I, &GameMap) -> P>(&mut self, sequence: u32, input: I, step: F)
        requires
            forall|p: &P, i: &I, m: &GameMap| call_requires(step, (p, i, m)),
        ensures
            old(self).map is None ==> *final(self) == *old(self),
            old(self).map is Some ==> {
                &&& call_ensures(step, (&old(self).local_state.pose, &input, &old(self).map->0), final(self).local_state.pose)
                &&& final(self).local_state == (PlayerState { pose: final(self).local_state.pose, ..old(self).local_state })
                &&& final(self).unacked_inputs@ == old(self).unacked_inputs@.push((PendingInput { sequence, input }))
                &&& final(self).latest_server_tick == old(self).latest_server_tick
                &&& final(self).map == old(self).map
            },
    {
        match &self.map {
            Some(map) => {
                let pose = step(&self.local_state.pose, &input, map);
                self.local_state.pose = pose;
                self.unacked_inputs.push(PendingInput { sequence, input });
            },
            None => {},
        }
    }
}

} // verus!
