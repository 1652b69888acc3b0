//! Sequence and acknowledgement bookkeeping of a packet endpoint.
use vstd::prelude::*;

verus! {

/// A peer's socket address as plain values: the IP address as a 128-bit
/// number (an IPv4 address in its low 32 bits), the port, and for IPv6 the
/// flow label and scope id. Two addresses are the same when all fields are.
#[derive(PartialEq, Eq, Structural, Clone, Copy, Debug)]
pub struct Endpoint {
    pub v6: bool,
    pub ip: u128,
    pub port: u16,
    pub flowinfo: u32,
    pub scope_id: u32,
}

/// Distance from `from` forward to `to` in the circular space of `u32`
/// sequence numbers.
pub open spec fn seq_distance(from: u32, to: u32) -> int {
    (to as int - from as int) % 0x1_0000_0000
}

/// A received sequence number counts as newer than the last accepted one
/// when it lies less than half the sequence space ahead of it.
pub open spec fn seq_newer(last: u32, seq: u32) -> bool {
    seq_distance(last, seq) < u32::MAX / 2
}

/// The sequence state of one packet endpoint: the number stamped on the
/// next outgoing packet and the last sequence number accepted from the
/// remote side, which outgoing packets acknowledge.
pub struct SequenceState {
    pub next_sequence: u32,
    pub last_remote_sequence: u32,
}

impl SequenceState {
    /// A fresh endpoint: numbering starts at 0 and nothing is acknowledged.
    pub fn new() -> (s: SequenceState)
        ensures
            s.next_sequence == 0,
            s.last_remote_sequence == 0,
    {
        SequenceState { next_sequence: 0, last_remote_sequence: 0 }
    }

    /// Stamps an outgoing packet: returns `(sequence, ack)` for its header
    /// and advances the outgoing number by one, wrapping around at `u32::MAX`.
    pub fn next_header(&mut self) -> (r: (u32, u32))
        ensures
            r == (old(self).next_sequence, old(self).last_remote_sequence),
            final(self).next_sequence == old(self).next_sequence.wrapping_add(1),
            final(self).last_remote_sequence == old(self).last_remote_sequence,
    {
        let header = (self.next_sequence, self.last_remote_sequence);
        self.next_sequence = self.next_sequence.wrapping_add(1);
        header
    }

    /// Records the sequence number of a packet received intact: it becomes
    /// the acknowledged number when it is newer than the current one;
    /// late or duplicate packets leave the state unchanged.
    pub fn observe_remote(&mut self, seq: u32)
        ensures
            final(self).next_sequence == old(self).next_sequence,
            final(self).last_remote_sequence == (if seq_newer(old(self).last_remote_sequence, seq) {
                seq
            } else {
                old(self).last_remote_sequence
            }),
            seq_distance(old(self).last_remote_sequence, final(self).last_remote_sequence) < u32::MAX / 2,
    {
        let last = self.last_remote_sequence;
        if seq.wrapping_sub(last) < u32::MAX / 2 {
            self.last_remote_sequence = seq;
        }
    }
}

} // verus!
