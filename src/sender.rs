//! The sending side of a transfer: one status per outbound packet, a window
//! that slides past the acknowledged prefix, and retransmission deadlines
//! with linear backoff and random jitter.
//!
//! The caller owns the clock and the socket: it asks `drive` which packets to
//! transmit at a given time, and reports each received datagram or receive
//! timeout back.
use vstd::prelude::*;

use crate::error::ProtocolError;
use crate::packet::{
    decode_frame, frame_sum, seq_offset, TcpPacket, MAX_PACKET_LENGTH, TCP_WINDOW_LENGTH,
};
use crate::random::random_below;

verus! {

/// Transmissions of one packet after which the transfer gives up.
pub const MAX_RETRIES: u32 = 5;

/// Consecutive receive timeouts that are tolerated while packets are unacknowledged.
pub const MAX_TIMEOUTS: u32 = 3;

/// One second, in the nanoseconds that times are measured in.
pub const SECOND: u64 = 1_000_000_000;

/// Where one outbound packet stands. Times are nanoseconds on the caller's clock.
#[derive(Debug, Clone, Copy, PartialEq, Eq, Structural)]
pub enum PacketStatus {
    Unsent,
    Sent { retry_time: u64, retry_count: u32 },
    Acknowledged,
}

/// The deadline for retransmission number `retry_count` decided at `now`:
/// `retry_count` seconds plus `jitter`, saturating at the clock's maximum.
pub open spec fn retry_deadline(now: u64, retry_count: u32, jitter: int) -> u64 {
    let t = now as int + retry_count as int * SECOND as int + jitter;
    if t > u64::MAX {
        u64::MAX
    } else {
        t as u64
    }
}

/// `t` is a deadline that `backoff` may pick at `now` for `retry_count`: one
/// with a jitter below one second.
pub open spec fn fresh_deadline(t: u64, now: u64, retry_count: u32) -> bool {
    exists|jitter: int| 0 <= jitter < SECOND && t == #[trigger] retry_deadline(now, retry_count, jitter)
}

/// The retransmission deadline for `retry_count` at `now` with the given
/// jitter, saturating at the clock's maximum.
pub fn retry_deadline_with(now: u64, retry_count: u32, jitter: u64) -> (r: u64)
    ensures
        r == retry_deadline(now, retry_count, jitter as int),
{
    let delay = (retry_count as u64) * SECOND;
    now.saturating_add(delay).saturating_add(jitter)
}

/// A retransmission deadline for `retry_count` at `now`, with a jitter drawn
/// uniformly below one second so that senders do not retransmit in step.
pub fn backoff(now: u64, retry_count: u32) -> (r: u64)
    ensures
        fresh_deadline(r, now, retry_count),
{
    let jitter = random_below(SECOND);
    let r = retry_deadline_with(now, retry_count, jitter);
    assert(retry_deadline(now, retry_count, jitter as int) == r);
    r
}

/// The mathematical value of a transfer's sender state.
pub struct SendStateView {
    /// For each packet, in order: its sequence number and its status.
    pub entries: Seq<(u32, PacketStatus)>,
    /// The first packet that is not acknowledged.
    pub window_start: nat,
    /// Receive timeouts in a row since the last datagram.
    pub timeouts: nat,
}

/// The state of one outbound transfer.
pub struct SendState {
    entries: Vec<(u32, PacketStatus)>,
    window_start: usize,
    timeout_count: u32,
}

impl View for SendState {
    type V = SendStateView;

    closed spec fn view(&self) -> SendStateView {
        SendStateView {
            entries: self.entries@,
            window_start: self.window_start as nat,
            timeouts: self.timeout_count as nat,
        }
    }
}

/// The entries with every packet numbered `ack_number - 1` acknowledged.
pub open spec fn mark_acked(entries: Seq<(u32, PacketStatus)>, ack_number: u32) -> Seq<(u32, PacketStatus)> {
    Seq::new(
        entries.len(),
        |i: int|
            if entries[i].0 == seq_offset(ack_number, -1) {
                (entries[i].0, PacketStatus::Acknowledged)
            } else {
                entries[i]
            },
    )
}

/// The first position at or after `from` whose packet is not acknowledged,
/// or the number of entries if there is none.
pub open spec fn first_unacked(entries: Seq<(u32, PacketStatus)>, from: nat) -> nat
    decreases entries.len() - from,
{
    if from >= entries.len() {
        entries.len()
    } else if entries[from as int].1 is Acknowledged {
        first_unacked(entries, from + 1)
    } else {
        from
    }
}

/// A status that `drive` acts on at `now`: never sent, or sent with its
/// deadline reached.
pub open spec fn is_due(status: PacketStatus, now: u64) -> bool {
    match status {
        PacketStatus::Unsent => true,
        PacketStatus::Sent { retry_time, .. } => retry_time <= now,
        PacketStatus::Acknowledged => false,
    }
}

/// A status whose packet has been sent the maximum number of times.
pub open spec fn is_exhausted(status: PacketStatus) -> bool {
    match status {
        PacketStatus::Sent { retry_count, .. } => retry_count >= MAX_RETRIES,
        _ => false,
    }
}

/// The transmission count that a due packet reaches when it is sent now.
pub open spec fn next_count(status: PacketStatus) -> u32 {
    match status {
        PacketStatus::Sent { retry_count, .. } => (retry_count + 1) as u32,
        _ => 1,
    }
}

/// The positions in `[lo, hi)` whose packets are due at `now`, in order.
pub open spec fn due_positions(entries: Seq<(u32, PacketStatus)>, lo: int, hi: int, now: u64) -> Seq<usize>
    decreases hi - lo,
{
    if hi <= lo {
        Seq::empty()
    } else {
        due_positions(entries, lo, hi - 1, now) + if is_due(entries[hi - 1].1, now) {
            seq![(hi - 1) as usize]
        } else {
            Seq::empty()
        }
    }
}

impl SendStateView {
    /// Everything before the window start is acknowledged and the packet at
    /// the window start is not: the window starts at the first
    /// unacknowledged packet.
    pub open spec fn wf(self) -> bool {
        &&& self.window_start <= self.entries.len()
        &&& forall|i: int| 0 <= i < self.window_start ==> (#[trigger] self.entries[i]).1 is Acknowledged
        &&& self.window_start < self.entries.len() ==> !(self.entries[self.window_start as int].1 is Acknowledged)
    }

    /// One past the last position of the window.
    pub open spec fn window_end(self) -> int {
        if self.window_start + TCP_WINDOW_LENGTH < self.entries.len() {
            self.window_start + TCP_WINDOW_LENGTH
        } else {
            self.entries.len() as int
        }
    }

    /// Every packet is acknowledged.
    pub open spec fn complete(self) -> bool {
        forall|i: int| 0 <= i < self.entries.len() ==> (#[trigger] self.entries[i]).1 is Acknowledged
    }

    /// Some packet in the window has been sent the maximum number of times.
    pub open spec fn retries_exhausted(self) -> bool {
        exists|i: int| self.window_start <= i < self.window_end() && is_exhausted(#[trigger] self.entries[i].1)
    }

    /// The state after an ACK numbered `ack_number`: the packet it names is
    /// acknowledged, and the window slides past the acknowledged prefix.
    pub open spec fn after_ack(self, ack_number: u32) -> SendStateView {
        let entries = mark_acked(self.entries, ack_number);
        SendStateView { entries, window_start: first_unacked(entries, self.window_start), ..self }
    }

    /// `next` is this state after `drive` at `now` transmitted the due packets
    /// of the window: each counts one more transmission and has a fresh deadline.
    pub open spec fn driven_to(self, next: SendStateView, now: u64) -> bool {
        &&& next.window_start == self.window_start
        &&& next.timeouts == self.timeouts
        &&& next.entries.len() == self.entries.len()
        &&& forall|i: int| 0 <= i < self.entries.len() ==> {
            let old_status = #[trigger] self.entries[i].1;
            let new_status = next.entries[i].1;
            &&& next.entries[i].0 == self.entries[i].0
            &&& if self.window_start <= i < self.window_end() && is_due(old_status, now) {
                match new_status {
                    PacketStatus::Sent { retry_time, retry_count } => retry_count == next_count(old_status)
                        && fresh_deadline(retry_time, now, retry_count),
                    _ => false,
                }
            } else {
                new_status == old_status
            }
        }
    }
}

proof fn lemma_first_unacked(entries: Seq<(u32, PacketStatus)>, from: nat)
    requires
        from <= entries.len(),
    ensures
        from <= first_unacked(entries, from) <= entries.len(),
        forall|i: int| from <= i < first_unacked(entries, from) ==> (#[trigger] entries[i]).1 is Acknowledged,
        first_unacked(entries, from) < entries.len() ==> !(entries[first_unacked(entries, from) as int].1 is Acknowledged),
    decreases entries.len() - from,
{
    if from < entries.len() && entries[from as int].1 is Acknowledged {
        lemma_first_unacked(entries, from + 1);
    }
}

/// A state's window start is the first unacknowledged packet from any earlier point on.
proof fn lemma_first_unacked_is_start(s: SendStateView, from: nat)
    requires
        s.wf(),
        from <= s.window_start,
    ensures
        first_unacked(s.entries, from) == s.window_start,
    decreases s.window_start - from,
{
    if from < s.window_start {
        lemma_first_unacked_is_start(s, from + 1);
    }
}

/// An ACK keeps the window at the first unacknowledged packet, and never
/// moves it back.
pub proof fn lemma_ack_step(s: SendStateView, ack_number: u32)
    requires
        s.wf(),
    ensures
        s.after_ack(ack_number).wf(),
        s.after_ack(ack_number).window_start >= s.window_start,
{
    let e = mark_acked(s.entries, ack_number);
    lemma_first_unacked(e, s.window_start);
    let t = s.after_ack(ack_number);
    assert forall|i: int| 0 <= i < t.window_start implies (#[trigger] t.entries[i]).1 is Acknowledged by {
        if i < s.window_start {
            assert(s.entries[i].1 is Acknowledged);
        }
    }
}

/// The state after a run of ACKs, applied in order.
pub open spec fn after_acks(s: SendStateView, acks: Seq<u32>) -> SendStateView
    decreases acks.len(),
{
    if acks.len() == 0 {
        s
    } else {
        after_acks(s, acks.drop_last()).after_ack(acks.last())
    }
}

proof fn lemma_after_acks_wf(s: SendStateView, acks: Seq<u32>)
    requires
        s.wf(),
    ensures
        after_acks(s, acks).wf(),
        after_acks(s, acks).window_start >= s.window_start,
    decreases acks.len(),
{
    if acks.len() > 0 {
        lemma_after_acks_wf(s, acks.drop_last());
        lemma_ack_step(after_acks(s, acks.drop_last()), acks.last());
    }
}

/// Window monotonicity: along any run of ACKs (duplicated, reordered or
/// naming no packet at all), the window start never decreases and always
/// points at the first unacknowledged packet.
pub proof fn lemma_window_monotone(s: SendStateView, acks: Seq<u32>)
    requires
        s.wf(),
    ensures
        forall|k: int|
            0 <= k < acks.len() ==> #[trigger] after_acks(s, acks.take(k + 1)).wf() && after_acks(
                s,
                acks.take(k),
            ).window_start <= after_acks(s, acks.take(k + 1)).window_start,
{
    assert forall|k: int| 0 <= k < acks.len() implies #[trigger] after_acks(s, acks.take(k + 1)).wf()
        && after_acks(s, acks.take(k)).window_start <= after_acks(s, acks.take(k + 1)).window_start by {
        let pre = acks.take(k);
        assert(acks.take(k + 1).drop_last() =~= pre);
        assert(acks.take(k + 1).last() == acks[k]);
        lemma_after_acks_wf(s, pre);
        lemma_ack_step(after_acks(s, pre), acks[k]);
    }
}

/// Idempotent ACK: a second application of the same ACK changes nothing.
pub proof fn lemma_ack_idempotent(s: SendStateView, ack_number: u32)
    requires
        s.wf(),
    ensures
        s.after_ack(ack_number).after_ack(ack_number) == s.after_ack(ack_number),
{
    let t = s.after_ack(ack_number);
    lemma_ack_step(s, ack_number);
    assert(mark_acked(t.entries, ack_number) =~= t.entries);
    lemma_first_unacked_is_start(t, t.window_start);
}

impl SendState {
    /// A fresh transfer of `packets`: all unsent, the window at the start.
    pub fn new(packets: &Vec<TcpPacket>) -> (r: SendState)
        ensures
            r@.wf(),
            r@.window_start == 0,
            r@.timeouts == 0,
            r@.entries.len() == packets@.len(),
            forall|i: int| 0 <= i < packets@.len() ==> #[trigger] r@.entries[i] == (packets@[i].sequence_number, PacketStatus::Unsent),
    {
        let mut entries: Vec<(u32, PacketStatus)> = Vec::new();
        let mut i: usize = 0;
        while i < packets.len()
            invariant
                i <= packets@.len(),
                entries@.len() == i,
                forall|k: int| 0 <= k < i ==> #[trigger] entries@[k] == (packets@[k].sequence_number, PacketStatus::Unsent),
            decreases packets@.len() - i,
        {
            entries.push((packets[i].sequence_number, PacketStatus::Unsent));
            i = i + 1;
        }
        SendState { entries, window_start: 0, timeout_count: 0 }
    }

    /// The status of packet `i`.
    pub fn status(&self, i: usize) -> (r: PacketStatus)
        requires
            i < self@.entries.len(),
        ensures
            r == self@.entries[i as int].1,
    {
        self.entries[i].1
    }

    /// The number of packets in the transfer.
    pub fn len(&self) -> (r: usize)
        ensures
            r == self@.entries.len(),
    {
        self.entries.len()
    }

    /// The first packet that is not acknowledged.
    pub fn window_start(&self) -> (r: usize)
        ensures
            r == self@.window_start,
    {
        self.window_start
    }

    /// One past the last position of the window.
    pub fn window_end(&self) -> (r: usize)
        requires
            self@.wf(),
        ensures
            r == self@.window_end(),
    {
        let cap = TCP_WINDOW_LENGTH as usize;
        if self.entries.len() - self.window_start > cap {
            self.window_start + cap
        } else {
            self.entries.len()
        }
    }

    /// Whether every packet is acknowledged.
    pub fn is_complete(&self) -> (r: bool)
        requires
            self@.wf(),
        ensures
            r == self@.complete(),
    {
        self.window_start == self.entries.len()
    }

    /// Marks the packet that an ACK numbered `ack_number` names as
    /// acknowledged, and slides the window past the acknowledged prefix.
    pub fn on_ack(&mut self, ack_number: u32)
        requires
            old(self)@.wf(),
        ensures
            final(self)@ == old(self)@.after_ack(ack_number),
            final(self)@.wf(),
    {
        let ghost s = self@;
        let acked = ack_number.wrapping_sub(1);
        assert(acked == seq_offset(ack_number, -1));
        let mut i: usize = 0;
        while i < self.entries.len()
            invariant
                i <= self.entries@.len(),
                self.entries@.len() == s.entries.len(),
                self.window_start == s.window_start,
                self.timeout_count == s.timeouts,
                acked == seq_offset(ack_number, -1),
                forall|k: int| 0 <= k < i ==> #[trigger] self.entries@[k] == mark_acked(s.entries, ack_number)[k],
                forall|k: int| i <= k < s.entries.len() ==> #[trigger] self.entries@[k] == s.entries[k],
            decreases s.entries.len() - i,
        {
            if self.entries[i].0 == acked {
                let sequence_number = self.entries[i].0;
                self.entries[i] = (sequence_number, PacketStatus::Acknowledged);
            }
            i = i + 1;
        }
        assert(self.entries@ =~= mark_acked(s.entries, ack_number));
        let ghost e = self.entries@;
        while self.window_start < self.entries.len() && matches!(self.entries[self.window_start].1, PacketStatus::Acknowledged)
            invariant
                self.entries@ == e,
                self.timeout_count == s.timeouts,
                s.window_start <= self.window_start <= e.len(),
                first_unacked(e, self.window_start as nat) == first_unacked(e, s.window_start),
            decreases e.len() - self.window_start,
        {
            self.window_start = self.window_start + 1;
        }
        assert(first_unacked(e, self.window_start as nat) == self.window_start);
        proof {
            lemma_ack_step(s, ack_number);
        }
    }

    /// Decides the transmissions at time `now`. Fails with
    /// `RetriesExceeded`, changing nothing, when a packet in the window has
    /// been sent the maximum number of times. Otherwise returns the window
    /// positions that are unsent or past their deadline, in order, and counts
    /// one more transmission of each with a fresh backoff deadline.
    pub fn drive(&mut self, now: u64) -> (r: Result<Vec<usize>, ProtocolError>)
        requires
            old(self)@.wf(),
        ensures
            r is Err <==> old(self)@.retries_exhausted(),
            r matches Err(e) ==> e == ProtocolError::RetriesExceeded && final(self)@ == old(self)@,
            r matches Ok(sends) ==> sends@ == due_positions(
                old(self)@.entries,
                old(self)@.window_start as int,
                old(self)@.window_end(),
                now,
            ) && old(self)@.driven_to(final(self)@, now),
            final(self)@.wf(),
    {
        let ghost s = self@;
        let end = self.window_end();
        let mut i: usize = self.window_start;
        while i < end
            invariant
                self@ == s,
                s.wf(),
                end == s.window_end(),
                s.window_start <= i <= end,
                forall|k: int| s.window_start <= k < i ==> !is_exhausted(#[trigger] s.entries[k].1),
            decreases end - i,
        {
            match self.entries[i].1 {
                PacketStatus::Sent { retry_count, .. } => {
                    if retry_count >= MAX_RETRIES {
                        return Err(ProtocolError::RetriesExceeded);
                    }
                },
                _ => {},
            }
            i = i + 1;
        }
        let mut sends: Vec<usize> = Vec::new();
        let mut i: usize = self.window_start;
        while i < end
            invariant
                s.wf(),
                end == s.window_end(),
                s.window_start <= i <= end,
                self.window_start == s.window_start,
                self.timeout_count == s.timeouts,
                self.entries@.len() == s.entries.len(),
                forall|k: int| s.window_start <= k < end ==> !is_exhausted(#[trigger] s.entries[k].1),
                sends@ == due_positions(s.entries, s.window_start as int, i as int, now),
                forall|k: int| i <= k < s.entries.len() ==> #[trigger] self.entries@[k] == s.entries[k],
                forall|k: int| 0 <= k < s.window_start ==> #[trigger] self.entries@[k] == s.entries[k],
                forall|k: int| s.window_start <= k < i ==> {
                    let old_status = #[trigger] s.entries[k].1;
                    let new_status = self.entries@[k].1;
                    &&& self.entries@[k].0 == s.entries[k].0
                    &&& if is_due(old_status, now) {
                        match new_status {
                            PacketStatus::Sent { retry_time, retry_count } => retry_count == next_count(old_status)
                                && fresh_deadline(retry_time, now, retry_count),
                            _ => false,
                        }
                    } else {
                        new_status == old_status
                    }
                },
            decreases end - i,
        {
            let (sequence_number, status) = self.entries[i];
            match status {
                PacketStatus::Unsent => {
                    let retry_time = backoff(now, 1);
                    self.entries[i] = (sequence_number, PacketStatus::Sent { retry_time, retry_count: 1 });
                    sends.push(i);
                },
                PacketStatus::Sent { retry_time, retry_count } => {
                    if retry_time <= now {
                        assert(!is_exhausted(s.entries[i as int].1));
                        let count = retry_count + 1;
                        let retry_time = backoff(now, count);
                        self.entries[i] = (sequence_number, PacketStatus::Sent { retry_time, retry_count: count });
                        sends.push(i);
                    }
                },
                PacketStatus::Acknowledged => {},
            }
            i = i + 1;
        }
        proof {
            assert forall|k: int| 0 <= k < self@.window_start implies (#[trigger] self@.entries[k]).1 is Acknowledged by {
                assert(s.entries[k].1 is Acknowledged);
            }
            if self@.window_start < self@.entries.len() {
                let w = self@.window_start as int;
                assert(!(s.entries[w].1 is Acknowledged));
            }
        }
        Ok(sends)
    }

    /// A receive that timed out. Fails with `PeerUnreachable`, changing
    /// nothing, once `MAX_TIMEOUTS` timeouts in a row have already passed;
    /// otherwise counts one more.
    pub fn on_timeout(&mut self) -> (r: Result<(), ProtocolError>)
        requires
            old(self)@.wf(),
        ensures
            r is Err <==> old(self)@.timeouts >= MAX_TIMEOUTS,
            r matches Err(e) ==> e == ProtocolError::PeerUnreachable && final(self)@ == old(self)@,
            r is Ok ==> final(self)@ == (SendStateView { timeouts: old(self)@.timeouts + 1, ..old(self)@ }),
            final(self)@.wf(),
    {
        if self.timeout_count >= MAX_TIMEOUTS {
            return Err(ProtocolError::PeerUnreachable);
        }
        self.timeout_count = self.timeout_count + 1;
        Ok(())
    }

    /// A datagram that arrived: the timeout count restarts, and a frame that
    /// passes the checksum and carries ACK acknowledges the packet it names.
    /// Any other frame is dropped.
    pub fn on_datagram(&mut self, buf: [u8; MAX_PACKET_LENGTH])
        requires
            old(self)@.wf(),
        ensures
            final(self)@ == if frame_sum(buf@) == 0xffff && decode_frame(buf@).flag_ack {
                (SendStateView { timeouts: 0, ..old(self)@ }).after_ack(decode_frame(buf@).ack_number)
            } else {
                SendStateView { timeouts: 0, ..old(self)@ }
            },
            final(self)@.wf(),
    {
        self.timeout_count = 0;
        match TcpPacket::from_buffer(buf) {
            Ok(packet) => {
                if packet.flag_ack {
                    self.on_ack(packet.ack_number);
                }
            },
            Err(_) => {},
        }
    }
}

} // verus!
