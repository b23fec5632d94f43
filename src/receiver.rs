//! The receiving side of a transfer: payloads buffered by their offset from
//! the connection's base sequence number, an acknowledgment for every packet,
//! and the message delivered once the last packet is in and no slot is empty.
use vstd::prelude::*;

use crate::packet::{
    chunk, chunk_count, decode_frame, encode_frame, frame_sum, message_packet, seq_distance,
    seq_offset, PacketView, TcpPacket, MAX_DATA_LENGTH, MAX_PACKET_LENGTH,
};

verus! {

/// The mathematical value of a reassembly buffer.
pub struct ReassemblyView {
    /// The sequence number that offset zero stands for.
    pub base: u32,
    /// One slot per offset: the payload received there, if any.
    pub slots: Seq<Option<Seq<u8>>>,
    /// A packet carrying FIN has been received.
    pub finished: bool,
}

/// The payloads of one inbound transfer, by offset.
pub struct Reassembly {
    base: u32,
    slots: Vec<Option<Vec<u8>>>,
    finished: bool,
}

/// The value of one slot.
pub open spec fn slot_view(slot: Option<Vec<u8>>) -> Option<Seq<u8>> {
    match slot {
        Some(d) => Some(d@),
        None => None,
    }
}

impl View for Reassembly {
    type V = ReassemblyView;

    closed spec fn view(&self) -> ReassemblyView {
        ReassemblyView {
            base: self.base,
            slots: Seq::new(self.slots@.len(), |i: int| slot_view(self.slots@[i])),
            finished: self.finished,
        }
    }
}

/// `slots` with `data` stored at `offset`, grown with empty slots first
/// where `offset` lies past the end.
pub open spec fn store(slots: Seq<Option<Seq<u8>>>, offset: nat, data: Seq<u8>) -> Seq<Option<Seq<u8>>> {
    let grown = if offset < slots.len() {
        slots
    } else {
        slots + Seq::new((offset + 1 - slots.len()) as nat, |i: int| None)
    };
    grown.update(offset as int, Some(data))
}

/// The payloads of all slots joined in offset order (an empty slot adds nothing).
pub open spec fn joined(slots: Seq<Option<Seq<u8>>>) -> Seq<u8>
    decreases slots.len(),
{
    if slots.len() == 0 {
        Seq::empty()
    } else {
        joined(slots.drop_last()) + match slots.last() {
            Some(d) => d,
            None => Seq::empty(),
        }
    }
}

impl ReassemblyView {
    /// An empty buffer for a connection whose data starts at `base`.
    pub open spec fn fresh(base: u32) -> ReassemblyView {
        ReassemblyView { base, slots: Seq::empty(), finished: false }
    }

    /// The buffer with packet `p` stored at its offset from the base.
    pub open spec fn with_packet(self, p: PacketView) -> ReassemblyView {
        ReassemblyView {
            slots: store(self.slots, seq_distance(p.sequence_number, self.base) as nat, p.data),
            finished: self.finished || p.flag_finished,
            ..self
        }
    }

    /// FIN has arrived and no slot is empty.
    pub open spec fn complete(self) -> bool {
        &&& self.finished
        &&& forall|i: int| 0 <= i < self.slots.len() ==> (#[trigger] self.slots[i]) is Some
    }

    /// The buffer after receiving `p`: emptied again when that completes the
    /// message.
    pub open spec fn after_packet(self, p: PacketView) -> ReassemblyView {
        if self.with_packet(p).complete() {
            ReassemblyView::fresh(self.base)
        } else {
            self.with_packet(p)
        }
    }

    /// What receiving `p` delivers: the joined message when it completes it.
    pub open spec fn delivered(self, p: PacketView) -> Option<Seq<u8>> {
        if self.with_packet(p).complete() {
            Some(joined(self.with_packet(p).slots))
        } else {
            None
        }
    }
}

impl Reassembly {
    /// An empty buffer for a connection whose data starts at `base`, the
    /// sequence number that the handshake established.
    pub fn new(base: u32) -> (r: Reassembly)
        ensures
            r@ == ReassemblyView::fresh(base),
    {
        let r = Reassembly { base, slots: Vec::new(), finished: false };
        assert(r@.slots =~= Seq::<Option<Seq<u8>>>::empty());
        r
    }

    /// Whether FIN has arrived.
    pub fn is_finished(&self) -> (r: bool)
        ensures
            r == self@.finished,
    {
        self.finished
    }

    /// The number of slots.
    pub fn len(&self) -> (r: usize)
        ensures
            r == self@.slots.len(),
    {
        self.slots.len()
    }

    /// Stores `packet`'s payload at its offset from the base (overwriting a
    /// duplicate), notes FIN, and returns the acknowledgment to send back,
    /// whether the packet was new or not. When FIN has arrived and no slot
    /// is empty, also returns the joined message and empties the buffer.
    pub fn on_packet(&mut self, packet: TcpPacket) -> (r: (TcpPacket, Option<Vec<u8>>))
        ensures
            r.0@ == packet@.ack_of(),
            final(self)@ == old(self)@.after_packet(packet@),
            r.1 matches Some(m) ==> old(self)@.delivered(packet@) == Some(m@),
            r.1 is None ==> old(self)@.delivered(packet@) is None,
    {
        let ghost s = self@;
        let ghost p = packet@;
        let mut packet = packet;
        let mut data: Vec<u8> = Vec::new();
        std::mem::swap(&mut data, &mut packet.data);
        let offset = packet.sequence_number.wrapping_sub(self.base) as usize;
        assert(offset as int == seq_distance(p.sequence_number, s.base));
        let ghost target = s.with_packet(p);
        while self.slots.len() <= offset
            invariant
                self.base == s.base,
                self.finished == s.finished,
                s.slots.len() <= self.slots@.len(),
                self.slots@.len() > s.slots.len() ==> self.slots@.len() <= offset + 1,
                forall|i: int| 0 <= i < s.slots.len() ==> #[trigger] slot_view(self.slots@[i]) == s.slots[i],
                forall|i: int| s.slots.len() <= i < self.slots@.len() ==> #[trigger] self.slots@[i] is None,
            decreases offset + 1 - self.slots@.len(),
        {
            self.slots.push(None);
        }
        self.slots[offset] = Some(data);
        if packet.flag_finished {
            self.finished = true;
        }
        assert(self@.slots =~= target.slots);
        let ack = packet.create_ack();
        assert(ack@ =~= p.ack_of());
        let mut complete = self.finished;
        let mut i: usize = 0;
        while i < self.slots.len()
            invariant
                self@ == target,
                i <= self.slots@.len(),
                complete == (target.finished && forall|k: int| 0 <= k < i ==> (#[trigger] target.slots[k]) is Some),
            decreases self.slots@.len() - i,
        {
            if self.slots[i].is_none() {
                assert(target.slots[i as int] is None);
                complete = false;
            }
            i = i + 1;
        }
        if !complete {
            return (ack, None);
        }
        let mut message: Vec<u8> = Vec::new();
        let mut i: usize = 0;
        while i < self.slots.len()
            invariant
                self@ == target,
                target.complete(),
                i <= self.slots@.len(),
                message@ == joined(target.slots.take(i as int)),
            decreases self.slots@.len() - i,
        {
            assert(target.slots.take(i + 1).drop_last() =~= target.slots.take(i as int));
            match &self.slots[i] {
                Some(d) => {
                    assert(target.slots[i as int] == Some(d@));
                    let mut k: usize = 0;
                    let ghost before = message@;
                    while k < d.len()
                        invariant
                            k <= d@.len(),
                            message@ == before + d@.take(k as int),
                        decreases d@.len() - k,
                    {
                        message.push(d[k]);
                        k = k + 1;
                        assert(message@ =~= before + d@.take(k as int));
                    }
                    assert(d@.take(d@.len() as int) =~= d@);
                },
                None => {
                    assert(target.slots[i as int] is Some);
                },
            }
            i = i + 1;
        }
        assert(target.slots.take(self.slots@.len() as int) =~= target.slots);
        self.slots = Vec::new();
        self.finished = false;
        assert(self@.slots =~= Seq::<Option<Seq<u8>>>::empty());
        (ack, Some(message))
    }
}

impl Reassembly {
    /// Handles one received frame. A frame that fails the checksum is
    /// dropped (`None`, nothing changes). Otherwise its packet is received as
    /// `on_packet` does, and the result holds the encoded acknowledgment and
    /// the message, if this packet completed it.
    pub fn on_frame(&mut self, buf: [u8; MAX_PACKET_LENGTH]) -> (r: Option<([u8; MAX_PACKET_LENGTH], Option<Vec<u8>>)>)
        ensures
            r is None <==> frame_sum(buf@) != 0xffff,
            r is None ==> final(self)@ == old(self)@,
            r matches Some((ack, message)) ==> {
                &&& ack@ == encode_frame(decode_frame(buf@).ack_of())
                &&& final(self)@ == old(self)@.after_packet(decode_frame(buf@))
                &&& message matches Some(m) ==> old(self)@.delivered(decode_frame(buf@)) == Some(m@)
                &&& message is None ==> old(self)@.delivered(decode_frame(buf@)) is None
            },
    {
        match TcpPacket::from_buffer(buf) {
            Ok(packet) => {
                let (ack, message) = self.on_packet(packet);
                assert(ack@.options.len() + ack@.data.len() <= MAX_DATA_LENGTH);
                Some((ack.to_buffer(), message))
            },
            Err(_) => None,
        }
    }
}

/// `order` lists each of `0..k` exactly once.
pub open spec fn is_permutation(order: Seq<int>, k: nat) -> bool {
    &&& order.len() == k
    &&& forall|j: int| 0 <= j < k ==> 0 <= #[trigger] order[j] < k
    &&& forall|a: int, b: int| 0 <= a < b < k ==> order[a] != order[b]
    &&& forall|v: int| 0 <= v < k ==> #[trigger] order.contains(v)
}

/// The packets of message `m` from base `base`, in the arrival order `order`.
pub open spec fn packets_in_order(m: Seq<u8>, base: u32, order: Seq<int>) -> Seq<PacketView> {
    Seq::new(order.len(), |j: int| message_packet(m, base, order[j]))
}

/// The buffer after receiving `ps` in order.
pub open spec fn receive_all(v: ReassemblyView, ps: Seq<PacketView>) -> ReassemblyView
    decreases ps.len(),
{
    if ps.len() == 0 {
        v
    } else {
        receive_all(v, ps.drop_last()).after_packet(ps.last())
    }
}

/// One past the largest of the first `j` offsets of `order`.
spec fn reach(order: Seq<int>, j: int) -> int
    decreases j,
{
    if j <= 0 {
        0
    } else if order[j - 1] + 1 > reach(order, j - 1) {
        order[j - 1] + 1
    } else {
        reach(order, j - 1)
    }
}

/// `v` holds exactly the chunks of `m` at the first `j` offsets of `order`.
spec fn holds_prefix(v: ReassemblyView, m: Seq<u8>, base: u32, order: Seq<int>, j: int) -> bool {
    &&& v.base == base
    &&& v.slots.len() == reach(order, j)
    &&& forall|i: int|
        0 <= i < v.slots.len() ==> #[trigger] v.slots[i] == if order.take(j).contains(i) {
            Some(chunk(m, i))
        } else {
            None
        }
    &&& v.finished == order.take(j).contains(chunk_count(m.len()) - 1)
}

proof fn lemma_reach(order: Seq<int>, k: nat, j: int)
    requires
        is_permutation(order, k),
        0 <= j <= k,
    ensures
        0 <= reach(order, j) <= k,
        forall|a: int| 0 <= a < j ==> #[trigger] order[a] < reach(order, j),
    decreases j,
{
    if j > 0 {
        lemma_reach(order, k, j - 1);
    }
}

proof fn lemma_seq_distance(base: u32, o: int)
    requires
        0 <= o < 0x1_0000_0000,
    ensures
        seq_distance(seq_offset(base, o), base) == o,
{
    let n: int = 0x1_0000_0000;
    let x = seq_offset(base, o) as int;
    if base + o < n {
        assert(x == base + o);
    } else {
        assert(x == base + o - n);
        assert((o - n) % n == o) by {
            vstd::arithmetic::div_mod::lemma_mod_add_multiples_vanish(o - n, n);
        }
    }
}

proof fn lemma_chunk_bounds(len: int)
    requires
        len > 0,
    ensures
        (chunk_count(len as nat) - 1) * MAX_DATA_LENGTH < len <= chunk_count(len as nat) * MAX_DATA_LENGTH,
{
    let q = (len - 1) / 1380;
    vstd::arithmetic::div_mod::lemma_fundamental_div_mod(len - 1, 1380);
    assert(chunk_count(len as nat) == q + 1);
}

proof fn lemma_joined_chunks(m: Seq<u8>, slots: Seq<Option<Seq<u8>>>)
    requires
        m.len() > 0,
        slots.len() <= chunk_count(m.len()),
        forall|i: int| 0 <= i < slots.len() ==> #[trigger] slots[i] == Some(chunk(m, i)),
    ensures
        joined(slots) == m.subrange(
            0,
            if slots.len() * MAX_DATA_LENGTH < m.len() {
                slots.len() * MAX_DATA_LENGTH
            } else {
                m.len() as int
            },
        ),
    decreases slots.len(),
{
    lemma_chunk_bounds(m.len() as int);
    if slots.len() == 0 {
        assert(m.subrange(0, 0) =~= Seq::<u8>::empty());
    } else {
        let n = slots.len() as int;
        lemma_joined_chunks(m, slots.drop_last());
        assert(slots.last() == Some(chunk(m, n - 1)));
        assert((n - 1) * MAX_DATA_LENGTH < m.len());
        let end = if n * MAX_DATA_LENGTH < m.len() { n * MAX_DATA_LENGTH } else { m.len() as int };
        assert(m.subrange(0, (n - 1) * 1380) + chunk(m, n - 1) =~= m.subrange(0, end));
    }
}

proof fn lemma_take_push(order: Seq<int>, j: int, i: int)
    requires
        0 <= j < order.len(),
    ensures
        order.take(j + 1).contains(i) <==> (order.take(j).contains(i) || order[j] == i),
{
    if order.take(j + 1).contains(i) {
        let a = choose|a: int| 0 <= a < j + 1 && #[trigger] order.take(j + 1)[a] == i;
        if a < j {
            assert(order.take(j)[a] == i);
        }
    }
    if order.take(j).contains(i) {
        let a = choose|a: int| 0 <= a < j && #[trigger] order.take(j)[a] == i;
        assert(order.take(j + 1)[a] == i);
    }
    if order[j] == i {
        assert(order.take(j + 1)[j] == i);
    }
}

/// One more packet of the arrival order keeps the buffer holding exactly the
/// chunks received so far.
proof fn lemma_receive_step(v: ReassemblyView, m: Seq<u8>, base: u32, order: Seq<int>, j: int)
    requires
        m.len() > 0,
        chunk_count(m.len()) <= 0x1_0000_0000,
        is_permutation(order, chunk_count(m.len())),
        0 <= j < chunk_count(m.len()),
        holds_prefix(v, m, base, order, j),
    ensures
        holds_prefix(v.with_packet(message_packet(m, base, order[j])), m, base, order, j + 1),
{
    let k = chunk_count(m.len()) as int;
    let o = order[j];
    let p = message_packet(m, base, o);
    lemma_seq_distance(base, o);
    lemma_reach(order, k as nat, j);
    lemma_reach(order, k as nat, j + 1);
    let w = v.with_packet(p);
    assert(w.slots.len() == reach(order, j + 1));
    assert forall|i: int| 0 <= i < w.slots.len() implies #[trigger] w.slots[i] == if order.take(j + 1).contains(i) {
        Some(chunk(m, i))
    } else {
        None
    } by {
        lemma_take_push(order, j, i);
        if i != o && i < v.slots.len() {
            assert(w.slots[i] == v.slots[i]);
        }
    }
    lemma_take_push(order, j, k - 1);
}

/// Before the last packet of the arrival order, the buffer is never complete.
proof fn lemma_not_complete_early(v: ReassemblyView, m: Seq<u8>, base: u32, order: Seq<int>, j: int)
    requires
        m.len() > 0,
        is_permutation(order, chunk_count(m.len())),
        0 <= j < chunk_count(m.len()),
        holds_prefix(v, m, base, order, j),
    ensures
        !v.complete(),
{
    let k = chunk_count(m.len()) as int;
    lemma_reach(order, k as nat, j);
    let o = order[j];
    if order.take(j).contains(o) {
        let a = choose|a: int| 0 <= a < j && #[trigger] order.take(j)[a] == o;
        assert(order[a] == order[j]);
    }
    if v.finished {
        let a = choose|a: int| 0 <= a < j && #[trigger] order.take(j)[a] == k - 1;
        assert(order[a] < reach(order, j));
        assert(v.slots[o] is None);
    }
}

/// The first `j` packets of the arrival order, short of the last, leave the
/// buffer holding exactly their chunks, and deliver nothing.
proof fn lemma_receive_prefix(m: Seq<u8>, base: u32, order: Seq<int>, j: int)
    requires
        m.len() > 0,
        chunk_count(m.len()) <= 0x1_0000_0000,
        is_permutation(order, chunk_count(m.len())),
        0 <= j <= chunk_count(m.len()) - 1,
    ensures
        holds_prefix(
            receive_all(ReassemblyView::fresh(base), packets_in_order(m, base, order).take(j)),
            m,
            base,
            order,
            j,
        ),
        forall|i: int|
            0 <= i < j ==> (#[trigger] receive_all(
                ReassemblyView::fresh(base),
                packets_in_order(m, base, order).take(i),
            ).delivered(packets_in_order(m, base, order)[i])) is None,
    decreases j,
{
    let ps = packets_in_order(m, base, order);
    let start = ReassemblyView::fresh(base);
    if j == 0 {
        assert(order.take(0) =~= Seq::<int>::empty());
        assert(ps.take(0) =~= Seq::<PacketView>::empty());
    } else {
        lemma_receive_prefix(m, base, order, j - 1);
        let v = receive_all(start, ps.take(j - 1));
        lemma_receive_step(v, m, base, order, j - 1);
        lemma_not_complete_early(v.with_packet(ps[j - 1]), m, base, order, j);
        assert(ps.take(j).drop_last() =~= ps.take(j - 1));
    }
}

/// Reassembly: the packets of a non-empty message, received once each in
/// any order, complete the buffer only with the last of them, and what is
/// delivered then is the message itself.
pub proof fn lemma_reassembly(m: Seq<u8>, base: u32, order: Seq<int>)
    requires
        m.len() > 0,
        chunk_count(m.len()) <= 0x1_0000_0000,
        is_permutation(order, chunk_count(m.len())),
    ensures
        forall|j: int|
            0 <= j < chunk_count(m.len()) - 1 ==> (#[trigger] receive_all(
                ReassemblyView::fresh(base),
                packets_in_order(m, base, order).take(j),
            ).delivered(packets_in_order(m, base, order)[j])) is None,
        receive_all(
            ReassemblyView::fresh(base),
            packets_in_order(m, base, order).take(chunk_count(m.len()) - 1),
        ).delivered(packets_in_order(m, base, order)[chunk_count(m.len()) - 1]) == Some(m),
{
    let k = chunk_count(m.len()) as int;
    let ps = packets_in_order(m, base, order);
    let start = ReassemblyView::fresh(base);
    lemma_receive_prefix(m, base, order, k - 1);
    let v = receive_all(start, ps.take(k - 1));
    lemma_receive_step(v, m, base, order, k - 1);
    let w = v.with_packet(ps[k - 1]);
    assert(order.take(k) =~= order);
    lemma_reach(order, k as nat, k);
    assert(order.contains(k - 1));
    assert(reach(order, k) >= k) by {
        let a = choose|a: int| 0 <= a < k && #[trigger] order[a] == k - 1;
        assert(order[a] < reach(order, k));
    }
    assert(w.complete());
    lemma_joined_chunks(m, w.slots);
    lemma_chunk_bounds(m.len() as int);
    assert(m.subrange(0, m.len() as int) =~= m);
}

} // verus!
