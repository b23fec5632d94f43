//! The wire packet: its fields, its fixed-size little-endian frame and the
//! 16-bit checksum that makes a corrupted frame detectable.
use byteorder::{ByteOrder, LittleEndian};
use vstd::prelude::*;

use crate::error::ProtocolError;
use crate::random::random_u32;
use vstd::utf8::encode_utf8;

verus! {

/// Largest payload that one frame carries.
pub const MAX_DATA_LENGTH: usize = 1380;

/// Size of every encoded frame: the fixed header and the payload area.
pub const MAX_PACKET_LENGTH: usize = MAX_DATA_LENGTH + 16;

/// Window size advertised by data packets, and the sender's window capacity.
pub const TCP_WINDOW_LENGTH: u16 = 10;

/// Length of the fixed header in bytes.
pub const HEADER_LENGTH: usize = 16;

/// The sum that the bytes of every correctly checksummed frame add up to.
pub const CHECKSUM_SENTINEL: u16 = 0xffff;

/// One packet, as the protocol sees it before encoding or after decoding.
#[derive(Debug, Clone)]
pub struct TcpPacket {
    pub sequence_number: u32,
    pub ack_number: u32,
    /// Header length in 32-bit words; the payload starts at `data_offset * 4`.
    pub data_offset: u8,
    pub flag_congestion_window_reduced: bool,
    pub flag_echo_explicit_congestion_notification: bool,
    pub flag_urgent_pointer: bool,
    pub flag_ack: bool,
    pub flag_push: bool,
    pub flag_reset: bool,
    pub flag_sync_seq_numbers: bool,
    pub flag_finished: bool,
    pub window: u16,
    pub urgent_pointer: u16,
    pub options: Vec<u8>,
    pub data: Vec<u8>,
}

/// The mathematical value of a packet: its fields, with byte vectors as sequences.
pub struct PacketView {
    pub sequence_number: u32,
    pub ack_number: u32,
    pub data_offset: u8,
    pub flag_congestion_window_reduced: bool,
    pub flag_echo_explicit_congestion_notification: bool,
    pub flag_urgent_pointer: bool,
    pub flag_ack: bool,
    pub flag_push: bool,
    pub flag_reset: bool,
    pub flag_sync_seq_numbers: bool,
    pub flag_finished: bool,
    pub window: u16,
    pub urgent_pointer: u16,
    pub options: Seq<u8>,
    pub data: Seq<u8>,
}

impl View for TcpPacket {
    type V = PacketView;

    open spec fn view(&self) -> PacketView {
        PacketView {
            sequence_number: self.sequence_number,
            ack_number: self.ack_number,
            data_offset: self.data_offset,
            flag_congestion_window_reduced: self.flag_congestion_window_reduced,
            flag_echo_explicit_congestion_notification: self.flag_echo_explicit_congestion_notification,
            flag_urgent_pointer: self.flag_urgent_pointer,
            flag_ack: self.flag_ack,
            flag_push: self.flag_push,
            flag_reset: self.flag_reset,
            flag_sync_seq_numbers: self.flag_sync_seq_numbers,
            flag_finished: self.flag_finished,
            window: self.window,
            urgent_pointer: self.urgent_pointer,
            options: self.options@,
            data: self.data@,
        }
    }
}

/// The four bytes of `v`, least significant first.
pub open spec fn le32_bytes(v: u32) -> Seq<u8> {
    seq![v as u8, (v >> 8u32) as u8, (v >> 16u32) as u8, (v >> 24u32) as u8]
}

/// The two bytes of `v`, least significant first.
pub open spec fn le16_bytes(v: u16) -> Seq<u8> {
    seq![v as u8, (v >> 8u16) as u8]
}

/// The little-endian `u32` held in `s[at..at + 4]`.
pub open spec fn le32_at(s: Seq<u8>, at: int) -> u32 {
    (s[at] as u32) | ((s[at + 1] as u32) << 8u32) | ((s[at + 2] as u32) << 16u32) | ((s[at + 3] as u32) << 24u32)
}

/// The little-endian `u16` held in `s[at..at + 2]`.
pub open spec fn le16_at(s: Seq<u8>, at: int) -> u16 {
    (s[at] as u16) | ((s[at + 1] as u16) << 8u16)
}

/// `s` with `part` written over it from position `at` on.
pub open spec fn splice(s: Seq<u8>, at: int, part: Seq<u8>) -> Seq<u8> {
    s.subrange(0, at) + part + s.subrange(at + part.len(), s.len() as int)
}

/// What byte `i` of a frame adds to the checksum: its value at an even
/// position, its value shifted left by eight at an odd one.
pub open spec fn byte_weight(i: int, b: u8) -> int {
    if i % 2 == 0 {
        b as int
    } else {
        b as int * 256
    }
}

/// The sum of the weights of all bytes of `s`.
pub open spec fn weighted_sum(s: Seq<u8>) -> int
    decreases s.len(),
{
    if s.len() == 0 {
        0
    } else {
        weighted_sum(s.drop_last()) + byte_weight(s.len() - 1, s.last())
    }
}

/// The 16-bit running checksum of `s`.
pub open spec fn frame_sum(s: Seq<u8>) -> int {
    weighted_sum(s) % 0x10000
}

/// Relies on byteorder's `LittleEndian::read_u32`: the `u32` in the first four
/// bytes of the slice, least significant first (it panics on fewer than four).
#[verifier::external_body]
fn read_u32_le(buf: &[u8; MAX_PACKET_LENGTH], at: usize) -> (r: u32)
    requires
        at + 4 <= MAX_PACKET_LENGTH,
    ensures
        r == le32_at(buf@, at as int),
{
    LittleEndian::read_u32(&buf[at..])
}

/// Relies on byteorder's `LittleEndian::read_u16`: the `u16` in the first two
/// bytes of the slice, least significant first (it panics on fewer than two).
#[verifier::external_body]
fn read_u16_le(buf: &[u8; MAX_PACKET_LENGTH], at: usize) -> (r: u16)
    requires
        at + 2 <= MAX_PACKET_LENGTH,
    ensures
        r == le16_at(buf@, at as int),
{
    LittleEndian::read_u16(&buf[at..])
}

/// Relies on byteorder's `LittleEndian::write_u32`: writes the four bytes of
/// `v`, least significant first, over the first four of the slice.
#[verifier::external_body]
fn write_u32_le(buf: &mut [u8; MAX_PACKET_LENGTH], at: usize, v: u32)
    requires
        at + 4 <= MAX_PACKET_LENGTH,
    ensures
        final(buf)@ == splice(old(buf)@, at as int, le32_bytes(v)),
{
    LittleEndian::write_u32(&mut buf[at..], v)
}

/// Relies on byteorder's `LittleEndian::write_u16`: writes the two bytes of
/// `v`, least significant first, over the first two of the slice.
#[verifier::external_body]
fn write_u16_le(buf: &mut [u8; MAX_PACKET_LENGTH], at: usize, v: u16)
    requires
        at + 2 <= MAX_PACKET_LENGTH,
    ensures
        final(buf)@ == splice(old(buf)@, at as int, le16_bytes(v)),
{
    LittleEndian::write_u16(&mut buf[at..], v)
}

proof fn lemma_weighted_sum_prefix(s: Seq<u8>, i: int)
    requires
        0 <= i < s.len(),
    ensures
        weighted_sum(s.subrange(0, i + 1)) == weighted_sum(s.subrange(0, i)) + byte_weight(i, s[i]),
{
    assert(s.subrange(0, i + 1).drop_last() =~= s.subrange(0, i));
}

/// The 16-bit running checksum of a frame, as the wire format defines it.
pub fn checksum_sum(buf: &[u8; MAX_PACKET_LENGTH]) -> (r: u16)
    ensures
        r as int == frame_sum(buf@),
{
    let mut sum: u16 = 0;
    let mut i: usize = 0;
    while i < MAX_PACKET_LENGTH
        invariant
            i <= MAX_PACKET_LENGTH,
            buf@.len() == MAX_PACKET_LENGTH,
            sum as int == weighted_sum(buf@.subrange(0, i as int)) % 0x10000,
        decreases MAX_PACKET_LENGTH - i,
    {
        let b: u8 = buf[i];
        let w: u16 = if i % 2 == 0 {
            b as u16
        } else {
            assert(((b as u16) << 8u16) == (b as u16) * 256) by (bit_vector);
            (b as u16) << 8
        };
        proof {
            lemma_weighted_sum_prefix(buf@, i as int);
            assert(w as int == byte_weight(i as int, b));
        }
        sum = sum.wrapping_add(w);
        i = i + 1;
    }
    assert(buf@.subrange(0, MAX_PACKET_LENGTH as int) =~= buf@);
    sum
}

/// The bit that a flag contributes before it is shifted into place.
pub open spec fn flag_bit(f: bool) -> u8 {
    if f {
        1
    } else {
        0
    }
}

/// The control byte: the eight flags from CWR at bit 7 down to FIN at bit 0.
pub open spec fn flags_byte(v: PacketView) -> u8 {
    (flag_bit(v.flag_congestion_window_reduced) << 7u8) | (flag_bit(
        v.flag_echo_explicit_congestion_notification,
    ) << 6u8) | (flag_bit(v.flag_urgent_pointer) << 5u8) | (flag_bit(v.flag_ack) << 4u8) | (
    flag_bit(v.flag_push) << 3u8) | (flag_bit(v.flag_reset) << 2u8) | (flag_bit(
        v.flag_sync_seq_numbers,
    ) << 1u8) | flag_bit(v.flag_finished)
}

/// `n` zero bytes.
pub open spec fn zeros(n: nat) -> Seq<u8> {
    Seq::new(n, |i: int| 0u8)
}

impl PacketView {
    /// Options and payload fit in one frame.
    pub open spec fn fits_frame(self) -> bool {
        self.options.len() + self.data.len() <= MAX_DATA_LENGTH
    }

    /// The header length field agrees with the options actually carried, so
    /// that decoding finds the payload where encoding put it.
    pub open spec fn offset_matches(self) -> bool {
        self.data_offset as int * 4 == HEADER_LENGTH + self.options.len()
    }
}

/// The fixed header with a zero checksum field.
pub open spec fn header_bytes(v: PacketView) -> Seq<u8> {
    le32_bytes(v.sequence_number) + le32_bytes(v.ack_number) + seq![v.data_offset, flags_byte(v)]
        + le16_bytes(v.window) + seq![0u8, 0u8] + le16_bytes(v.urgent_pointer)
}

/// The frame before its checksum is filled in: header, options, payload,
/// then zeros up to the fixed frame size.
pub open spec fn frame_body(v: PacketView) -> Seq<u8> {
    header_bytes(v) + v.options + v.data + zeros(
        (MAX_DATA_LENGTH - v.options.len() - v.data.len()) as nat,
    )
}

/// The encoded frame: the body with `0xFFFF` minus its running sum written
/// into the checksum field.
pub open spec fn encode_frame(v: PacketView) -> Seq<u8> {
    splice(frame_body(v), 12, le16_bytes((0xffff - frame_sum(frame_body(v))) as u16))
}

proof fn lemma_weighted_sum_update(s: Seq<u8>, i: int, b: u8)
    requires
        0 <= i < s.len(),
    ensures
        weighted_sum(s.update(i, b)) == weighted_sum(s) - byte_weight(i, s[i]) + byte_weight(i, b),
    decreases s.len(),
{
    let t = s.update(i, b);
    if i == s.len() - 1 {
        assert(t.drop_last() =~= s.drop_last());
    } else {
        assert(t.drop_last() =~= s.drop_last().update(i, b));
        lemma_weighted_sum_update(s.drop_last(), i, b);
    }
}

proof fn lemma_le16_value(c: u16)
    ensures
        (c as u8) as int + ((c >> 8u16) as u8) as int * 256 == c as int,
{
    let lo = c as u8;
    let hi = (c >> 8u16) as u8;
    assert((lo as u16) | ((hi as u16) << 8u16) == c) by (bit_vector)
        requires
            lo == c as u8,
            hi == (c >> 8u16) as u8,
    ;
    assert(((lo as u16) | ((hi as u16) << 8u16)) == (lo as u16) + (hi as u16) * 256) by (bit_vector);
}

/// Writing the complement of a body's sum into its zeroed checksum field
/// makes the whole frame sum to the sentinel.
proof fn lemma_checksum_completes(body: Seq<u8>)
    requires
        body.len() == MAX_PACKET_LENGTH,
        body[12] == 0,
        body[13] == 0,
    ensures
        frame_sum(splice(body, 12, le16_bytes((0xffff - frame_sum(body)) as u16))) == 0xffff,
{
    let c = (0xffff - frame_sum(body)) as u16;
    let f = splice(body, 12, le16_bytes(c));
    let mid = body.update(12, c as u8);
    assert(f =~= mid.update(13, (c >> 8u16) as u8));
    lemma_weighted_sum_update(body, 12, c as u8);
    lemma_weighted_sum_update(mid, 13, (c >> 8u16) as u8);
    lemma_le16_value(c);
    let s = weighted_sum(body);
    assert(weighted_sum(f) == s + c as int);
    assert(c as int == 0xffff - s % 0x10000);
    assert((s + 0xffff - s % 0x10000) % 0x10000 == 0xffff) by {
        let q = s / 0x10000;
        assert(s == q * 0x10000 + s % 0x10000);
        assert(s + 0xffff - s % 0x10000 == q * 0x10000 + 0xffff);
        vstd::arithmetic::div_mod::lemma_mod_multiples_vanish(q, 0xffff, 0x10000);
    }
}

fn flag_value(f: bool) -> (r: u8)
    ensures
        r == flag_bit(f),
{
    if f {
        1
    } else {
        0
    }
}

impl TcpPacket {
    /// The control byte of this packet.
    fn control_byte(&self) -> (r: u8)
        ensures
            r == flags_byte(self@),
    {
        (flag_value(self.flag_congestion_window_reduced) << 7u8) | (flag_value(
            self.flag_echo_explicit_congestion_notification,
        ) << 6u8) | (flag_value(self.flag_urgent_pointer) << 5u8) | (flag_value(self.flag_ack)
            << 4u8) | (flag_value(self.flag_push) << 3u8) | (flag_value(self.flag_reset) << 2u8)
            | (flag_value(self.flag_sync_seq_numbers) << 1u8) | flag_value(self.flag_finished)
    }

    /// A frame holding this packet's header with a zero checksum, and zeros
    /// everywhere after it.
    fn header_frame(&self) -> (buf: [u8; MAX_PACKET_LENGTH])
        ensures
            buf@ == header_bytes(self@) + zeros(MAX_DATA_LENGTH as nat),
    {
        let mut buf: [u8; MAX_PACKET_LENGTH] = [0u8; MAX_PACKET_LENGTH];
        assert(buf@ =~= zeros(MAX_PACKET_LENGTH as nat));
        let ghost h = header_bytes(self@);
        write_u32_le(&mut buf, 0, self.sequence_number);
        assert(forall|k: int| 4 <= k < MAX_PACKET_LENGTH ==> buf@[k] == 0);
        assert(forall|k: int| 0 <= k < 4 ==> buf@[k] == h[k]);
        write_u32_le(&mut buf, 4, self.ack_number);
        assert(forall|k: int| 8 <= k < MAX_PACKET_LENGTH ==> buf@[k] == 0);
        assert(forall|k: int| 0 <= k < 8 ==> buf@[k] == h[k]);
        buf[8] = self.data_offset;
        let control = self.control_byte();
        buf[9] = control;
        assert(forall|k: int| 0 <= k < 10 ==> buf@[k] == h[k]);
        write_u16_le(&mut buf, 10, self.window);
        assert(forall|k: int| 12 <= k < MAX_PACKET_LENGTH ==> buf@[k] == 0);
        assert(forall|k: int| 0 <= k < 12 ==> buf@[k] == h[k]);
        write_u16_le(&mut buf, 14, self.urgent_pointer);
        assert(forall|k: int| 16 <= k < MAX_PACKET_LENGTH ==> buf@[k] == 0);
        assert(forall|k: int| 0 <= k < 16 ==> buf@[k] == h[k]);
        assert(buf@ =~= h + zeros(MAX_DATA_LENGTH as nat));
        buf
    }

    /// Encodes the packet into one frame: header fields little-endian, the
    /// eight flags packed into one byte, options from byte 16 on, then the
    /// payload, zero padding, and the checksum that makes the frame sum to
    /// `0xFFFF`.
    pub fn to_buffer(self) -> (r: [u8; MAX_PACKET_LENGTH])
        requires
            self@.fits_frame(),
        ensures
            r@ == encode_frame(self@),
            frame_sum(r@) == 0xffff,
    {
        let ghost v = self@;
        let mut buf = self.header_frame();
        assert(buf@.subrange(0, 16) =~= header_bytes(v));
        let mut i: usize = HEADER_LENGTH;
        let mut j: usize = 0;
        while j < self.options.len()
            invariant
                v == self@,
                v.fits_frame(),
                buf@.len() == MAX_PACKET_LENGTH,
                i == HEADER_LENGTH + j,
                j <= v.options.len(),
                buf@.subrange(0, 16) == header_bytes(v),
                forall|k: int| 0 <= k < j ==> buf@[16 + k] == v.options[k],
                forall|k: int| i <= k < MAX_PACKET_LENGTH ==> buf@[k] == 0,
            decreases v.options.len() - j,
        {
            buf[i] = self.options[j];
            i = i + 1;
            j = j + 1;
        }
        let mut j: usize = 0;
        while j < self.data.len()
            invariant
                v == self@,
                v.fits_frame(),
                buf@.len() == MAX_PACKET_LENGTH,
                i == HEADER_LENGTH + v.options.len() + j,
                j <= v.data.len(),
                buf@.subrange(0, 16) == header_bytes(v),
                forall|k: int| 0 <= k < v.options.len() ==> buf@[16 + k] == v.options[k],
                forall|k: int|
                    0 <= k < j ==> buf@[16 + v.options.len() + k] == v.data[k],
                forall|k: int| i <= k < MAX_PACKET_LENGTH ==> buf@[k] == 0,
            decreases v.data.len() - j,
        {
            buf[i] = self.data[j];
            i = i + 1;
            j = j + 1;
        }
        assert forall|k: int| 0 <= k < MAX_PACKET_LENGTH implies buf@[k] == frame_body(v)[k] by {
            if k < 16 {
                assert(buf@[k] == buf@.subrange(0, 16)[k]);
            }
        }
        assert(buf@ =~= frame_body(v));
        let sum = checksum_sum(&buf);
        let checksum: u16 = CHECKSUM_SENTINEL - sum;
        write_u16_le(&mut buf, 12, checksum);
        proof {
            lemma_checksum_completes(frame_body(v));
        }
        buf
    }
}

/// Where the options end and the payload begins in a frame whose header
/// length field is `data_offset`.
pub open spec fn payload_start(data_offset: u8) -> int {
    if data_offset as int * 4 > HEADER_LENGTH {
        data_offset as int * 4
    } else {
        HEADER_LENGTH as int
    }
}

/// Whether bit `mask` is set in the control byte.
pub open spec fn flag_set(control: u8, mask: u8) -> bool {
    control & mask != 0
}

/// The packet that a frame holds: header fields little-endian, options up to
/// the header length, payload (with any padding) to the end of the frame.
pub open spec fn decode_frame(f: Seq<u8>) -> PacketView {
    PacketView {
        sequence_number: le32_at(f, 0),
        ack_number: le32_at(f, 4),
        data_offset: f[8],
        flag_congestion_window_reduced: flag_set(f[9], 0x80),
        flag_echo_explicit_congestion_notification: flag_set(f[9], 0x40),
        flag_urgent_pointer: flag_set(f[9], 0x20),
        flag_ack: flag_set(f[9], 0x10),
        flag_push: flag_set(f[9], 0x08),
        flag_reset: flag_set(f[9], 0x04),
        flag_sync_seq_numbers: flag_set(f[9], 0x02),
        flag_finished: flag_set(f[9], 0x01),
        window: le16_at(f, 10),
        urgent_pointer: le16_at(f, 14),
        options: f.subrange(HEADER_LENGTH as int, payload_start(f[8])),
        data: f.subrange(payload_start(f[8]), f.len() as int),
    }
}

impl PacketView {
    /// The same packet with its payload followed by the zeros that fill the
    /// rest of its frame.
    pub open spec fn padded(self) -> PacketView {
        PacketView {
            data: self.data + zeros((MAX_DATA_LENGTH - self.options.len() - self.data.len()) as nat),
            ..self
        }
    }
}

impl TcpPacket {
    /// Decodes a frame. Fails with `ChecksumMismatch` unless the running sum
    /// of all its bytes, checksum field included, is `0xFFFF`.
    pub fn from_buffer(buf: [u8; MAX_PACKET_LENGTH]) -> (r: Result<TcpPacket, ProtocolError>)
        ensures
            r is Ok <==> frame_sum(buf@) == 0xffff,
            r matches Ok(p) ==> p@ == decode_frame(buf@),
            r matches Err(e) ==> e == ProtocolError::ChecksumMismatch,
    {
        let sum = checksum_sum(&buf);
        if sum != CHECKSUM_SENTINEL {
            return Err(ProtocolError::ChecksumMismatch);
        }
        let data_offset = buf[8];
        let start: usize = if data_offset as usize * 4 > HEADER_LENGTH {
            data_offset as usize * 4
        } else {
            HEADER_LENGTH
        };
        let mut options: Vec<u8> = Vec::new();
        let mut i: usize = HEADER_LENGTH;
        while i < start
            invariant
                HEADER_LENGTH <= i <= start,
                start == payload_start(data_offset),
                start <= MAX_PACKET_LENGTH,
                buf@.len() == MAX_PACKET_LENGTH,
                options@ == buf@.subrange(HEADER_LENGTH as int, i as int),
            decreases start - i,
        {
            options.push(buf[i]);
            i = i + 1;
            assert(options@ =~= buf@.subrange(HEADER_LENGTH as int, i as int));
        }
        let mut data: Vec<u8> = Vec::new();
        while i < MAX_PACKET_LENGTH
            invariant
                start <= i <= MAX_PACKET_LENGTH,
                buf@.len() == MAX_PACKET_LENGTH,
                data@ == buf@.subrange(start as int, i as int),
            decreases MAX_PACKET_LENGTH - i,
        {
            data.push(buf[i]);
            i = i + 1;
            assert(data@ =~= buf@.subrange(start as int, i as int));
        }
        let control = buf[9];
        Ok(TcpPacket {
            sequence_number: read_u32_le(&buf, 0),
            ack_number: read_u32_le(&buf, 4),
            data_offset,
            flag_congestion_window_reduced: control & 0x80 != 0,
            flag_echo_explicit_congestion_notification: control & 0x40 != 0,
            flag_urgent_pointer: control & 0x20 != 0,
            flag_ack: control & 0x10 != 0,
            flag_push: control & 0x08 != 0,
            flag_reset: control & 0x04 != 0,
            flag_sync_seq_numbers: control & 0x02 != 0,
            flag_finished: control & 0x01 != 0,
            window: read_u16_le(&buf, 10),
            urgent_pointer: read_u16_le(&buf, 14),
            options,
            data,
        })
    }
}

proof fn lemma_le32_round_trip(v: u32)
    ensures
        le32_at(le32_bytes(v), 0) == v,
{
    let b = le32_bytes(v);
    assert(b[0] == v as u8 && b[1] == (v >> 8u32) as u8 && b[2] == (v >> 16u32) as u8 && b[3] == (v >> 24u32) as u8);
    assert(((v as u8) as u32) | ((((v >> 8u32) as u8) as u32) << 8u32) | ((((v >> 16u32) as u8) as u32) << 16u32)
        | ((((v >> 24u32) as u8) as u32) << 24u32) == v) by (bit_vector);
}

proof fn lemma_le16_round_trip(v: u16)
    ensures
        le16_at(le16_bytes(v), 0) == v,
{
    let b = le16_bytes(v);
    assert(b[0] == v as u8 && b[1] == (v >> 8u16) as u8);
    assert(((v as u8) as u16) | ((((v >> 8u16) as u8) as u16) << 8u16) == v) by (bit_vector);
}

proof fn lemma_flags_round_trip(v: PacketView)
    ensures
        flag_set(flags_byte(v), 0x80) == v.flag_congestion_window_reduced,
        flag_set(flags_byte(v), 0x40) == v.flag_echo_explicit_congestion_notification,
        flag_set(flags_byte(v), 0x20) == v.flag_urgent_pointer,
        flag_set(flags_byte(v), 0x10) == v.flag_ack,
        flag_set(flags_byte(v), 0x08) == v.flag_push,
        flag_set(flags_byte(v), 0x04) == v.flag_reset,
        flag_set(flags_byte(v), 0x02) == v.flag_sync_seq_numbers,
        flag_set(flags_byte(v), 0x01) == v.flag_finished,
{
    let a = flag_bit(v.flag_congestion_window_reduced);
    let b = flag_bit(v.flag_echo_explicit_congestion_notification);
    let c = flag_bit(v.flag_urgent_pointer);
    let d = flag_bit(v.flag_ack);
    let e = flag_bit(v.flag_push);
    let f = flag_bit(v.flag_reset);
    let g = flag_bit(v.flag_sync_seq_numbers);
    let h = flag_bit(v.flag_finished);
    let x = flags_byte(v);
    assert(x == (a << 7u8) | (b << 6u8) | (c << 5u8) | (d << 4u8) | (e << 3u8) | (f << 2u8) | (g << 1u8) | h);
    assert(
        (x & 0x80 != 0) == (a == 1) && (x & 0x40 != 0) == (b == 1) && (x & 0x20 != 0) == (c == 1)
            && (x & 0x10 != 0) == (d == 1) && (x & 0x08 != 0) == (e == 1) && (x & 0x04 != 0) == (f == 1)
            && (x & 0x02 != 0) == (g == 1) && (x & 0x01 != 0) == (h == 1)
    ) by (bit_vector)
        requires
            a <= 1 && b <= 1 && c <= 1 && d <= 1 && e <= 1 && f <= 1 && g <= 1 && h <= 1,
            x == (a << 7u8) | (b << 6u8) | (c << 5u8) | (d << 4u8) | (e << 3u8) | (f << 2u8) | (g << 1u8) | h,
    ;
}

/// Round trip: a packet whose options and payload fit one frame, and whose
/// header length field counts its options, decodes from its own encoding to
/// itself, the payload followed by the frame's zero padding; the encoding
/// passes the checksum test.
pub proof fn lemma_decode_encode(v: PacketView)
    requires
        v.fits_frame(),
        v.offset_matches(),
    ensures
        frame_sum(encode_frame(v)) == 0xffff,
        decode_frame(encode_frame(v)) == v.padded(),
{
    let body = frame_body(v);
    let f = encode_frame(v);
    let h = header_bytes(v);
    assert(body.len() == MAX_PACKET_LENGTH);
    assert(body[12] == 0 && body[13] == 0);
    lemma_checksum_completes(body);
    assert forall|k: int| 0 <= k < MAX_PACKET_LENGTH && k != 12 && k != 13 implies f[k] == body[k] by {}
    assert(f.subrange(0, 4) =~= le32_bytes(v.sequence_number));
    assert(f.subrange(4, 8) =~= le32_bytes(v.ack_number));
    assert(f.subrange(10, 12) =~= le16_bytes(v.window));
    assert(f.subrange(14, 16) =~= le16_bytes(v.urgent_pointer));
    lemma_le32_round_trip(v.sequence_number);
    lemma_le32_round_trip(v.ack_number);
    lemma_le16_round_trip(v.window);
    lemma_le16_round_trip(v.urgent_pointer);
    assert(le32_at(f, 0) == le32_at(f.subrange(0, 4), 0));
    assert(le32_at(f, 4) == le32_at(f.subrange(4, 8), 0));
    assert(le16_at(f, 10) == le16_at(f.subrange(10, 12), 0));
    assert(le16_at(f, 14) == le16_at(f.subrange(14, 16), 0));
    assert(f[8] == v.data_offset);
    assert(f[9] == flags_byte(v));
    lemma_flags_round_trip(v);
    assert(payload_start(f[8]) == HEADER_LENGTH + v.options.len());
    let d = decode_frame(f);
    assert(d.options =~= v.options);
    assert(d.data =~= v.padded().data);
}

/// A single flipped bit anywhere in a correctly checksummed frame always
/// makes it fail the checksum test: the flip moves the running sum by a
/// power of two below `2^16`, which is never a multiple of `2^16`.
pub proof fn lemma_bit_flip_detected(f: Seq<u8>, i: int, bit: u8)
    requires
        f.len() == MAX_PACKET_LENGTH,
        frame_sum(f) == 0xffff,
        0 <= i < f.len(),
        bit < 8,
    ensures
        frame_sum(f.update(i, f[i] ^ (1u8 << bit))) != 0xffff,
{
    let b = f[i];
    let nb = b ^ (1u8 << bit);
    lemma_weighted_sum_update(f, i, nb);
    assert(nb as int - b as int == (1u8 << bit) as int || b as int - nb as int == (1u8 << bit) as int)
        by (bit_vector)
        requires nb == b ^ (1u8 << bit), bit < 8;
    assert(1 <= (1u8 << bit) <= 128) by (bit_vector) requires bit < 8;
    let delta = byte_weight(i, nb) - byte_weight(i, b);
    assert(delta != 0 && -0x10000 < delta < 0x10000);
    let s = weighted_sum(f);
    assert((s + delta) % 0x10000 != s % 0x10000) by {
        if (s + delta) % 0x10000 == s % 0x10000 {
            vstd::arithmetic::div_mod::lemma_fundamental_div_mod(s, 0x10000);
            vstd::arithmetic::div_mod::lemma_fundamental_div_mod(s + delta, 0x10000);
            let q1 = s / 0x10000;
            let q2 = (s + delta) / 0x10000;
            assert(delta == (q2 - q1) * 0x10000);
            if q2 - q1 >= 1 {
                assert((q2 - q1) * 0x10000 >= 0x10000) by (nonlinear_arith) requires q2 - q1 >= 1;
            } else if q2 - q1 <= -1 {
                assert((q2 - q1) * 0x10000 <= -0x10000) by (nonlinear_arith) requires q2 - q1 <= -1;
            }
        }
    }
}

/// The sequence number `n` places after `base`, wrapping at `2^32`.
pub open spec fn seq_offset(base: u32, n: int) -> u32 {
    ((base as int + n) % 0x1_0000_0000) as u32
}

/// How many places `a` lies after `base`, wrapping at `2^32`.
pub open spec fn seq_distance(a: u32, base: u32) -> int {
    (a as int - base as int) % 0x1_0000_0000
}

impl PacketView {
    /// The acknowledgment of this packet: `ack_number` one past its sequence
    /// number, ACK set, SYN cleared, payload dropped.
    pub open spec fn ack_of(self) -> PacketView {
        PacketView {
            ack_number: seq_offset(self.sequence_number, 1),
            flag_ack: true,
            flag_sync_seq_numbers: false,
            data: Seq::empty(),
            ..self
        }
    }

    /// The SYN-ACK answering this SYN: ACK set, `ack_number` one past the
    /// SYN's sequence number, and the responder's own `sequence_number`.
    pub open spec fn syn_ack_of(self, sequence_number: u32) -> PacketView {
        PacketView {
            ack_number: seq_offset(self.sequence_number, 1),
            flag_ack: true,
            sequence_number,
            ..self
        }
    }
}

/// A packet with every flag clear, the standard header length, the window
/// advertised by this protocol, no options and no payload.
pub open spec fn blank_packet(sequence_number: u32) -> PacketView {
    PacketView {
        sequence_number,
        ack_number: 0,
        data_offset: 4,
        flag_congestion_window_reduced: false,
        flag_echo_explicit_congestion_notification: false,
        flag_urgent_pointer: false,
        flag_ack: false,
        flag_push: false,
        flag_reset: false,
        flag_sync_seq_numbers: false,
        flag_finished: false,
        window: TCP_WINDOW_LENGTH,
        urgent_pointer: 0,
        options: Seq::empty(),
        data: Seq::empty(),
    }
}

/// The SYN that opens a handshake.
pub open spec fn syn_view(sequence_number: u32) -> PacketView {
    PacketView { flag_sync_seq_numbers: true, ..blank_packet(sequence_number) }
}

/// The number of chunks of at most `MAX_DATA_LENGTH` bytes that `n` bytes make.
pub open spec fn chunk_count(n: nat) -> nat {
    if n == 0 {
        0
    } else {
        ((n - 1) as nat / MAX_DATA_LENGTH as nat + 1) as nat
    }
}

/// Chunk `i` of message `m`: bytes `i * MAX_DATA_LENGTH` up to the next
/// multiple or the end.
pub open spec fn chunk(m: Seq<u8>, i: int) -> Seq<u8> {
    let start = i * MAX_DATA_LENGTH;
    let end = if (i + 1) * MAX_DATA_LENGTH < m.len() {
        (i + 1) * MAX_DATA_LENGTH
    } else {
        m.len() as int
    };
    m.subrange(start, end)
}

/// Packet `i` of message `m` sent from base sequence number `base`: chunk
/// `i` as payload, sequence number `base + i`, FIN on the last one only.
pub open spec fn message_packet(m: Seq<u8>, base: u32, i: int) -> PacketView {
    PacketView {
        data: chunk(m, i),
        flag_finished: i == chunk_count(m.len()) - 1,
        ..blank_packet(seq_offset(base, i))
    }
}

/// The bytes of a string, in UTF-8.
pub open spec fn message_bytes(message: &String) -> Seq<u8> {
    encode_utf8(message@)
}

impl TcpPacket {
    /// The acknowledgment of this packet, a new packet (see `ack_of`).
    pub fn create_ack(self) -> (r: TcpPacket)
        ensures
            r@ == self@.ack_of(),
    {
        TcpPacket {
            ack_number: self.sequence_number.wrapping_add(1),
            flag_ack: true,
            flag_sync_seq_numbers: false,
            data: Vec::new(),
            ..self
        }
    }

    /// The SYN-ACK answering this SYN with the responder's sequence number
    /// `sequence_number`.
    pub fn syn_ack_reply(self, sequence_number: u32) -> (r: TcpPacket)
        ensures
            r@ == self@.syn_ack_of(sequence_number),
    {
        TcpPacket {
            ack_number: self.sequence_number.wrapping_add(1),
            flag_ack: true,
            sequence_number,
            ..self
        }
    }

    /// The SYN-ACK answering this SYN, with a random sequence number for the
    /// responder.
    pub fn create_syn_ack(self) -> (r: TcpPacket)
        ensures
            r@ == self@.syn_ack_of(r.sequence_number),
    {
        let sequence_number = random_u32();
        self.syn_ack_reply(sequence_number)
    }
}

/// The SYN that opens a handshake from sequence number `sequence_number`.
pub fn syn_packet(sequence_number: u32) -> (r: TcpPacket)
    ensures
        r@ == syn_view(sequence_number),
{
    let r = TcpPacket {
        sequence_number,
        ack_number: 0,
        data_offset: 4,
        flag_congestion_window_reduced: false,
        flag_echo_explicit_congestion_notification: false,
        flag_urgent_pointer: false,
        flag_ack: false,
        flag_push: false,
        flag_reset: false,
        flag_sync_seq_numbers: true,
        flag_finished: false,
        window: TCP_WINDOW_LENGTH,
        urgent_pointer: 0,
        options: Vec::new(),
        data: Vec::new(),
    };
    assert(r@.options =~= Seq::<u8>::empty() && r@.data =~= Seq::<u8>::empty());
    r
}

/// The SYN that opens a handshake, from a random initial sequence number.
pub fn create_syn_packet() -> (r: TcpPacket)
    ensures
        r@ == syn_view(r.sequence_number),
{
    let sequence_number = random_u32();
    syn_packet(sequence_number)
}

proof fn lemma_chunk_count(n: int, i: int)
    requires
        n > 0,
        i >= 1,
        (i - 1) * MAX_DATA_LENGTH < n <= i * MAX_DATA_LENGTH,
    ensures
        chunk_count(n as nat) == i,
{
    assert((n - 1) / 1380 == i - 1) by (nonlinear_arith)
        requires
            (i - 1) * 1380 <= n - 1 < i * 1380,
            i >= 1,
    {
        vstd::arithmetic::div_mod::lemma_div_is_ordered((i - 1) * 1380, n - 1, 1380);
        vstd::arithmetic::div_mod::lemma_div_multiples_vanish(i - 1, 1380);
        vstd::arithmetic::div_mod::lemma_fundamental_div_mod(n - 1, 1380);
    }
}

/// Splits a non-empty message into data packets of at most
/// `MAX_DATA_LENGTH` payload bytes each, numbered from `seq_num` on
/// (wrapping), the last one marked with FIN.
pub fn string_to_packets(message: String, seq_num: u32) -> (r: Vec<TcpPacket>)
    requires
        message_bytes(&message).len() > 0,
    ensures
        r@.len() == chunk_count(message_bytes(&message).len()),
        forall|i: int| 0 <= i < r@.len() ==> #[trigger] r@[i]@ == message_packet(message_bytes(&message), seq_num, i),
{
    let ghost m = message_bytes(&message);
    let bytes: &[u8] = message.as_str().as_bytes();
    assert(bytes@ == m);
    let n = bytes.len();
    let mut packets: Vec<TcpPacket> = Vec::new();
    let mut start: usize = 0;
    let mut i: usize = 0;
    let mut sequence_number: u32 = seq_num;
    while start < n
        invariant
            bytes@ == m,
            n == m.len(),
            n > 0,
            start <= n,
            start < n ==> start == i * MAX_DATA_LENGTH,
            start == n ==> i * MAX_DATA_LENGTH >= n,
            i > 0 || start == 0,
            i > 0 ==> (i - 1) * MAX_DATA_LENGTH < n,
            sequence_number == seq_offset(seq_num, i as int),
            packets@.len() == i,
            forall|k: int| 0 <= k < i ==> #[trigger] packets@[k]@ == message_packet(m, seq_num, k),
        decreases n - start,
    {
        let end: usize = if n - start > MAX_DATA_LENGTH {
            start + MAX_DATA_LENGTH
        } else {
            n
        };
        let data = vstd::slice::slice_to_vec(vstd::slice::slice_subrange(bytes, start, end));
        let packet = TcpPacket {
            sequence_number,
            ack_number: 0,
            data_offset: 4,
            flag_congestion_window_reduced: false,
            flag_echo_explicit_congestion_notification: false,
            flag_urgent_pointer: false,
            flag_ack: false,
            flag_push: false,
            flag_reset: false,
            flag_sync_seq_numbers: false,
            flag_finished: end == n,
            window: TCP_WINDOW_LENGTH,
            urgent_pointer: 0,
            options: Vec::new(),
            data,
        };
        proof {
            if end == n {
                lemma_chunk_count(n as int, i + 1);
            } else {
                assert(chunk_count(n as nat) > i + 1) by {
                    let c = chunk_count(n as nat) as int;
                    if c <= i + 1 {
                        assert((n - 1) as int / 1380 <= i);
                        vstd::arithmetic::div_mod::lemma_fundamental_div_mod(n as int - 1, 1380);
                        assert(((n - 1) as int / 1380) * 1380 <= i * 1380) by (nonlinear_arith)
                            requires (n - 1) as int / 1380 <= i;
                    }
                }
            }
            assert(packet@.options =~= Seq::<u8>::empty());
            assert(packet@ =~= message_packet(m, seq_num, i as int));
        }
        packets.push(packet);
        start = end;
        i = i + 1;
        sequence_number = sequence_number.wrapping_add(1);
    }
    proof {
        lemma_chunk_count(n as int, i as int);
    }
    packets
}

} // verus!
