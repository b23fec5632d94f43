//! The three-way handshake (SYN, SYN-ACK, ACK) that fixes the sequence
//! number from which a transfer's data packets are numbered.
//!
//! Both sides are state machines: the caller sends the frames they hand out,
//! and hands back what arrives.
use vstd::prelude::*;

use crate::error::ProtocolError;
use crate::packet::{
    decode_frame, encode_frame, frame_sum, seq_offset, syn_packet, syn_view, TcpPacket,
    MAX_PACKET_LENGTH,
};
use crate::random::random_u32;
use crate::sender::MAX_RETRIES;

verus! {

/// The initiating side, from the SYN it sends until a matching SYN-ACK.
pub struct Initiator {
    syn_sequence: u32,
    attempts: u32,
}

impl Initiator {
    /// An initiator whose SYN carries `syn_sequence`.
    pub fn new(syn_sequence: u32) -> (r: Initiator)
        ensures
            r.syn_sequence() == syn_sequence,
            r.attempts() == 0,
    {
        Initiator { syn_sequence, attempts: 0 }
    }

    /// An initiator with a random initial sequence number.
    pub fn start() -> (r: Initiator)
        ensures
            r.attempts() == 0,
    {
        Initiator::new(random_u32())
    }

    /// The sequence number of this side's SYN.
    pub closed spec fn syn_sequence(&self) -> u32 {
        self.syn_sequence
    }

    /// How many times the SYN has been handed out.
    pub closed spec fn attempts(&self) -> nat {
        self.attempts as nat
    }

    /// The sequence number of this side's SYN.
    pub fn sequence_number(&self) -> (r: u32)
        ensures
            r == self.syn_sequence(),
    {
        self.syn_sequence
    }

    /// The SYN frame to send now. Fails with `RetriesExceeded`, changing
    /// nothing, once it has been handed out `MAX_RETRIES` times.
    pub fn next_syn(&mut self) -> (r: Result<[u8; MAX_PACKET_LENGTH], ProtocolError>)
        ensures
            final(self).syn_sequence() == old(self).syn_sequence(),
            r is Err <==> old(self).attempts() >= MAX_RETRIES,
            r matches Err(e) ==> e == ProtocolError::RetriesExceeded && final(self).attempts() == old(self).attempts(),
            r matches Ok(f) ==> f@ == encode_frame(syn_view(old(self).syn_sequence())) && final(self).attempts()
                == old(self).attempts() + 1,
    {
        if self.attempts >= MAX_RETRIES {
            return Err(ProtocolError::RetriesExceeded);
        }
        self.attempts = self.attempts + 1;
        let syn = syn_packet(self.syn_sequence);
        Ok(syn.to_buffer())
    }

    /// Examines a reply. A frame that passes the checksum and acknowledges
    /// this side's SYN (`ack_number` one past it) establishes the
    /// connection: the result is the peer's sequence number, the base for
    /// data packets, and the ACK frame to send back. Anything else is `None`.
    pub fn on_reply(&self, buf: [u8; MAX_PACKET_LENGTH]) -> (r: Option<(u32, [u8; MAX_PACKET_LENGTH])>)
        ensures
            r is Some <==> frame_sum(buf@) == 0xffff && decode_frame(buf@).ack_number == seq_offset(
                self.syn_sequence(),
                1,
            ),
            r matches Some((base, f)) ==> base == decode_frame(buf@).sequence_number && f@ == encode_frame(
                decode_frame(buf@).ack_of(),
            ),
    {
        match TcpPacket::from_buffer(buf) {
            Ok(reply) => {
                if reply.ack_number == self.syn_sequence.wrapping_add(1) {
                    let base = reply.sequence_number;
                    proof {
                        lemma_decoded_fits(buf@);
                    }
                    let ack = reply.create_ack();
                    Some((base, ack.to_buffer()))
                } else {
                    None
                }
            },
            Err(_) => None,
        }
    }
}

/// Whatever a frame decodes to fits in a frame again, and so do the
/// replies derived from it.
proof fn lemma_decoded_fits(f: Seq<u8>)
    requires
        f.len() == MAX_PACKET_LENGTH,
    ensures
        decode_frame(f).fits_frame(),
        decode_frame(f).ack_of().fits_frame(),
        forall|s: u32| #[trigger] decode_frame(f).syn_ack_of(s).fits_frame(),
{
}

/// The responding side, from the SYN-ACK it sends until the matching ACK.
pub struct Responder {
    own_sequence: u32,
    syn_ack: [u8; MAX_PACKET_LENGTH],
    attempts: u32,
}

impl Responder {
    /// This side's sequence number, the base for the data packets.
    pub closed spec fn own_sequence(&self) -> u32 {
        self.own_sequence
    }

    /// The SYN-ACK frame that this side answers with.
    pub closed spec fn syn_ack_frame(&self) -> Seq<u8> {
        self.syn_ack@
    }

    /// How many times the SYN-ACK has been handed out.
    pub closed spec fn attempts(&self) -> nat {
        self.attempts as nat
    }

    /// Answers an opening frame with sequence number `own_sequence`. Fails
    /// with `ChecksumMismatch` on a corrupted frame and with
    /// `MalformedHandshake` on one without SYN; otherwise the SYN-ACK
    /// answers the SYN.
    pub fn accept_with(buf: [u8; MAX_PACKET_LENGTH], own_sequence: u32) -> (r: Result<Responder, ProtocolError>)
        ensures
            r matches Err(e) ==> if frame_sum(buf@) != 0xffff {
                e == ProtocolError::ChecksumMismatch
            } else {
                e == ProtocolError::MalformedHandshake
            },
            r is Ok <==> frame_sum(buf@) == 0xffff && decode_frame(buf@).flag_sync_seq_numbers,
            r matches Ok(s) ==> s.own_sequence() == own_sequence && s.attempts() == 0 && s.syn_ack_frame()
                == encode_frame(decode_frame(buf@).syn_ack_of(own_sequence)),
    {
        let syn = match TcpPacket::from_buffer(buf) {
            Ok(p) => p,
            Err(e) => {
                return Err(e);
            },
        };
        if !syn.flag_sync_seq_numbers {
            return Err(ProtocolError::MalformedHandshake);
        }
        proof {
            lemma_decoded_fits(buf@);
        }
        let reply = syn.syn_ack_reply(own_sequence);
        Ok(Responder { own_sequence, syn_ack: reply.to_buffer(), attempts: 0 })
    }

    /// Answers an opening frame as `accept_with` does, with a random
    /// sequence number for this side.
    pub fn accept(buf: [u8; MAX_PACKET_LENGTH]) -> (r: Result<Responder, ProtocolError>)
        ensures
            r matches Err(e) ==> if frame_sum(buf@) != 0xffff {
                e == ProtocolError::ChecksumMismatch
            } else {
                e == ProtocolError::MalformedHandshake
            },
            r is Ok <==> frame_sum(buf@) == 0xffff && decode_frame(buf@).flag_sync_seq_numbers,
            r matches Ok(s) ==> s.attempts() == 0 && s.syn_ack_frame() == encode_frame(
                decode_frame(buf@).syn_ack_of(s.own_sequence()),
            ),
    {
        Responder::accept_with(buf, random_u32())
    }

    /// This side's sequence number.
    pub fn sequence_number(&self) -> (r: u32)
        ensures
            r == self.own_sequence(),
    {
        self.own_sequence
    }

    /// The SYN-ACK frame to send now. Fails with `RetriesExceeded`,
    /// changing nothing, once it has been handed out `MAX_RETRIES` times.
    pub fn next_syn_ack(&mut self) -> (r: Result<[u8; MAX_PACKET_LENGTH], ProtocolError>)
        ensures
            final(self).own_sequence() == old(self).own_sequence(),
            final(self).syn_ack_frame() == old(self).syn_ack_frame(),
            r is Err <==> old(self).attempts() >= MAX_RETRIES,
            r matches Err(e) ==> e == ProtocolError::RetriesExceeded && final(self).attempts() == old(self).attempts(),
            r matches Ok(f) ==> f@ == old(self).syn_ack_frame() && final(self).attempts() == old(self).attempts() + 1,
    {
        if self.attempts >= MAX_RETRIES {
            return Err(ProtocolError::RetriesExceeded);
        }
        self.attempts = self.attempts + 1;
        Ok(self.syn_ack)
    }

    /// Examines a reply: a frame that passes the checksum and whose
    /// `ack_number` is one past this side's sequence number establishes the
    /// connection, and the result is this side's sequence number.
    pub fn on_ack(&self, buf: [u8; MAX_PACKET_LENGTH]) -> (r: Option<u32>)
        ensures
            r is Some <==> frame_sum(buf@) == 0xffff && decode_frame(buf@).ack_number == seq_offset(
                self.own_sequence(),
                1,
            ),
            r matches Some(base) ==> base == self.own_sequence(),
    {
        match TcpPacket::from_buffer(buf) {
            Ok(reply) => {
                if reply.ack_number == self.own_sequence.wrapping_add(1) {
                    Some(self.own_sequence)
                } else {
                    None
                }
            },
            Err(_) => None,
        }
    }
}

} // verus!
