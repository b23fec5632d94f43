use reliable_udp::error::ProtocolError;
use reliable_udp::handshake::{Initiator, Responder};
use reliable_udp::packet::{syn_packet, TcpPacket, MAX_PACKET_LENGTH};
use reliable_udp::sender::MAX_RETRIES;

#[test]
fn lost_syns_end_in_retries_exceeded() {
    let mut initiator = Initiator::new(123);
    for _ in 0..MAX_RETRIES {
        let frame = initiator.next_syn().unwrap();
        let syn = TcpPacket::from_buffer(frame).unwrap();
        assert!(syn.flag_sync_seq_numbers);
        assert_eq!(syn.sequence_number, 123);
        // the SYN is lost: nothing comes back
        assert!(initiator.on_reply([0u8; MAX_PACKET_LENGTH]).is_none());
    }
    assert_eq!(initiator.next_syn(), Err(ProtocolError::RetriesExceeded));
}

#[test]
fn three_way_handshake_agrees_on_base() {
    let mut initiator = Initiator::new(u32::MAX);
    let syn = initiator.next_syn().unwrap();
    let mut responder = Responder::accept_with(syn, 5000).unwrap();
    let syn_ack = responder.next_syn_ack().unwrap();
    let decoded = TcpPacket::from_buffer(syn_ack).unwrap();
    assert_eq!(decoded.ack_number, 0);
    assert_eq!(decoded.sequence_number, 5000);
    assert!(decoded.flag_ack && decoded.flag_sync_seq_numbers);
    let (base, ack) = initiator.on_reply(syn_ack).unwrap();
    assert_eq!(base, 5000);
    assert_eq!(TcpPacket::from_buffer(ack).unwrap().ack_number, 5001);
    assert_eq!(responder.on_ack(ack), Some(5000));
}

#[test]
fn random_responder_answers_syn() {
    let syn = syn_packet(9).to_buffer();
    let responder = Responder::accept(syn).unwrap();
    let mut responder = responder;
    let reply = TcpPacket::from_buffer(responder.next_syn_ack().unwrap()).unwrap();
    assert_eq!(reply.ack_number, 10);
    assert_eq!(reply.sequence_number, responder.sequence_number());
}

#[test]
fn reply_with_wrong_ack_is_ignored() {
    let initiator = Initiator::new(10);
    let mut reply = syn_packet(99).syn_ack_reply(99);
    reply.ack_number = 12;
    assert!(initiator.on_reply(reply.to_buffer()).is_none());
    let mut corrupted = syn_packet(10).syn_ack_reply(99).to_buffer();
    corrupted[0] ^= 0x80;
    assert!(initiator.on_reply(corrupted).is_none());
    assert_eq!(initiator.on_reply(syn_packet(10).syn_ack_reply(99).to_buffer()).map(|r| r.0), Some(99));
}

#[test]
fn responder_rejects_non_syn_and_corruption() {
    let mut not_syn = syn_packet(1);
    not_syn.flag_sync_seq_numbers = false;
    assert_eq!(
        Responder::accept_with(not_syn.to_buffer(), 3).err(),
        Some(ProtocolError::MalformedHandshake)
    );
    assert_eq!(
        Responder::accept_with([0u8; MAX_PACKET_LENGTH], 3).err(),
        Some(ProtocolError::ChecksumMismatch)
    );
}

#[test]
fn responder_resends_syn_ack_a_bounded_number_of_times() {
    let mut responder = Responder::accept_with(syn_packet(1).to_buffer(), 70).unwrap();
    let first = responder.next_syn_ack().unwrap();
    assert_eq!(responder.on_ack(syn_packet(0).create_ack().to_buffer()), None);
    for _ in 1..MAX_RETRIES {
        assert_eq!(responder.next_syn_ack().unwrap(), first);
    }
    assert_eq!(responder.next_syn_ack(), Err(ProtocolError::RetriesExceeded));
    assert_eq!(responder.on_ack(syn_packet(70).create_ack().to_buffer()), Some(70));
}
