use reliable_udp::error::ProtocolError;
use reliable_udp::packet::{string_to_packets, syn_packet, TcpPacket};
use reliable_udp::sender::{
    backoff, retry_deadline_with, PacketStatus, SendState, MAX_RETRIES, SECOND,
};

fn message_of(len: usize) -> String {
    std::iter::repeat('m').take(len).collect()
}

fn ack_frame(sequence_number: u32) -> [u8; reliable_udp::packet::MAX_PACKET_LENGTH] {
    syn_packet(sequence_number).create_ack().to_buffer()
}

#[test]
fn sender_completes_after_three_acks() {
    let packets = string_to_packets(message_of(3000), 100);
    let mut state = SendState::new(&packets);
    assert_eq!(state.len(), 3);
    assert!(!state.is_complete());
    assert_eq!(state.drive(0).unwrap(), vec![0, 1, 2]);
    for p in &packets {
        assert!(!state.is_complete());
        state.on_ack(p.sequence_number.wrapping_add(1));
    }
    assert!(state.is_complete());
    assert_eq!(state.window_start(), 3);
}

#[test]
fn acks_arriving_as_frames_complete_the_transfer() {
    let packets = string_to_packets(message_of(3000), 100);
    let mut state = SendState::new(&packets);
    state.drive(0).unwrap();
    state.on_datagram(ack_frame(102));
    state.on_datagram(ack_frame(100));
    assert_eq!(state.window_start(), 1);
    state.on_datagram(ack_frame(101));
    assert!(state.is_complete());
}

#[test]
fn frame_without_ack_flag_changes_nothing() {
    let packets = string_to_packets(message_of(10), 7);
    let mut state = SendState::new(&packets);
    state.drive(0).unwrap();
    let mut not_ack = syn_packet(7);
    not_ack.ack_number = 8;
    state.on_datagram(not_ack.to_buffer());
    assert_eq!(state.status(0) == PacketStatus::Acknowledged, false);
    let mut corrupted = ack_frame(7);
    corrupted[3] ^= 0x10;
    state.on_datagram(corrupted);
    assert!(!state.is_complete());
    state.on_datagram(ack_frame(7));
    assert!(state.is_complete());
}

#[test]
fn window_never_moves_back_and_tracks_first_unacked() {
    let packets = string_to_packets(message_of(5 * 1380), 1000);
    let mut state = SendState::new(&packets);
    let acks = [1003u32, 1001, 1001, 1005, 1002, 1003, 9999, 1004, 1002];
    let expected_start = [0usize, 1, 1, 1, 3, 3, 3, 5, 5];
    let mut last = 0;
    for (ack, expected) in acks.iter().zip(expected_start.iter()) {
        state.on_ack(*ack);
        assert!(state.window_start() >= last);
        assert_eq!(state.window_start(), *expected);
        last = state.window_start();
        for i in 0..state.window_start() {
            assert_eq!(state.status(i), PacketStatus::Acknowledged);
        }
        if state.window_start() < state.len() {
            assert_ne!(state.status(state.window_start()), PacketStatus::Acknowledged);
        }
    }
    assert!(state.is_complete());
}

#[test]
fn repeated_ack_changes_nothing() {
    let packets = string_to_packets(message_of(4 * 1380), 50);
    let mut state = SendState::new(&packets);
    state.drive(0).unwrap();
    state.on_ack(52);
    let statuses: Vec<PacketStatus> = (0..state.len()).map(|i| state.status(i)).collect();
    let start = state.window_start();
    state.on_ack(52);
    let again: Vec<PacketStatus> = (0..state.len()).map(|i| state.status(i)).collect();
    assert_eq!(statuses, again);
    assert_eq!(start, state.window_start());
    assert_eq!(state.status(1), PacketStatus::Acknowledged);
}

#[test]
fn window_holds_at_most_ten_packets() {
    let packets = string_to_packets(message_of(12 * 1380), 0);
    let mut state = SendState::new(&packets);
    assert_eq!(state.window_end(), 10);
    assert_eq!(state.drive(0).unwrap(), (0..10).collect::<Vec<usize>>());
    assert_eq!(state.status(10), PacketStatus::Unsent);
    state.on_ack(1);
    assert_eq!(state.window_end(), 11);
    assert_eq!(state.drive(0).unwrap(), vec![10]);
}

#[test]
fn dropped_packet_is_resent_after_backoff() {
    let packets = string_to_packets(message_of(3000), 0);
    let mut state = SendState::new(&packets);
    assert_eq!(state.drive(0).unwrap(), vec![0, 1, 2]);
    state.on_ack(1);
    state.on_ack(3);
    // nothing is due before the first deadline, at least one second later
    assert!(state.drive(SECOND / 2).unwrap().is_empty());
    match state.status(1) {
        PacketStatus::Sent { retry_time, retry_count } => {
            assert_eq!(retry_count, 1);
            assert!(retry_time >= SECOND && retry_time < 2 * SECOND);
        }
        other => panic!("unexpected status {:?}", other),
    }
    assert_eq!(state.drive(2 * SECOND).unwrap(), vec![1]);
    match state.status(1) {
        PacketStatus::Sent { retry_time, retry_count } => {
            assert_eq!(retry_count, 2);
            assert!(retry_time >= 4 * SECOND && retry_time < 5 * SECOND);
        }
        other => panic!("unexpected status {:?}", other),
    }
    state.on_ack(2);
    assert!(state.is_complete());
}

#[test]
fn retries_run_out_after_five_sends() {
    let packets = string_to_packets(message_of(10), 0);
    let mut state = SendState::new(&packets);
    let mut now = 0u64;
    for _ in 0..MAX_RETRIES {
        assert_eq!(state.drive(now).unwrap(), vec![0]);
        now += 10 * SECOND;
    }
    assert_eq!(state.drive(now), Err(ProtocolError::RetriesExceeded));
    match state.status(0) {
        PacketStatus::Sent { retry_count, .. } => assert_eq!(retry_count, MAX_RETRIES),
        other => panic!("unexpected status {:?}", other),
    }
}

#[test]
fn sustained_timeouts_make_peer_unreachable() {
    let packets = string_to_packets(message_of(10), 0);
    let mut state = SendState::new(&packets);
    assert_eq!(state.on_timeout(), Ok(()));
    assert_eq!(state.on_timeout(), Ok(()));
    state.on_datagram([0u8; reliable_udp::packet::MAX_PACKET_LENGTH]);
    assert_eq!(state.on_timeout(), Ok(()));
    assert_eq!(state.on_timeout(), Ok(()));
    assert_eq!(state.on_timeout(), Ok(()));
    assert_eq!(state.on_timeout(), Err(ProtocolError::PeerUnreachable));
}

#[test]
fn retry_deadline_is_linear_plus_jitter() {
    assert_eq!(retry_deadline_with(10, 2, 5), 2 * SECOND + 15);
    assert_eq!(retry_deadline_with(0, 1, 0), SECOND);
    assert_eq!(retry_deadline_with(u64::MAX - 3, 1, 0), u64::MAX);
    let t = backoff(1000, 3);
    assert!(t >= 1000 + 3 * SECOND && t < 1000 + 4 * SECOND);
}

#[test]
fn empty_transfer_is_complete() {
    let packets: Vec<TcpPacket> = Vec::new();
    let mut state = SendState::new(&packets);
    assert!(state.is_complete());
    assert!(state.drive(0).unwrap().is_empty());
}
