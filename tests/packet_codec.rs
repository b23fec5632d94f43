use reliable_udp::error::ProtocolError;
use reliable_udp::packet::{
    checksum_sum, create_syn_packet, string_to_packets, syn_packet, TcpPacket, MAX_DATA_LENGTH,
    MAX_PACKET_LENGTH, TCP_WINDOW_LENGTH,
};

fn sample_packet() -> TcpPacket {
    TcpPacket {
        sequence_number: 0x0403_0201,
        ack_number: 0xdead_beef,
        data_offset: 5,
        flag_congestion_window_reduced: true,
        flag_echo_explicit_congestion_notification: false,
        flag_urgent_pointer: true,
        flag_ack: true,
        flag_push: false,
        flag_reset: true,
        flag_sync_seq_numbers: false,
        flag_finished: true,
        window: 0x1234,
        urgent_pointer: 0xabcd,
        options: vec![9, 8, 7, 6],
        data: b"hello".to_vec(),
    }
}

#[test]
fn round_trip_preserves_every_field() {
    let frame = sample_packet().to_buffer();
    let p = TcpPacket::from_buffer(frame).unwrap();
    assert_eq!(p.sequence_number, 0x0403_0201);
    assert_eq!(p.ack_number, 0xdead_beef);
    assert_eq!(p.data_offset, 5);
    assert!(p.flag_congestion_window_reduced);
    assert!(!p.flag_echo_explicit_congestion_notification);
    assert!(p.flag_urgent_pointer);
    assert!(p.flag_ack);
    assert!(!p.flag_push);
    assert!(p.flag_reset);
    assert!(!p.flag_sync_seq_numbers);
    assert!(p.flag_finished);
    assert_eq!(p.window, 0x1234);
    assert_eq!(p.urgent_pointer, 0xabcd);
    assert_eq!(p.options, vec![9, 8, 7, 6]);
    assert_eq!(p.data.len(), MAX_DATA_LENGTH - 4);
    assert_eq!(&p.data[..5], b"hello");
    assert!(p.data[5..].iter().all(|b| *b == 0));
}

#[test]
fn round_trip_with_every_flag_combination() {
    for bits in 0u16..256 {
        let mut p = syn_packet(bits as u32);
        p.flag_congestion_window_reduced = bits & 0x80 != 0;
        p.flag_echo_explicit_congestion_notification = bits & 0x40 != 0;
        p.flag_urgent_pointer = bits & 0x20 != 0;
        p.flag_ack = bits & 0x10 != 0;
        p.flag_push = bits & 0x08 != 0;
        p.flag_reset = bits & 0x04 != 0;
        p.flag_sync_seq_numbers = bits & 0x02 != 0;
        p.flag_finished = bits & 0x01 != 0;
        let frame = p.to_buffer();
        assert_eq!(frame[9] as u16, bits);
        let q = TcpPacket::from_buffer(frame).unwrap();
        assert_eq!(q.flag_congestion_window_reduced, bits & 0x80 != 0);
        assert_eq!(q.flag_echo_explicit_congestion_notification, bits & 0x40 != 0);
        assert_eq!(q.flag_urgent_pointer, bits & 0x20 != 0);
        assert_eq!(q.flag_ack, bits & 0x10 != 0);
        assert_eq!(q.flag_push, bits & 0x08 != 0);
        assert_eq!(q.flag_reset, bits & 0x04 != 0);
        assert_eq!(q.flag_sync_seq_numbers, bits & 0x02 != 0);
        assert_eq!(q.flag_finished, bits & 0x01 != 0);
        assert_eq!(q.sequence_number, bits as u32);
    }
}

#[test]
fn header_layout_is_little_endian() {
    let frame = sample_packet().to_buffer();
    assert_eq!(frame.len(), MAX_PACKET_LENGTH);
    assert_eq!(&frame[0..4], &[0x01, 0x02, 0x03, 0x04]);
    assert_eq!(&frame[4..8], &[0xef, 0xbe, 0xad, 0xde]);
    assert_eq!(frame[8], 5);
    assert_eq!(frame[9], 0b1011_0101);
    assert_eq!(&frame[10..12], &[0x34, 0x12]);
    assert_eq!(&frame[14..16], &[0xcd, 0xab]);
    assert_eq!(&frame[16..20], &[9, 8, 7, 6]);
    assert_eq!(&frame[20..25], b"hello");
    assert!(frame[25..].iter().all(|b| *b == 0));
}

#[test]
fn encoded_frame_sums_to_sentinel() {
    let frame = sample_packet().to_buffer();
    assert_eq!(checksum_sum(&frame), 0xffff);
    let mut sum: u16 = 0;
    for (i, b) in frame.iter().enumerate() {
        let w = if i % 2 == 0 { *b as u16 } else { (*b as u16) << 8 };
        sum = sum.wrapping_add(w);
    }
    assert_eq!(sum, 0xffff);
}

#[test]
fn checksum_of_zero_frame_is_zero() {
    let frame = [0u8; MAX_PACKET_LENGTH];
    assert_eq!(checksum_sum(&frame), 0);
    assert_eq!(TcpPacket::from_buffer(frame).unwrap_err(), ProtocolError::ChecksumMismatch);
}

#[test]
fn checksum_weights_odd_bytes_high() {
    let mut frame = [0u8; MAX_PACKET_LENGTH];
    frame[0] = 0x12;
    frame[1] = 0x34;
    frame[3] = 0x01;
    assert_eq!(checksum_sum(&frame), 0x3512);
}

#[test]
fn every_single_bit_flip_is_detected() {
    let frame = sample_packet().to_buffer();
    for i in 0..MAX_PACKET_LENGTH {
        for bit in 0..8 {
            let mut corrupted = frame;
            corrupted[i] ^= 1 << bit;
            assert_eq!(
                TcpPacket::from_buffer(corrupted).unwrap_err(),
                ProtocolError::ChecksumMismatch
            );
        }
    }
}

#[test]
fn create_ack_answers_sequence_number() {
    let ack = sample_packet().create_ack();
    assert_eq!(ack.ack_number, 0x0403_0202);
    assert_eq!(ack.sequence_number, 0x0403_0201);
    assert!(ack.flag_ack);
    assert!(!ack.flag_sync_seq_numbers);
    assert!(ack.flag_finished);
    assert!(ack.data.is_empty());
    assert_eq!(ack.options, vec![9, 8, 7, 6]);
}

#[test]
fn create_ack_wraps_at_sequence_limit() {
    let ack = syn_packet(u32::MAX).create_ack();
    assert_eq!(ack.ack_number, 0);
    assert!(ack.flag_ack);
    assert!(!ack.flag_sync_seq_numbers);
}

#[test]
fn syn_ack_reply_keeps_syn_and_sets_ack() {
    let reply = syn_packet(41).syn_ack_reply(9000);
    assert_eq!(reply.sequence_number, 9000);
    assert_eq!(reply.ack_number, 42);
    assert!(reply.flag_ack);
    assert!(reply.flag_sync_seq_numbers);
}

#[test]
fn create_syn_ack_acknowledges_syn() {
    let reply = syn_packet(u32::MAX).create_syn_ack();
    assert_eq!(reply.ack_number, 0);
    assert!(reply.flag_ack);
    assert!(reply.flag_sync_seq_numbers);
    assert!(reply.data.is_empty());
}

#[test]
fn syn_packet_fields() {
    let syn = syn_packet(77);
    assert_eq!(syn.sequence_number, 77);
    assert_eq!(syn.ack_number, 0);
    assert_eq!(syn.data_offset, 4);
    assert!(syn.flag_sync_seq_numbers);
    assert!(!syn.flag_ack && !syn.flag_finished);
    assert_eq!(syn.window, TCP_WINDOW_LENGTH);
    assert!(syn.options.is_empty() && syn.data.is_empty());
    let random = create_syn_packet();
    assert!(random.flag_sync_seq_numbers);
    assert!(!random.flag_ack);
    assert_eq!(random.data_offset, 4);
}

#[test]
fn three_thousand_bytes_make_three_packets() {
    let message: String = std::iter::repeat('!').take(3000).collect();
    let packets = string_to_packets(message, 500);
    assert_eq!(packets.len(), 3);
    assert_eq!(packets[0].sequence_number, 500);
    assert_eq!(packets[1].sequence_number, 501);
    assert_eq!(packets[2].sequence_number, 502);
    assert_eq!(packets[0].data.len(), 1380);
    assert_eq!(packets[1].data.len(), 1380);
    assert_eq!(packets[2].data.len(), 240);
    assert!(!packets[0].flag_finished);
    assert!(!packets[1].flag_finished);
    assert!(packets[2].flag_finished);
    assert!(packets.iter().all(|p| p.data_offset == 4 && p.window == TCP_WINDOW_LENGTH));
}

#[test]
fn exact_multiple_makes_no_empty_packet() {
    let message: String = std::iter::repeat('a').take(2 * MAX_DATA_LENGTH).collect();
    let packets = string_to_packets(message, 0);
    assert_eq!(packets.len(), 2);
    assert!(packets[1].flag_finished);
    assert_eq!(packets[1].data.len(), MAX_DATA_LENGTH);
}

#[test]
fn short_message_is_one_finished_packet() {
    let packets = string_to_packets("hi".to_string(), 3);
    assert_eq!(packets.len(), 1);
    assert_eq!(packets[0].data, b"hi".to_vec());
    assert!(packets[0].flag_finished);
    assert_eq!(packets[0].sequence_number, 3);
}

#[test]
fn packet_numbers_wrap_around() {
    let message: String = std::iter::repeat('x').take(3000).collect();
    let packets = string_to_packets(message, u32::MAX - 1);
    assert_eq!(packets[0].sequence_number, u32::MAX - 1);
    assert_eq!(packets[1].sequence_number, u32::MAX);
    assert_eq!(packets[2].sequence_number, 0);
}

#[test]
fn multibyte_text_is_split_by_bytes() {
    let message: String = std::iter::repeat('é').take(1000).collect();
    let packets = string_to_packets(message.clone(), 0);
    assert_eq!(packets.len(), 2);
    let mut joined = packets[0].data.clone();
    joined.extend_from_slice(&packets[1].data);
    assert_eq!(joined, message.into_bytes());
}
