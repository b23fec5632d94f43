use reliable_udp::packet::{string_to_packets, syn_packet, TcpPacket, MAX_DATA_LENGTH};
use reliable_udp::receiver::Reassembly;

fn text(len: usize) -> String {
    (0..len).map(|i| (b'a' + (i % 26) as u8) as char).collect()
}

fn take_packets(message: &str, base: u32) -> Vec<TcpPacket> {
    string_to_packets(message.to_string(), base)
}

#[test]
fn in_order_delivery_reassembles_message() {
    let message = text(3000);
    let mut buffer = Reassembly::new(10);
    let mut delivered = None;
    for p in take_packets(&message, 10) {
        assert!(delivered.is_none());
        let (ack, out) = buffer.on_packet(p);
        assert!(ack.flag_ack);
        delivered = out;
    }
    assert_eq!(delivered.unwrap(), message.into_bytes());
    assert_eq!(buffer.len(), 0);
    assert!(!buffer.is_finished());
}

#[test]
fn every_arrival_order_reassembles_message() {
    let message = text(3 * MAX_DATA_LENGTH + 17);
    let orders = [
        [0usize, 1, 2, 3],
        [3, 2, 1, 0],
        [2, 0, 3, 1],
        [1, 3, 0, 2],
        [3, 0, 1, 2],
    ];
    for order in orders.iter() {
        let mut packets: Vec<Option<TcpPacket>> =
            take_packets(&message, 7).into_iter().map(Some).collect();
        let mut buffer = Reassembly::new(7);
        for (n, index) in order.iter().enumerate() {
            let (_, out) = buffer.on_packet(packets[*index].take().unwrap());
            if n + 1 < order.len() {
                assert!(out.is_none());
            } else {
                assert_eq!(out.unwrap(), message.clone().into_bytes());
            }
        }
    }
}

#[test]
fn duplicate_packet_overwrites_with_same_payload() {
    let message = text(3000);
    let mut buffer = Reassembly::new(0);
    let first = take_packets(&message, 0);
    let again = take_packets(&message, 0);
    let mut first = first.into_iter();
    let mut again = again.into_iter();
    let (ack, out) = buffer.on_packet(first.next().unwrap());
    assert_eq!(ack.ack_number, 1);
    assert!(out.is_none());
    // the retransmitted copy of packet 0 arrives too
    let (ack, out) = buffer.on_packet(again.next().unwrap());
    assert_eq!(ack.ack_number, 1);
    assert!(out.is_none());
    assert_eq!(buffer.len(), 1);
    assert!(buffer.on_packet(first.next().unwrap()).1.is_none());
    let (_, out) = buffer.on_packet(first.next().unwrap());
    assert_eq!(out.unwrap(), message.into_bytes());
}

#[test]
fn gap_delays_completion() {
    let message = text(3000);
    let mut packets = take_packets(&message, 0).into_iter();
    let first = packets.next().unwrap();
    let second = packets.next().unwrap();
    let third = packets.next().unwrap();
    let mut buffer = Reassembly::new(0);
    assert!(buffer.on_packet(third).1.is_none());
    assert!(buffer.is_finished());
    assert_eq!(buffer.len(), 3);
    assert!(buffer.on_packet(first).1.is_none());
    assert_eq!(buffer.on_packet(second).1.unwrap(), message.into_bytes());
}

#[test]
fn offsets_wrap_around_sequence_space() {
    let message = text(3000);
    let base = u32::MAX - 1;
    let mut buffer = Reassembly::new(base);
    let packets = take_packets(&message, base);
    assert_eq!(packets[2].sequence_number, 0);
    let mut out = None;
    for p in packets.into_iter().rev() {
        out = buffer.on_packet(p).1;
    }
    assert_eq!(out.unwrap(), message.into_bytes());
}

#[test]
fn frames_are_decoded_and_acknowledged() {
    let mut buffer = Reassembly::new(40);
    let mut packet = syn_packet(40);
    packet.flag_sync_seq_numbers = false;
    packet.flag_finished = true;
    packet.data = b"payload".to_vec();
    let frame = packet.to_buffer();
    let (ack_frame, out) = buffer.on_frame(frame).unwrap();
    let ack = TcpPacket::from_buffer(ack_frame).unwrap();
    assert!(ack.flag_ack);
    assert_eq!(ack.ack_number, 41);
    let delivered = out.unwrap();
    assert_eq!(&delivered[..7], b"payload");
    assert_eq!(delivered.len(), MAX_DATA_LENGTH);
}

#[test]
fn corrupted_frame_is_dropped() {
    let mut buffer = Reassembly::new(0);
    let mut frame = syn_packet(0).to_buffer();
    frame[100] ^= 0x01;
    assert!(buffer.on_frame(frame).is_none());
    assert_eq!(buffer.len(), 0);
}
