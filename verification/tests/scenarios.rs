use video_transport::packet::VideoPacket;
use video_transport::packet_codec::{decode_packet, encode_packet};
use video_transport::packetizer::{Packetizer, PacketizerConfig};
use video_transport::reassembler::{FrameReassembler, ReassembledFrame};
use video_transport::sequence::SequenceNumber;

fn hello_world_packets() -> Vec<VideoPacket> {
    let mut packetizer =
        Packetizer::new(PacketizerConfig { max_payload_bytes: 4 }, SequenceNumber::new(0));
    packetizer.packetize(7, 10, b"hello world").unwrap()
}

fn feed(order: [usize; 3]) -> Vec<Option<ReassembledFrame>> {
    let packets = hello_world_packets();
    let mut reassembler = FrameReassembler::new(4);
    order
        .iter()
        .map(|&index| reassembler.push_packet(packets[index].clone()).unwrap())
        .collect()
}

#[test]
fn packetize_then_reassemble_in_every_order() {
    let expected = ReassembledFrame {
        frame_identifier: 7,
        timestamp_nanos: 10,
        payload: b"hello world".to_vec(),
    };
    let orders = [[0, 1, 2], [0, 2, 1], [1, 0, 2], [1, 2, 0], [2, 0, 1], [2, 1, 0]];
    for order in orders {
        let results = feed(order);
        assert_eq!(results, vec![None, None, Some(expected.clone())]);
    }
}

#[test]
fn frames_survive_the_wire() {
    let mut packetizer =
        Packetizer::new(PacketizerConfig { max_payload_bytes: 5 }, SequenceNumber::new(u32::MAX));
    let mut reassembler = FrameReassembler::new(1);
    let payload: Vec<u8> = (0..=200_u8).collect();
    let mut completed = Vec::new();
    for packet in packetizer.packetize(77, 123_456, &payload).unwrap().iter().rev() {
        let datagram = encode_packet(packet);
        assert_eq!(datagram.len(), 20 + packet.payload.len());
        let received = decode_packet(&datagram).unwrap();
        assert_eq!(&received, packet);
        if let Some(frame) = reassembler.push_packet(received).unwrap() {
            completed.push(frame);
        }
    }
    assert_eq!(
        completed,
        vec![ReassembledFrame { frame_identifier: 77, timestamp_nanos: 123_456, payload }]
    );
}

#[test]
fn every_packet_twice_still_makes_one_frame() {
    let packets = hello_world_packets();
    let mut reassembler = FrameReassembler::new(4);
    let mut completed = 0;
    for index in [2, 2, 0, 0, 2, 0, 1] {
        if let Some(frame) = reassembler.push_packet(packets[index].clone()).unwrap() {
            assert_eq!(frame.payload, b"hello world");
            completed += 1;
        }
    }
    assert_eq!(completed, 1);
}

#[test]
fn in_flight_frames_stay_within_the_bound() {
    // Frames 1 to 5 each lose their second chunk for now; with room for two,
    // only the two newest can still be completed.
    let mut packetizer =
        Packetizer::new(PacketizerConfig { max_payload_bytes: 1 }, SequenceNumber::new(0));
    let mut reassembler = FrameReassembler::new(2);
    let mut held_back = Vec::new();
    for frame_identifier in 1..=5_u32 {
        let mut packets = packetizer.packetize(frame_identifier, 0, b"ab").unwrap();
        held_back.push(packets.pop().unwrap());
        assert_eq!(reassembler.push_packet(packets.pop().unwrap()), Ok(None));
    }
    let completed: Vec<u32> = held_back
        .into_iter()
        .rev()
        .filter_map(|packet| reassembler.push_packet(packet).unwrap())
        .map(|frame| frame.frame_identifier)
        .collect();
    assert_eq!(completed, vec![5, 4]);
}
