use video_transport::packet::{VideoPacket, VideoPacketHeader};
use video_transport::packet_codec::{decode_packet, encode_packet, PacketCodecError};
use video_transport::sequence::SequenceNumber;

#[test]
fn round_trip_packet_encode_decode() {
    let packet = VideoPacket {
        header: VideoPacketHeader {
            sequence_number: SequenceNumber::new(9),
            timestamp_nanos: 111,
            frame_identifier: 7,
            chunk_index: 0,
            chunks_total: 1,
        },
        payload: b"payload".to_vec(),
    };

    let buffer = encode_packet(&packet);
    let decoded = decode_packet(&buffer).expect("decode");

    assert_eq!(decoded, packet);
}

#[test]
fn packet_codec_decode_fails_on_small_buffer() {
    let buffer = vec![0_u8; 3];
    let result = decode_packet(&buffer);
    assert_eq!(result, Err(PacketCodecError::BufferTooSmall));
}

#[test]
fn decode_packet_needs_twenty_bytes() {
    assert_eq!(decode_packet(&[]), Err(PacketCodecError::BufferTooSmall));
    assert_eq!(decode_packet(&[0_u8; 19]), Err(PacketCodecError::BufferTooSmall));
    let packet = decode_packet(&[0_u8; 20]).expect("twenty bytes are a packet");
    assert!(packet.payload.is_empty());
    assert_eq!(packet.header.chunks_total, 0);
}

#[test]
fn encoded_packet_is_header_then_payload() {
    let packet = VideoPacket {
        header: VideoPacketHeader {
            sequence_number: SequenceNumber::new(0x0a0b_0c0d),
            timestamp_nanos: 10,
            frame_identifier: 7,
            chunk_index: 2,
            chunks_total: 3,
        },
        payload: vec![0xde, 0xad, 0xbe, 0xef],
    };
    let buffer = encode_packet(&packet);
    assert_eq!(buffer.len(), 24);
    assert_eq!(
        buffer,
        vec![
            0x0a, 0x0b, 0x0c, 0x0d, 0, 0, 0, 0, 0, 0, 0, 10, 0, 0, 0, 7, 0, 2, 0, 3, 0xde, 0xad,
            0xbe, 0xef,
        ]
    );
}

#[test]
fn decoded_payload_is_the_tail_of_the_datagram() {
    let mut datagram = vec![0_u8; 20];
    datagram[3] = 5;
    datagram[19] = 1;
    datagram.extend_from_slice(b"hello world");
    let packet = decode_packet(&datagram).unwrap();
    assert_eq!(packet.header.sequence_number.value(), 5);
    assert_eq!(packet.header.chunks_total, 1);
    assert_eq!(packet.payload, b"hello world");
    assert_eq!(encode_packet(&packet), datagram);
}

#[test]
fn packet_with_empty_payload_round_trips() {
    let packet = VideoPacket {
        header: VideoPacketHeader {
            sequence_number: SequenceNumber::new(1),
            timestamp_nanos: 2,
            frame_identifier: 3,
            chunk_index: 0,
            chunks_total: 1,
        },
        payload: Vec::new(),
    };
    let buffer = encode_packet(&packet);
    assert_eq!(buffer.len(), 20);
    assert_eq!(decode_packet(&buffer), Ok(packet));
}

#[test]
fn packets_compare_by_header_and_payload() {
    let packet = VideoPacket {
        header: VideoPacketHeader {
            sequence_number: SequenceNumber::new(1),
            timestamp_nanos: 2,
            frame_identifier: 3,
            chunk_index: 0,
            chunks_total: 1,
        },
        payload: vec![1, 2, 3],
    };
    let copy = packet.clone();
    assert_eq!(copy, packet);
    let mut other_payload = packet.clone();
    other_payload.payload[2] = 4;
    assert_ne!(other_payload, packet);
    let mut shorter = packet.clone();
    shorter.payload.pop();
    assert_ne!(shorter, packet);
    let mut other_header = packet.clone();
    other_header.header.chunks_total = 2;
    assert_ne!(other_header, packet);
}
