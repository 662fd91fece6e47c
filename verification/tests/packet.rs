use video_transport::packet::{PacketDecodeError, VideoPacketHeader, VIDEO_PACKET_HEADER_LENGTH};
use video_transport::sequence::SequenceNumber;

#[test]
fn round_trip_header_encode_decode() {
    let header = VideoPacketHeader {
        sequence_number: SequenceNumber::new(42),
        timestamp_nanos: 123456789,
        frame_identifier: 7,
        chunk_index: 1,
        chunks_total: 3,
    };

    let mut buffer = vec![0_u8; VIDEO_PACKET_HEADER_LENGTH];
    header.encode(&mut buffer).unwrap();

    let decoded = VideoPacketHeader::decode(&buffer).unwrap();
    assert_eq!(decoded, header);
}

#[test]
fn encode_fails_on_small_buffer() {
    let header = VideoPacketHeader {
        sequence_number: SequenceNumber::new(1),
        timestamp_nanos: 0,
        frame_identifier: 0,
        chunk_index: 0,
        chunks_total: 1,
    };

    let mut buffer = vec![0_u8; VIDEO_PACKET_HEADER_LENGTH - 1];
    let result = header.encode(&mut buffer);
    assert_eq!(result, Err(PacketDecodeError::BufferTooSmall));
}

#[test]
fn packet_decode_fails_on_small_buffer() {
    let buffer = vec![0_u8; VIDEO_PACKET_HEADER_LENGTH - 1];
    let result = VideoPacketHeader::decode(&buffer);
    assert_eq!(result, Err(PacketDecodeError::BufferTooSmall));
}

#[test]
fn header_length_is_twenty() {
    assert_eq!(VIDEO_PACKET_HEADER_LENGTH, 20);
}

#[test]
fn header_is_laid_out_big_endian_in_field_order() {
    let header = VideoPacketHeader {
        sequence_number: SequenceNumber::new(0x0102_0304),
        timestamp_nanos: 0x1112_1314_1516_1718,
        frame_identifier: 0x2122_2324,
        chunk_index: 0x3132,
        chunks_total: 0x4142,
    };
    let mut buffer = [0_u8; 20];
    assert_eq!(header.encode(&mut buffer), Ok(()));
    assert_eq!(
        buffer,
        [
            0x01, 0x02, 0x03, 0x04, 0x11, 0x12, 0x13, 0x14, 0x15, 0x16, 0x17, 0x18, 0x21, 0x22,
            0x23, 0x24, 0x31, 0x32, 0x41, 0x42,
        ]
    );
}

#[test]
fn header_decodes_from_literal_bytes() {
    let bytes = [
        0x00, 0x00, 0x00, 0x2a, 0x00, 0x00, 0x00, 0x00, 0x07, 0x5b, 0xcd, 0x15, 0x00, 0x00, 0x00,
        0x07, 0x00, 0x01, 0x00, 0x03,
    ];
    let header = VideoPacketHeader::decode(&bytes).unwrap();
    assert_eq!(header.sequence_number.value(), 42);
    assert_eq!(header.timestamp_nanos, 123_456_789);
    assert_eq!(header.frame_identifier, 7);
    assert_eq!(header.chunk_index, 1);
    assert_eq!(header.chunks_total, 3);
}

#[test]
fn encode_leaves_a_short_buffer_untouched() {
    let header = VideoPacketHeader {
        sequence_number: SequenceNumber::new(u32::MAX),
        timestamp_nanos: u64::MAX,
        frame_identifier: u32::MAX,
        chunk_index: u16::MAX,
        chunks_total: u16::MAX,
    };
    let mut buffer = vec![0x5a_u8; 19];
    assert_eq!(header.encode(&mut buffer), Err(PacketDecodeError::BufferTooSmall));
    assert_eq!(buffer, vec![0x5a_u8; 19]);
    let mut empty: Vec<u8> = Vec::new();
    assert_eq!(header.encode(&mut empty), Err(PacketDecodeError::BufferTooSmall));
}

#[test]
fn encode_writes_only_the_first_twenty_bytes() {
    let header = VideoPacketHeader {
        sequence_number: SequenceNumber::new(1),
        timestamp_nanos: 2,
        frame_identifier: 3,
        chunk_index: 4,
        chunks_total: 5,
    };
    let mut buffer = vec![0xee_u8; 25];
    assert_eq!(header.encode(&mut buffer), Ok(()));
    assert_eq!(buffer.len(), 25);
    assert_eq!(&buffer[20..], &[0xee_u8; 5]);
    assert_eq!(&buffer[..4], &[0, 0, 0, 1]);
    assert_eq!(&buffer[16..20], &[0, 4, 0, 5]);
}

#[test]
fn decode_ignores_what_follows_the_header() {
    let header = VideoPacketHeader {
        sequence_number: SequenceNumber::new(9),
        timestamp_nanos: 111,
        frame_identifier: 7,
        chunk_index: 0,
        chunks_total: 1,
    };
    let mut buffer = vec![0_u8; 20];
    header.encode(&mut buffer).unwrap();
    buffer.extend_from_slice(b"payload bytes");
    assert_eq!(VideoPacketHeader::decode(&buffer), Ok(header));
}

#[test]
fn header_round_trip_at_the_extremes() {
    let headers = [
        VideoPacketHeader {
            sequence_number: SequenceNumber::new(0),
            timestamp_nanos: 0,
            frame_identifier: 0,
            chunk_index: 0,
            chunks_total: 0,
        },
        VideoPacketHeader {
            sequence_number: SequenceNumber::new(u32::MAX),
            timestamp_nanos: u64::MAX,
            frame_identifier: u32::MAX,
            chunk_index: u16::MAX,
            chunks_total: u16::MAX,
        },
        VideoPacketHeader {
            sequence_number: SequenceNumber::new(0x8000_0000),
            timestamp_nanos: 0x8000_0000_0000_0000,
            frame_identifier: 0x0000_ff00,
            chunk_index: 0x00ff,
            chunks_total: 0xff00,
        },
    ];
    for header in headers {
        let mut buffer = [0_u8; 20];
        header.encode(&mut buffer).unwrap();
        assert_eq!(VideoPacketHeader::decode(&buffer), Ok(header));
    }
}
