use video_transport::healthcheck::{
    HealthcheckError, HealthcheckKind, HealthcheckPacket, HEALTHCHECK_LENGTH,
};

#[test]
fn round_trip_encode_decode() {
    let packet = HealthcheckPacket {
        kind: HealthcheckKind::Ping,
        timestamp_nanos: 1234,
    };

    let encoded = packet.encode();
    let decoded = HealthcheckPacket::decode(&encoded).expect("decode");
    assert_eq!(decoded, packet);
}

#[test]
fn ping_is_sixteen_literal_bytes() {
    let packet = HealthcheckPacket { kind: HealthcheckKind::Ping, timestamp_nanos: 1234 };
    let encoded = packet.encode();
    assert_eq!(HEALTHCHECK_LENGTH, 16);
    assert_eq!(
        encoded,
        [
            0x54, 0x42, 0x44, 0x48, 0x01, 0x00, 0x00, 0x00, 0x00, 0x00, 0x00, 0x00, 0x00, 0x00,
            0x04, 0xd2,
        ]
    );
    assert_eq!(HealthcheckPacket::decode(&encoded), Ok(packet));
}

#[test]
fn pong_round_trips() {
    let packet = HealthcheckPacket { kind: HealthcheckKind::Pong, timestamp_nanos: u64::MAX };
    let encoded = packet.encode();
    assert_eq!(&encoded[..4], b"TBDH");
    assert_eq!(encoded[4], 2);
    assert_eq!(&encoded[5..8], &[0, 0, 0]);
    assert_eq!(&encoded[8..], &[0xff; 8]);
    assert_eq!(HealthcheckPacket::decode(&encoded), Ok(packet));
}

#[test]
fn decode_rejects_a_short_buffer() {
    assert_eq!(HealthcheckPacket::decode(&[]), Err(HealthcheckError::BufferTooSmall));
    let packet = HealthcheckPacket { kind: HealthcheckKind::Ping, timestamp_nanos: 1 };
    let encoded = packet.encode();
    assert_eq!(HealthcheckPacket::decode(&encoded[..15]), Err(HealthcheckError::BufferTooSmall));
}

#[test]
fn decode_rejects_a_wrong_magic() {
    let mut encoded = HealthcheckPacket { kind: HealthcheckKind::Ping, timestamp_nanos: 1 }.encode();
    encoded[3] = b'X';
    assert_eq!(HealthcheckPacket::decode(&encoded), Err(HealthcheckError::InvalidMagic));
    assert_eq!(HealthcheckPacket::decode(&[0_u8; 16]), Err(HealthcheckError::InvalidMagic));
}

#[test]
fn decode_rejects_an_unknown_kind() {
    let mut encoded = HealthcheckPacket { kind: HealthcheckKind::Ping, timestamp_nanos: 1 }.encode();
    encoded[4] = 0;
    assert_eq!(HealthcheckPacket::decode(&encoded), Err(HealthcheckError::InvalidKind));
    encoded[4] = 3;
    assert_eq!(HealthcheckPacket::decode(&encoded), Err(HealthcheckError::InvalidKind));
    encoded[4] = 255;
    assert_eq!(HealthcheckPacket::decode(&encoded), Err(HealthcheckError::InvalidKind));
}

#[test]
fn magic_is_checked_before_the_kind() {
    let mut bytes = [0_u8; 16];
    bytes[4] = 9;
    assert_eq!(HealthcheckPacket::decode(&bytes), Err(HealthcheckError::InvalidMagic));
}

#[test]
fn decode_ignores_reserved_bytes_and_what_follows() {
    let mut bytes = vec![0x54, 0x42, 0x44, 0x48, 0x02, 0xaa, 0xbb, 0xcc];
    bytes.extend_from_slice(&[0, 0, 0, 0, 0, 0, 0x01, 0x00]);
    bytes.extend_from_slice(b"trailing");
    assert_eq!(
        HealthcheckPacket::decode(&bytes),
        Ok(HealthcheckPacket { kind: HealthcheckKind::Pong, timestamp_nanos: 256 })
    );
}

#[test]
fn is_healthcheck_packet_looks_at_length_and_magic() {
    let encoded = HealthcheckPacket { kind: HealthcheckKind::Pong, timestamp_nanos: 7 }.encode();
    assert!(HealthcheckPacket::is_healthcheck_packet(&encoded));
    assert!(!HealthcheckPacket::is_healthcheck_packet(&encoded[..15]));
    assert!(!HealthcheckPacket::is_healthcheck_packet(b"TBDH"));
    assert!(!HealthcheckPacket::is_healthcheck_packet(&[0_u8; 16]));
    let mut unknown_kind = encoded;
    unknown_kind[4] = 77;
    assert!(HealthcheckPacket::is_healthcheck_packet(&unknown_kind));
    let mut longer = encoded.to_vec();
    longer.push(0);
    assert!(HealthcheckPacket::is_healthcheck_packet(&longer));
}

#[test]
fn video_packet_with_the_magic_as_sequence_number_looks_like_a_healthcheck() {
    let mut datagram = vec![0_u8; 20];
    datagram[..4].copy_from_slice(&0x5442_4448_u32.to_be_bytes());
    assert!(HealthcheckPacket::is_healthcheck_packet(&datagram));
}

#[test]
fn a_ping_is_answered_with_its_pong() {
    let ping = HealthcheckPacket { kind: HealthcheckKind::Ping, timestamp_nanos: 1234 }.encode();
    let reply = HealthcheckPacket::pong_for(&ping).expect("a ping is answered");
    assert_eq!(
        reply,
        [
            0x54, 0x42, 0x44, 0x48, 0x02, 0x00, 0x00, 0x00, 0x00, 0x00, 0x00, 0x00, 0x00, 0x00,
            0x04, 0xd2,
        ]
    );
    assert_eq!(
        HealthcheckPacket::decode(&reply),
        Ok(HealthcheckPacket { kind: HealthcheckKind::Pong, timestamp_nanos: 1234 })
    );
}

#[test]
fn nothing_but_a_ping_is_answered() {
    let pong = HealthcheckPacket { kind: HealthcheckKind::Pong, timestamp_nanos: 1234 }.encode();
    assert_eq!(HealthcheckPacket::pong_for(&pong), None);
    assert_eq!(HealthcheckPacket::pong_for(&pong[..8]), None);
    assert_eq!(HealthcheckPacket::pong_for(&[0_u8; 64]), None);
    let mut unknown = pong;
    unknown[4] = 3;
    assert_eq!(HealthcheckPacket::pong_for(&unknown), None);
}

#[test]
fn a_pong_ends_a_round_trip() {
    let pong = HealthcheckPacket { kind: HealthcheckKind::Pong, timestamp_nanos: 1_000 }.encode();
    assert_eq!(HealthcheckPacket::round_trip_nanos(&pong, 3_500), Some(2_500));
    assert_eq!(HealthcheckPacket::round_trip_nanos(&pong, 1_000), Some(0));
    assert_eq!(HealthcheckPacket::round_trip_nanos(&pong, 999), Some(0));
    assert_eq!(HealthcheckPacket::round_trip_nanos(&pong, u64::MAX), Some(u64::MAX - 1_000));
}

#[test]
fn nothing_but_a_pong_ends_a_round_trip() {
    let ping = HealthcheckPacket { kind: HealthcheckKind::Ping, timestamp_nanos: 1_000 }.encode();
    assert_eq!(HealthcheckPacket::round_trip_nanos(&ping, 3_500), None);
    assert_eq!(HealthcheckPacket::round_trip_nanos(&ping[..15], 3_500), None);
    assert_eq!(HealthcheckPacket::round_trip_nanos(b"not a liveness datagram", 3_500), None);
}
