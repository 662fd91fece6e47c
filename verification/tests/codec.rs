use std::time::Duration;
use video_transport::codec::dummy::PassthroughCodec;
use video_transport::codec::types::{EncodedFrame, PixelFormat, RawFrame};
use video_transport::codec::{
    check_encoded_frame, check_raw_frame, CodecError, VideoDecoder, VideoEncoder,
};

#[test]
fn encode_decode_round_trip() {
    let mut codec = PassthroughCodec::default();
    let frame = RawFrame {
        width: 1,
        height: 1,
        pixel_format: PixelFormat::Rgba8,
        timestamp: Duration::from_millis(5),
        data: vec![1, 2, 3, 4],
    };

    let encoded = codec.encode(&frame).expect("encode");
    let decoded = codec.decode(&encoded).expect("decode");

    assert_eq!(decoded.data, frame.data);
    assert_eq!(decoded.timestamp, frame.timestamp);
}

#[test]
fn passthrough_encodes_to_a_keyframe_with_the_same_bytes() {
    let mut codec = PassthroughCodec::default();
    let frame = RawFrame {
        width: 640,
        height: 480,
        pixel_format: PixelFormat::Rgba8,
        timestamp: Duration::from_nanos(1234),
        data: vec![9, 8, 7],
    };
    let encoded = codec.encode(&frame).unwrap();
    assert_eq!(
        encoded,
        EncodedFrame { timestamp: Duration::from_nanos(1234), data: vec![9, 8, 7], is_keyframe: true }
    );
    let decoded = codec.decode(&encoded).unwrap();
    assert_eq!(decoded.width, 1);
    assert_eq!(decoded.height, 1);
    assert_eq!(decoded.pixel_format, PixelFormat::Rgba8);
}

#[test]
fn passthrough_rejects_frames_without_bytes() {
    let mut codec = PassthroughCodec::default();
    let frame = RawFrame {
        width: 1,
        height: 1,
        pixel_format: PixelFormat::Rgba8,
        timestamp: Duration::from_millis(5),
        data: Vec::new(),
    };
    assert_eq!(codec.encode(&frame), Err(CodecError::InvalidInput));
    let encoded =
        EncodedFrame { timestamp: Duration::from_millis(5), data: Vec::new(), is_keyframe: true };
    assert_eq!(codec.decode(&encoded), Err(CodecError::InvalidInput));
}

#[test]
fn codec_errors_say_what_they_are() {
    assert_eq!(CodecError::InvalidInput.message(), "codec invalid input");
    assert_eq!(CodecError::Unsupported.message(), "codec unsupported");
    assert_eq!(CodecError::InternalError.message(), "codec internal error");
}

#[test]
fn raw_frames_are_checked_against_the_encoder() {
    let frame = RawFrame {
        width: 320,
        height: 180,
        pixel_format: PixelFormat::Rgba8,
        timestamp: Duration::from_millis(5),
        data: vec![0x7f; 4],
    };
    assert_eq!(check_raw_frame(&frame, 320, 180), Ok(()));
    assert_eq!(check_raw_frame(&frame, 321, 180), Err(CodecError::InvalidInput));
    assert_eq!(check_raw_frame(&frame, 320, 181), Err(CodecError::InvalidInput));
    let empty = RawFrame { data: Vec::new(), ..frame };
    assert_eq!(check_raw_frame(&empty, 320, 180), Err(CodecError::InvalidInput));
}

#[test]
fn encoded_frames_are_checked_before_decoding() {
    let frame = EncodedFrame { timestamp: Duration::from_millis(5), data: vec![1], is_keyframe: false };
    assert_eq!(check_encoded_frame(&frame), Ok(()));
    let empty = EncodedFrame { data: Vec::new(), ..frame };
    assert_eq!(check_encoded_frame(&empty), Err(CodecError::InvalidInput));
}
