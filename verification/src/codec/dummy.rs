//! A codec that changes nothing: the encoded frame is the raw frame's bytes.

use vstd::prelude::*;
use crate::codec::types::{DecodedFrame, EncodedFrame, PixelFormat, RawFrame};
use crate::codec::{CodecError, VideoDecoder, VideoEncoder};

verus! {

#[derive(Debug)]
pub struct PassthroughCodec;

impl Default for PassthroughCodec {
    fn default() -> (codec: Self)
        ensures
            codec == PassthroughCodec,
    {
        PassthroughCodec
    }
}

impl VideoEncoder for PassthroughCodec {
    /// Hands the frame's bytes on as a keyframe; a frame without bytes is
    /// invalid input.
    fn encode(&mut self, frame: &RawFrame) -> (result: Result<EncodedFrame, CodecError>)
        ensures
            frame.data@.len() == 0 ==> result == Err::<EncodedFrame, CodecError>(
                CodecError::InvalidInput,
            ),
            frame.data@.len() > 0 ==> result is Ok && result->Ok_0.timestamp == frame.timestamp
                && result->Ok_0.data@ == frame.data@ && result->Ok_0.is_keyframe,
    {
        if frame.data.is_empty() {
            return Err(CodecError::InvalidInput);
        }
        Ok(EncodedFrame { timestamp: frame.timestamp, data: frame.data.clone(), is_keyframe: true })
    }
}

impl VideoDecoder for PassthroughCodec {
    /// Hands the frame's bytes on as a picture of one pixel by one; a frame
    /// without bytes is invalid input.
    fn decode(&mut self, frame: &EncodedFrame) -> (result: Result<DecodedFrame, CodecError>)
        ensures
            frame.data@.len() == 0 ==> result == Err::<DecodedFrame, CodecError>(
                CodecError::InvalidInput,
            ),
            frame.data@.len() > 0 ==> result is Ok && result->Ok_0.timestamp == frame.timestamp
                && result->Ok_0.data@ == frame.data@ && result->Ok_0.width == 1
                && result->Ok_0.height == 1 && result->Ok_0.pixel_format == PixelFormat::Rgba8,
    {
        if frame.data.is_empty() {
            return Err(CodecError::InvalidInput);
        }
        Ok(
            DecodedFrame {
                width: 1,
                height: 1,
                pixel_format: PixelFormat::Rgba8,
                timestamp: frame.timestamp,
                data: frame.data.clone(),
            },
        )
    }
}

} // verus!
