//! The codec as the framing sees it: something that turns raw frames into
//! encoded ones and back. What an encoder emits is opaque to the framing.

use vstd::prelude::*;
use crate::codec::types::{DecodedFrame, EncodedFrame, PixelFormat, RawFrame};

pub mod dummy;
pub mod types;

verus! {

pub trait VideoEncoder {
    fn encode(&mut self, frame: &RawFrame) -> Result<EncodedFrame, CodecError>;
}

pub trait VideoDecoder {
    fn decode(&mut self, frame: &EncodedFrame) -> Result<DecodedFrame, CodecError>;
}

#[derive(Debug, Clone, Copy, PartialEq, Eq, Structural)]
pub enum CodecError {
    InvalidInput,
    Unsupported,
    InternalError,
}

/// Whether an encoder set up for pictures of `width` by `height` can take
/// `frame`: the picture must have that size and must not be empty.
pub fn check_raw_frame(frame: &RawFrame, width: u32, height: u32) -> (result: Result<
    (),
    CodecError,
>)
    ensures
        result == if frame.width == width && frame.height == height && frame.data@.len() > 0 {
            Ok::<(), CodecError>(())
        } else {
            Err::<(), CodecError>(CodecError::InvalidInput)
        },
{
    if frame.width != width || frame.height != height {
        return Err(CodecError::InvalidInput);
    }
    match frame.pixel_format {
        PixelFormat::Rgba8 => {},
    }
    if frame.data.is_empty() {
        return Err(CodecError::InvalidInput);
    }
    Ok(())
}

/// Whether a decoder can take `frame`: it must not be empty.
pub fn check_encoded_frame(frame: &EncodedFrame) -> (result: Result<(), CodecError>)
    ensures
        result == if frame.data@.len() > 0 {
            Ok::<(), CodecError>(())
        } else {
            Err::<(), CodecError>(CodecError::InvalidInput)
        },
{
    if frame.data.is_empty() {
        return Err(CodecError::InvalidInput);
    }
    Ok(())
}

impl CodecError {
    /// What the error says of itself.
    pub fn message(&self) -> (text: &'static str)
        ensures
            text@ == match self {
                CodecError::InvalidInput => "codec invalid input"@,
                CodecError::Unsupported => "codec unsupported"@,
                CodecError::InternalError => "codec internal error"@,
            },
    {
        match self {
            CodecError::InvalidInput => "codec invalid input",
            CodecError::Unsupported => "codec unsupported",
            CodecError::InternalError => "codec internal error",
        }
    }
}

} // verus!
