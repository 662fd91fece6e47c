//! Frames before, between and after the codec.

use vstd::prelude::*;
use std::time::Duration;

verus! {

#[derive(Debug, Clone, Copy, PartialEq, Eq, Structural)]
pub enum PixelFormat {
    Rgba8,
}

/// A picture as it is captured.
#[derive(Debug, PartialEq, Eq)]
pub struct RawFrame {
    pub width: u32,
    pub height: u32,
    pub pixel_format: PixelFormat,
    pub timestamp: Duration,
    pub data: Vec<u8>,
}

/// A picture as the encoder emits it; the framing does not look into `data`.
#[derive(Debug, PartialEq, Eq)]
pub struct EncodedFrame {
    pub timestamp: Duration,
    pub data: Vec<u8>,
    pub is_keyframe: bool,
}

/// A picture as the decoder hands it back.
#[derive(Debug, PartialEq, Eq)]
pub struct DecodedFrame {
    pub width: u32,
    pub height: u32,
    pub pixel_format: PixelFormat,
    pub timestamp: Duration,
    pub data: Vec<u8>,
}

impl Clone for RawFrame {
    fn clone(&self) -> (copy: Self)
        ensures
            copy.width == self.width,
            copy.height == self.height,
            copy.pixel_format == self.pixel_format,
            copy.timestamp == self.timestamp,
            copy.data@ == self.data@,
    {
        RawFrame {
            width: self.width,
            height: self.height,
            pixel_format: self.pixel_format,
            timestamp: self.timestamp,
            data: self.data.clone(),
        }
    }
}

impl Clone for EncodedFrame {
    fn clone(&self) -> (copy: Self)
        ensures
            copy.timestamp == self.timestamp,
            copy.data@ == self.data@,
            copy.is_keyframe == self.is_keyframe,
    {
        EncodedFrame {
            timestamp: self.timestamp,
            data: self.data.clone(),
            is_keyframe: self.is_keyframe,
        }
    }
}

impl Clone for DecodedFrame {
    fn clone(&self) -> (copy: Self)
        ensures
            copy.width == self.width,
            copy.height == self.height,
            copy.pixel_format == self.pixel_format,
            copy.timestamp == self.timestamp,
            copy.data@ == self.data@,
    {
        DecodedFrame {
            width: self.width,
            height: self.height,
            pixel_format: self.pixel_format,
            timestamp: self.timestamp,
            data: self.data.clone(),
        }
    }
}

} // verus!
