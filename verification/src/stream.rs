//! Stream descriptions: channel layouts, PCM and DSD stream information, and
//! decoded audio.
use crate::sample::SampleFormat;
use vstd::prelude::*;

verus! {

/// Describes the layout of audio channels.
#[derive(Debug, Clone, Copy, PartialEq, Eq, Structural)]
pub enum ChannelLayout {
    Mono,
    Stereo,
    /// Channel count for non-standard layouts.
    Custom(u16),
}

impl ChannelLayout {
    /// The number of channels of the layout.
    pub fn channel_count(&self) -> (n: u16)
        ensures
            n == match *self {
                ChannelLayout::Mono => 1,
                ChannelLayout::Stereo => 2,
                ChannelLayout::Custom(c) => c,
            },
    {
        match self {
            ChannelLayout::Mono => 1,
            ChannelLayout::Stereo => 2,
            ChannelLayout::Custom(n) => *n,
        }
    }
}

/// Describes an audio stream's format (for both PCM and DSD).
#[derive(Debug, Clone)]
pub enum StreamInfo {
    Pcm(PcmInfo),
    Dsd(DsdInfo),
}

/// A PCM stream's format.
#[derive(Debug, Clone)]
pub struct PcmInfo {
    pub sample_rate: u32,
    pub channels: u16,
    pub sample_format: SampleFormat,
    pub total_frames: Option<u64>,
    pub bits_per_sample: u16,
}

/// A DSD stream's format.
#[derive(Debug, Clone)]
pub struct DsdInfo {
    /// DSD sample rate in Hz (e.g. 2_822_400 for DSD64).
    pub sample_rate: u32,
    pub channels: u16,
    /// Bits per DSD sample (1 for standard DSD, 8 for packed).
    pub bits_per_sample: u16,
    /// Total DSD bytes per channel (not frames).
    pub total_bytes_per_ch: Option<u64>,
}

impl StreamInfo {
    /// The channel count of the stream.
    pub fn channels(&self) -> (n: u16)
        ensures
            n == match *self {
                StreamInfo::Pcm(i) => i.channels,
                StreamInfo::Dsd(i) => i.channels,
            },
    {
        match self {
            StreamInfo::Pcm(i) => i.channels,
            StreamInfo::Dsd(i) => i.channels,
        }
    }

    /// Whether the stream is DSD.
    pub fn is_dsd(&self) -> (b: bool)
        ensures
            b <==> *self is Dsd,
    {
        matches!(self, StreamInfo::Dsd(_))
    }
}

/// Information returned after probing a stream.
#[derive(Debug, Clone)]
pub struct CodecInfo {
    pub stream: StreamInfo,
    pub format_name: &'static str,
}

/// PCM samples as decoded from a file: interleaved, each sample stored
/// little-endian in its format's width.
#[derive(Debug, Clone)]
pub struct PcmData {
    pub bytes: Vec<u8>,
    pub format: SampleFormat,
    pub channels: u16,
    pub sample_rate: u32,
}

/// Decoded audio data — either PCM or raw DSD bytes.
#[derive(Debug)]
pub enum AudioData {
    /// PCM samples.
    Pcm(PcmData),
    /// Raw DSD data (interleaved channels).
    Dsd { data: Vec<u8>, sample_rate: u32, channels: u16 },
}

} // verus!
