//! Chime: decoding logic for PCM (WAV, AIFF) and DSD (DSF, DFF, SACD, DST) audio.
use vstd::prelude::*;

pub mod bytes;
pub mod detect;
pub mod dsd;
pub mod dsp;
pub mod dst;
pub mod error;
pub mod output;
pub mod pcm;
pub mod sample;
pub mod stream;

pub use error::{ChimeError, DataFault, FormatFault};
pub use sample::SampleFormat;
pub use stream::{AudioData, ChannelLayout, CodecInfo, DsdInfo, PcmData, PcmInfo, StreamInfo};

