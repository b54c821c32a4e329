//! Error types for the Chime audio library.
use vstd::prelude::*;

verus! {

/// Why input data was refused as malformed.
#[derive(Debug)]
pub enum DataFault {
    /// SACD track data holds no bytes.
    EmptyAudioData,
    /// A DST frame holds no bytes.
    EmptyDstFrame,
    /// The channel count in a DST frame header differs from the decoder's.
    ChannelMismatch { header: u8, decoder: usize },
    /// A DSF file does not start with `DSD `.
    NotDsf,
    /// The DSF `fmt ` chunk is missing.
    DsfMissingFmt,
    /// The DSF `data` chunk is missing.
    DsfMissingData,
    /// A DFF file does not start with `FRM8`.
    NotDff,
    /// The DFF form type is not `DSD `.
    DffMissingDsdForm,
    /// The DFF `PROP` or `DSD ` chunk is missing.
    DffMissingPropOrDsd,
    /// An ISO image lacks the `SACDMTOC` magic.
    NotSacd,
    /// The SACD master TOC names an unknown disc type.
    UnknownDiscType(u8),
    /// An AIFF file does not start with `FORM`.
    NotAiff,
    /// The AIFF form type is neither `AIFF` nor `AIFC`.
    NotAiffType([u8; 4]),
    /// The AIFF `COMM` or `SSND` chunk is missing.
    AiffMissingChunks,
    /// The AIFF sample rate is negative, below 1 Hz or beyond `u32::MAX`.
    AiffSampleRate,
    /// A WAV file does not start with `RIFF`.
    NotRiff,
    /// A WAV file lacks the `WAVE` form type.
    NotWave,
    /// The WAV `fmt ` or `data` chunk is missing.
    WavMissingChunks,
    /// DSD input to a converter holds no bytes.
    EmptyDsd,
    /// A converter was asked for zero channels.
    ZeroChannels,
    /// Any other reason, described in words.
    Other(String),
}

/// Why a stream is not in a supported format.
#[derive(Debug)]
pub enum FormatFault {
    /// The stream does not start with `FORM`.
    NotForm,
    /// The stream does not start with `RIFF`.
    NotRiff,
    /// An AIFF sample width other than 8, 16, 24 or 32 bits.
    AiffBits(u16),
    /// A WAVE_FORMAT_EXTENSIBLE sample width other than 16, 24 or 32 bits.
    WavExtensible(u16),
    /// A WAV format tag and sample width that no sample format matches.
    WavFormat { tag: u16, bits: u16 },
    /// No decoder recognises the input.
    NoCodec,
    /// Any other reason, described in words.
    Other(String),
}

/// Errors of the Chime audio library.
#[derive(Debug)]
pub enum ChimeError {
    /// The input ended before a read of the given length could be completed.
    Io,
    /// The stream is in a format that is not supported.
    UnsupportedFormat(FormatFault),
    /// The stream is malformed.
    InvalidData(DataFault),
    /// A codec or device failed.
    Codec(String),
    /// The end of the stream was reached.
    EndOfStream,
    /// A feature that is not implemented.
    NotImplemented(String),
}

} // verus!
