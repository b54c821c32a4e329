//! PCM audio codecs: WAV and AIFF.
//!
//! The decoders read a file held in memory; a read past its end fails as a
//! read of a short file does. Decoded samples come out little-endian.
use crate::bytes::{copy_bytes, has_tag, le16, le32, read_le_u16, read_le_u32, tag_at};
use crate::error::{ChimeError, DataFault, FormatFault};
use crate::sample::SampleFormat;
use crate::stream::{AudioData, CodecInfo, PcmData, PcmInfo, StreamInfo};
use vstd::prelude::*;

pub mod aiff;
pub mod aiff_layout;

pub use aiff::AiffDecoder;

verus! {

/// WAV format code of integer PCM.
pub const WAVE_FORMAT_PCM: u16 = 0x0001;

/// WAV format code of IEEE floating point.
pub const WAVE_FORMAT_IEEE_FLOAT: u16 = 0x0003;

/// WAV format code of WAVE_FORMAT_EXTENSIBLE.
pub const WAVE_FORMAT_EXTENSIBLE: u16 = 0xFFFE;

/// The tag `RIFF`.
pub const TAG_RIFF: [u8; 4] = [0x52, 0x49, 0x46, 0x46];

/// The tag `WAVE`.
pub const TAG_WAVE: [u8; 4] = [0x57, 0x41, 0x56, 0x45];

/// The tag `fmt `.
pub const TAG_FMT: [u8; 4] = [0x66, 0x6d, 0x74, 0x20];

/// The tag `data`.
pub const TAG_DATA: [u8; 4] = [0x64, 0x61, 0x74, 0x61];

/// What a scan of WAV chunks has found so far.
pub struct WavScan {
    pub channels: u16,
    pub sample_rate: u32,
    pub bits_per_sample: u16,
    pub format_tag: u16,
    pub data_size: u32,
    pub data_offset: usize,
    pub found_fmt: bool,
    pub found_data: bool,
}

/// A measure of how far position `p` is from the end of `f`.
pub open spec fn room(f: Seq<u8>, p: int) -> nat {
    if p <= f.len() {
        (f.len() - p + 1) as nat
    } else {
        0
    }
}

/// The chunks of a WAV file from byte `pos`: a `fmt ` chunk gives the format
/// (its 16 bytes read, the rest skipped), the `data` chunk gives the sample
/// data and ends the scan, other chunks are skipped. The scan also ends
/// where the file ends before a chunk id.
pub open spec fn wav_chunks(f: Seq<u8>, pos: int, st: WavScan) -> Result<WavScan, ChimeError>
    decreases room(f, pos),
{
    if pos < 0 || pos + 4 > f.len() {
        Ok(st)
    } else if pos + 8 > f.len() {
        Err(ChimeError::Io)
    } else {
        let size = le32(f, pos + 4);
        if has_tag(f, pos, TAG_FMT) {
            let extra = if size > 16 {
                size - 16
            } else {
                0
            };
            if pos + 24 + extra > f.len() {
                Err(ChimeError::Io)
            } else {
                wav_chunks(
                    f,
                    pos + 24 + extra,
                    WavScan {
                        format_tag: le16(f, pos + 8) as u16,
                        channels: le16(f, pos + 10) as u16,
                        sample_rate: le32(f, pos + 12) as u32,
                        bits_per_sample: le16(f, pos + 22) as u16,
                        found_fmt: true,
                        ..st
                    },
                )
            }
        } else if has_tag(f, pos, TAG_DATA) {
            Ok(
                WavScan {
                    data_size: size as u32,
                    data_offset: (pos + 8) as usize,
                    found_data: true,
                    ..st
                },
            )
        } else if pos + 8 + size > f.len() {
            Err(ChimeError::Io)
        } else {
            wav_chunks(f, pos + 8 + size, st)
        }
    }
}

/// The outcome of reading the header of a WAV file.
pub open spec fn wav_header_outcome(f: Seq<u8>) -> Result<WavScan, ChimeError> {
    if f.len() < 4 {
        Err(ChimeError::Io)
    } else if !has_tag(f, 0, TAG_RIFF) {
        Err(ChimeError::InvalidData(DataFault::NotRiff))
    } else if f.len() < 12 {
        Err(ChimeError::Io)
    } else if !has_tag(f, 8, TAG_WAVE) {
        Err(ChimeError::InvalidData(DataFault::NotWave))
    } else {
        let init = WavScan {
            channels: 0,
            sample_rate: 0,
            bits_per_sample: 0,
            format_tag: 0,
            data_size: 0,
            data_offset: 0,
            found_fmt: false,
            found_data: false,
        };
        match wav_chunks(f, 12, init) {
            Ok(st) => if !st.found_fmt || !st.found_data {
                Err(ChimeError::InvalidData(DataFault::WavMissingChunks))
            } else {
                Ok(st)
            },
            Err(e) => Err(e),
        }
    }
}

/// The data offset that a scan finds lies within the file.
proof fn lemma_wav_offset(f: Seq<u8>, pos: int, st: WavScan)
    requires
        st.data_offset <= f.len(),
    ensures
        wav_chunks(f, pos, st) matches Ok(s) ==> s.data_offset <= f.len(),
    decreases room(f, pos),
{
    if pos < 0 || pos + 4 > f.len() {
    } else if pos + 8 > f.len() {
    } else {
        let size = le32(f, pos + 4);
        if has_tag(f, pos, TAG_FMT) {
            let extra = if size > 16 {
                size - 16
            } else {
                0
            };
            if pos + 24 + extra <= f.len() {
                lemma_wav_offset(
                    f,
                    pos + 24 + extra,
                    WavScan {
                        format_tag: le16(f, pos + 8) as u16,
                        channels: le16(f, pos + 10) as u16,
                        sample_rate: le32(f, pos + 12) as u32,
                        bits_per_sample: le16(f, pos + 22) as u16,
                        found_fmt: true,
                        ..st
                    },
                );
            }
        } else if !has_tag(f, pos, TAG_DATA) && pos + 8 + size <= f.len() {
            lemma_wav_offset(f, pos + 8 + size, st);
        }
    }
}

/// Reads the header of a WAV file.
pub fn read_wav_header(f: &[u8]) -> (r: Result<WavScan, ChimeError>)
    ensures
        r == wav_header_outcome(f@),
        r matches Ok(h) ==> h.data_offset <= f@.len(),
{
    if f.len() < 4 {
        return Err(ChimeError::Io);
    }
    if !tag_at(f, 0, TAG_RIFF) {
        return Err(ChimeError::InvalidData(DataFault::NotRiff));
    }
    if f.len() < 12 {
        return Err(ChimeError::Io);
    }
    if !tag_at(f, 8, TAG_WAVE) {
        return Err(ChimeError::InvalidData(DataFault::NotWave));
    }
    let mut st = WavScan {
        channels: 0,
        sample_rate: 0,
        bits_per_sample: 0,
        format_tag: 0,
        data_size: 0,
        data_offset: 0,
        found_fmt: false,
        found_data: false,
    };
    let ghost whole = wav_chunks(f@, 12, st);
    let len = f.len();
    let mut pos: usize = 12;
    loop
        invariant_except_break
            whole == wav_chunks(f@, pos as int, st),
        invariant
            len == f.len(),
            f@.len() >= 12,
            wav_header_outcome(f@) == match whole {
                Ok(st) => if !st.found_fmt || !st.found_data {
                    Err(ChimeError::InvalidData(DataFault::WavMissingChunks))
                } else {
                    Ok(st)
                },
                Err(e) => Err(e),
            },
            whole == wav_chunks(f@, 12, WavScan {
                channels: 0,
                sample_rate: 0,
                bits_per_sample: 0,
                format_tag: 0,
                data_size: 0,
                data_offset: 0,
                found_fmt: false,
                found_data: false,
            }),
        ensures
            whole == Ok::<WavScan, ChimeError>(st),
        decreases room(f@, pos as int),
    {
        if pos > len || len - pos < 4 {
            break;
        }
        if len - pos < 8 {
            return Err(ChimeError::Io);
        }
        let chunk_size = read_le_u32(f, pos + 4);
        if tag_at(f, pos, TAG_FMT) {
            if len - pos < 24 {
                return Err(ChimeError::Io);
            }
            let format_tag = read_le_u16(f, pos + 8);
            let channels = read_le_u16(f, pos + 10);
            let sample_rate = read_le_u32(f, pos + 12);
            let bits_per_sample = read_le_u16(f, pos + 22);
            let extra = chunk_size.saturating_sub(16);
            if len - (pos + 24) < extra as usize {
                return Err(ChimeError::Io);
            }
            st = WavScan {
                format_tag,
                channels,
                sample_rate,
                bits_per_sample,
                found_fmt: true,
                ..st
            };
            pos = pos + 24 + extra as usize;
        } else if tag_at(f, pos, TAG_DATA) {
            st = WavScan { data_size: chunk_size, data_offset: pos + 8, found_data: true, ..st };
            break;
        } else {
            if len - (pos + 8) < chunk_size as usize {
                return Err(ChimeError::Io);
            }
            pos = pos + 8 + chunk_size as usize;
        }
    }
    if !st.found_fmt || !st.found_data {
        return Err(ChimeError::InvalidData(DataFault::WavMissingChunks));
    }
    proof {
        lemma_wav_offset(f@, 12, WavScan {
            channels: 0,
            sample_rate: 0,
            bits_per_sample: 0,
            format_tag: 0,
            data_size: 0,
            data_offset: 0,
            found_fmt: false,
            found_data: false,
        });
    }
    Ok(st)
}

/// The sample format of a WAV format tag and sample width, if any.
pub open spec fn wav_format(tag: u16, bits: u16) -> Result<SampleFormat, ChimeError> {
    if tag == WAVE_FORMAT_PCM && bits == 8 {
        Ok(SampleFormat::U8)
    } else if tag == WAVE_FORMAT_PCM && bits == 16 {
        Ok(SampleFormat::I16)
    } else if tag == WAVE_FORMAT_PCM && bits == 24 {
        Ok(SampleFormat::I24)
    } else if tag == WAVE_FORMAT_PCM && bits == 32 {
        Ok(SampleFormat::I32)
    } else if tag == WAVE_FORMAT_IEEE_FLOAT && bits == 32 {
        Ok(SampleFormat::F32)
    } else if tag == WAVE_FORMAT_IEEE_FLOAT && bits == 64 {
        Ok(SampleFormat::F64)
    } else if tag == WAVE_FORMAT_EXTENSIBLE {
        if bits == 16 {
            Ok(SampleFormat::I16)
        } else if bits == 24 {
            Ok(SampleFormat::I24)
        } else if bits == 32 {
            Ok(SampleFormat::F32)
        } else {
            Err(ChimeError::UnsupportedFormat(FormatFault::WavExtensible(bits)))
        }
    } else {
        Err(ChimeError::UnsupportedFormat(FormatFault::WavFormat { tag, bits }))
    }
}

/// The sample format of a WAV format tag and sample width. An extensible
/// format is taken by its width alone: 16 and 24 bits as integers, 32 as
/// float.
pub fn wav_format_to_sample_format(tag: u16, bits: u16) -> (r: Result<SampleFormat, ChimeError>)
    ensures
        r == wav_format(tag, bits),
{
    if tag == WAVE_FORMAT_PCM && bits == 8 {
        Ok(SampleFormat::U8)
    } else if tag == WAVE_FORMAT_PCM && bits == 16 {
        Ok(SampleFormat::I16)
    } else if tag == WAVE_FORMAT_PCM && bits == 24 {
        Ok(SampleFormat::I24)
    } else if tag == WAVE_FORMAT_PCM && bits == 32 {
        Ok(SampleFormat::I32)
    } else if tag == WAVE_FORMAT_IEEE_FLOAT && bits == 32 {
        Ok(SampleFormat::F32)
    } else if tag == WAVE_FORMAT_IEEE_FLOAT && bits == 64 {
        Ok(SampleFormat::F64)
    } else if tag == WAVE_FORMAT_EXTENSIBLE {
        if bits == 16 {
            Ok(SampleFormat::I16)
        } else if bits == 24 {
            Ok(SampleFormat::I24)
        } else if bits == 32 {
            Ok(SampleFormat::F32)
        } else {
            Err(ChimeError::UnsupportedFormat(FormatFault::WavExtensible(bits)))
        }
    } else {
        Err(ChimeError::UnsupportedFormat(FormatFault::WavFormat { tag, bits }))
    }
}

/// What probing `f` as WAV gives: `Io` for fewer than four bytes, `NotRiff`
/// without the RIFF tag, else the rate, channels, format and frame count of
/// the header, or the error of its header or format.
pub open spec fn wav_probing(f: Seq<u8>, r: Result<CodecInfo, ChimeError>) -> bool {
    if f.len() < 4 {
        r == Err::<CodecInfo, ChimeError>(ChimeError::Io)
    } else if !has_tag(f, 0, TAG_RIFF) {
        r == Err::<CodecInfo, ChimeError>(ChimeError::UnsupportedFormat(FormatFault::NotRiff))
    } else {
        match r {
            Ok(info) => wav_header_outcome(f) matches Ok(h) && wav_format(
                h.format_tag,
                h.bits_per_sample,
            ) matches Ok(fmt) && info.format_name@ == "WAV"@ && info.stream == StreamInfo::Pcm(
                PcmInfo {
                    sample_rate: h.sample_rate,
                    channels: h.channels,
                    sample_format: fmt,
                    total_frames: Some(
                        ((h.data_size as int) / ((h.bits_per_sample / 8) as int) / (
                        h.channels as int)) as u64,
                    ),
                    bits_per_sample: h.bits_per_sample,
                },
            ),
            Err(e) => wav_header_outcome(f) == Err::<WavScan, ChimeError>(e) || (
            wav_header_outcome(f) matches Ok(h) && wav_format(h.format_tag, h.bits_per_sample)
                == Err::<SampleFormat, ChimeError>(e)),
        }
    }
}

/// What decoding `f` as WAV gives: the bytes of its `data` chunk with the format, channels and
/// rate of its `fmt ` chunk; or the error of its header, of its format, or `Io` where the data
/// runs past the end of `f`.
pub open spec fn wav_decoding(f: Seq<u8>, r: Result<AudioData, ChimeError>) -> bool {
    match r {
        Ok(a) => wav_header_outcome(f) matches Ok(h) && wav_format(
            h.format_tag,
            h.bits_per_sample,
        ) matches Ok(fmt) && h.data_offset + h.data_size <= f.len() && a
            == AudioData::Pcm(
            PcmData {
                bytes: a->Pcm_0.bytes,
                format: fmt,
                channels: h.channels,
                sample_rate: h.sample_rate,
            },
        ) && a->Pcm_0.bytes@ == f.subrange(
            h.data_offset as int,
            h.data_offset + h.data_size,
        ),
        Err(e) => wav_header_outcome(f) == Err::<WavScan, ChimeError>(e) || (
        wav_header_outcome(f) matches Ok(h) && (wav_format(h.format_tag, h.bits_per_sample)
            == Err::<SampleFormat, ChimeError>(e) || (wav_format(
            h.format_tag,
            h.bits_per_sample,
        ) is Ok && e == ChimeError::Io && h.data_offset + h.data_size > f.len()))),
    }
}

/// Whether `f` is a WAV file that this library decodes: its header reads and names a supported
/// format.
pub open spec fn wav_accepts(f: Seq<u8>) -> bool {
    wav_header_outcome(f) matches Ok(h) && wav_format(h.format_tag, h.bits_per_sample) is Ok
}

/// The inputs on which probing WAV is defined: a file that this library
/// decodes names at least one channel.
pub open spec fn wav_probeable(f: Seq<u8>) -> bool {
    wav_header_outcome(f) matches Ok(h) ==> (wav_format(h.format_tag, h.bits_per_sample) is Ok
        ==> h.channels != 0)
}

/// Probing and decoding agree: where the probe succeeds, decoding gives
/// the rate, channels and sample format that the probe described, or fails
/// only because the data runs past the end of the file.
pub proof fn lemma_wav_probe_agrees_with_decode(
    f: Seq<u8>,
    p: Result<CodecInfo, ChimeError>,
    d: Result<AudioData, ChimeError>,
)
    requires
        wav_probing(f, p),
        wav_decoding(f, d),
        p is Ok,
    ensures
        match (p, d) {
            (Ok(info), Ok(AudioData::Pcm(x))) => info.stream matches StreamInfo::Pcm(i)
                && i.sample_rate == x.sample_rate && i.channels == x.channels && i.sample_format
                == x.format,
            (Ok(_), Ok(AudioData::Dsd { .. })) => false,
            (Ok(_), Err(e)) => e == ChimeError::Io,
            _ => true,
        },
{
}

/// The WAV formats taken: PCM at 8, 16, 24 and 32 bits, float at 32 and 64
/// bits, and extensible at 16, 24 and 32 bits. Every format taken is as
/// wide as the sample width that names it, and is a float format exactly
/// for the float tag and for 32-bit extensible data.
pub proof fn lemma_wav_format_matches_width(tag: u16, bits: u16)
    ensures
        wav_format(tag, bits) is Ok <==> (tag == 1 && (bits == 8 || bits == 16 || bits == 24
            || bits == 32)) || (tag == 3 && (bits == 32 || bits == 64)) || (tag == 0xFFFE && (bits
            == 16 || bits == 24 || bits == 32)),
        wav_format(tag, bits) matches Ok(fmt) ==> {
            &&& fmt.width() * 8 == bits
            &&& (fmt == SampleFormat::F32 || fmt == SampleFormat::F64) <==> (tag == 3 || (tag
                == 0xFFFE && bits == 32))
        },
{
}

/// A decoded WAV file holds samples as wide as the sample width of its
/// header (so 24-bit extensible data decodes as 24-bit samples), of a
/// float format exactly where the header names float data.
pub proof fn lemma_wav_decoded_width(f: Seq<u8>, r: Result<AudioData, ChimeError>)
    requires
        wav_decoding(f, r),
        r is Ok,
    ensures
        r matches Ok(AudioData::Pcm(x)) && wav_header_outcome(f) matches Ok(h) && x.format.width()
            * 8 == h.bits_per_sample && ((x.format == SampleFormat::F32 || x.format
            == SampleFormat::F64) <==> (h.format_tag == 3 || (h.format_tag == 0xFFFE
            && h.bits_per_sample == 32))),
{
    if let Ok(AudioData::Pcm(x)) = r {
        if let Ok(h) = wav_header_outcome(f) {
            lemma_wav_format_matches_width(h.format_tag, h.bits_per_sample);
        }
    }
}

/// Decoder of WAV files.
pub struct WavDecoder;

impl WavDecoder {
    /// A WAV decoder.
    pub fn new() -> (d: Self) {
        WavDecoder
    }

    /// Human-readable name of this codec.
    pub fn name(&self) -> (s: &'static str)
        ensures
            s@ == "WAV"@,
    {
        "WAV"
    }

    /// The stream information of a WAV file: its rate, channels, sample
    /// format and width, and the frames that its data holds.
    pub fn probe(&self, f: &[u8]) -> (r: Result<CodecInfo, ChimeError>)
        requires
            wav_probeable(f@),
        ensures
            r is Ok <==> wav_accepts(f@),
            wav_probing(f@, r),
    {
        if f.len() < 4 {
            return Err(ChimeError::Io);
        }
        if !tag_at(f, 0, TAG_RIFF) {
            return Err(ChimeError::UnsupportedFormat(FormatFault::NotRiff));
        }
        let hdr = read_wav_header(f)?;
        let fmt = wav_format_to_sample_format(hdr.format_tag, hdr.bits_per_sample)?;
        let bytes_per = hdr.bits_per_sample as u64 / 8;
        Ok(
            CodecInfo {
                stream: StreamInfo::Pcm(
                    PcmInfo {
                        sample_rate: hdr.sample_rate,
                        channels: hdr.channels,
                        sample_format: fmt,
                        total_frames: Some(hdr.data_size as u64 / bytes_per / hdr.channels as u64),
                        bits_per_sample: hdr.bits_per_sample,
                    },
                ),
                format_name: "WAV",
            },
        )
    }

    /// Decodes a WAV file to its sample bytes (little-endian, as stored),
    /// with their format, channels and rate.
    pub fn decode(&self, f: &[u8]) -> (r: Result<AudioData, ChimeError>)
        ensures
            wav_decoding(f@, r),

    {
        let hdr = read_wav_header(f)?;
        let fmt = wav_format_to_sample_format(hdr.format_tag, hdr.bits_per_sample)?;
        if f.len() - hdr.data_offset < hdr.data_size as usize {
            return Err(ChimeError::Io);
        }
        let pcm_data = copy_bytes(f, hdr.data_offset, hdr.data_size as usize);
        Ok(
            AudioData::Pcm(
                PcmData {
                    bytes: pcm_data,
                    format: fmt,
                    channels: hdr.channels,
                    sample_rate: hdr.sample_rate,
                },
            ),
        )
    }
}

} // verus!
