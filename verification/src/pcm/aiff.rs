//! AIFF (Audio Interchange File Format) decoder.
//!
//! Uncompressed PCM AIFF files with 8/16/24/32-bit samples. AIFF stores
//! samples big-endian; AIFF-C (`AIFC`, taken as `sowt`) stores them
//! little-endian. Decoded samples come out little-endian.
use crate::bytes::{be16, be32, be64, copy_bytes, has_tag, read_be_u16, read_be_u32, read_be_u64, tag_at};
use crate::error::{ChimeError, DataFault, FormatFault};
use crate::sample::SampleFormat;
use crate::stream::{AudioData, CodecInfo, PcmData, PcmInfo, StreamInfo};
use vstd::prelude::*;

verus! {

/// The tag `FORM`.
pub const TAG_FORM: [u8; 4] = [0x46, 0x4f, 0x52, 0x4d];

/// The tag `AIFF`.
pub const TAG_AIFF: [u8; 4] = [0x41, 0x49, 0x46, 0x46];

/// The tag `AIFC`.
pub const TAG_AIFC: [u8; 4] = [0x41, 0x49, 0x46, 0x43];

/// The tag `COMM`.
pub const TAG_COMM: [u8; 4] = [0x43, 0x4f, 0x4d, 0x4d];

/// The tag `SSND`.
pub const TAG_SSND: [u8; 4] = [0x53, 0x53, 0x4e, 0x44];

/// The larger of `v` and 1.
pub open spec fn at_least_one(v: u32) -> u32 {
    if v < 1 {
        1
    } else {
        v
    }
}

/// The sample rate read from an 80-bit extended float, from its exponent
/// (sign bit included) and mantissa, with `exp = exponent - 16446` and at
/// least 1 in each case but the first:
/// - zero for a zero exponent;
/// - for rates from 1 Hz up to `u32::MAX` (exponents 16383 to 16414), the
///   mantissa shifted right by `-exp`;
/// - for exponents 16415 to 16445, the top bit of the mantissa shifted
///   right by `-exp` (the rate would not fit in 32 bits);
/// - for exponents 16446 to 16509, the mantissa shifted right by
///   `63 - exp`, cut to 32 bits;
/// - refused for every other exponent (negative, or below 1 Hz, or
///   beyond what the shifts reach).
pub open spec fn extended_rate(exponent: u16, mantissa: u64) -> Result<u32, ChimeError> {
    if exponent == 0 {
        Ok(0)
    } else if 16383 <= exponent <= 16414 {
        Ok(at_least_one((mantissa >> ((16446 - exponent) as u64)) as u32))
    } else if 16415 <= exponent <= 16445 {
        Ok(at_least_one(((mantissa >> 63u64) as u32) >> ((16446 - exponent) as u32)))
    } else if 16446 <= exponent <= 16509 {
        Ok(at_least_one((mantissa >> ((16509 - exponent) as u64)) as u32))
    } else {
        Err(ChimeError::InvalidData(DataFault::AiffSampleRate))
    }
}

/// Reads a sample rate stored as an 80-bit SANE extended float, from its
/// exponent and mantissa.
fn read_extended(f: &[u8], pos: usize) -> (r: Result<u32, ChimeError>)
    requires
        pos + 10 <= f.len(),
    ensures
        r == extended_rate(be16(f@, pos as int) as u16, be64(f@, pos + 2) as u64),
{
    let exponent = read_be_u16(f, pos);
    let mantissa = read_be_u64(f, pos + 2);
    if exponent == 0 {
        return Ok(0);
    }
    let v: u32 = if 16383 <= exponent && exponent <= 16414 {
        let w = mantissa >> ((16446 - exponent) as u64);
        assert(w <= 0xFFFF_FFFF) by (bit_vector)
            requires
                w == mantissa >> ((16446 - exponent) as u64),
                16383 <= exponent <= 16414,
        ;
        w as u32
    } else if 16415 <= exponent && exponent <= 16445 {
        let top = (mantissa >> 63u64) as u32;
        top >> ((16446 - exponent) as u32)
    } else if 16446 <= exponent && exponent <= 16509 {
        (#[verifier::truncate] ((mantissa >> ((16509 - exponent) as u64)) as u32))
    } else {
        return Err(ChimeError::InvalidData(DataFault::AiffSampleRate));
    };
    if v < 1 {
        Ok(1)
    } else {
        Ok(v)
    }
}

/// What a scan of AIFF chunks has found so far.
pub struct AiffScan {
    pub channels: u16,
    pub sample_rate: u32,
    pub bits_per_sample: u16,
    pub sample_frames: u32,
    pub data_offset: u64,
    pub data_size: u32,
    /// Whether sample data is big-endian (true for AIFF, false for AIFF-C).
    pub big_endian: bool,
    pub found_comm: bool,
    pub found_ssnd: bool,
}

/// A measure of how far position `p` is from the end of `f`.
pub open spec fn room(f: Seq<u8>, p: int) -> nat {
    if p <= f.len() {
        (f.len() - p + 1) as nat
    } else {
        0
    }
}

/// The chunks of an AIFF file from byte `pos`. A `COMM` chunk gives the
/// channels, frames, width and rate; the `SSND` chunk gives the sample data
/// and ends the scan; every other chunk, and `COMM` too, is passed by its
/// size, padded to an even length. The scan also ends where the file ends
/// before a chunk id.
pub open spec fn aiff_chunks(f: Seq<u8>, pos: int, st: AiffScan) -> Result<AiffScan, ChimeError>
    decreases room(f, pos),
{
    if pos < 0 || pos + 4 > f.len() {
        Ok(st)
    } else if pos + 8 > f.len() {
        Err(ChimeError::Io)
    } else {
        let size = be32(f, pos + 4);
        let cds = pos + 8;
        if has_tag(f, pos, TAG_COMM) {
            if cds + 18 > f.len() {
                Err(ChimeError::Io)
            } else {
                match extended_rate(be16(f, cds + 8) as u16, be64(f, cds + 10) as u64) {
                    Err(e) => Err(e),
                    Ok(rate) => aiff_chunks(
                        f,
                        cds + size + size % 2,
                        AiffScan {
                            channels: be16(f, cds) as u16,
                            sample_frames: be32(f, cds + 2) as u32,
                            bits_per_sample: be16(f, cds + 6) as u16,
                            sample_rate: rate,
                            found_comm: true,
                            ..st
                        },
                    ),
                }
            }
        } else if has_tag(f, pos, TAG_SSND) {
            if cds + 8 > f.len() {
                Err(ChimeError::Io)
            } else {
                Ok(
                    AiffScan {
                        data_offset: (cds + 8 + be32(f, cds)) as u64,
                        data_size: if size >= 8 {
                            (size - 8) as u32
                        } else {
                            0
                        },
                        found_ssnd: true,
                        ..st
                    },
                )
            }
        } else {
            aiff_chunks(f, cds + size + size % 2, st)
        }
    }
}

/// The outcome of reading the header of an AIFF file.
pub open spec fn aiff_header_outcome(f: Seq<u8>) -> Result<AiffScan, ChimeError> {
    if f.len() < 4 {
        Err(ChimeError::Io)
    } else if !has_tag(f, 0, TAG_FORM) {
        Err(ChimeError::InvalidData(DataFault::NotAiff))
    } else if f.len() < 12 {
        Err(ChimeError::Io)
    } else if !has_tag(f, 8, TAG_AIFF) && !has_tag(f, 8, TAG_AIFC) {
        Err(ChimeError::InvalidData(DataFault::NotAiffType([f[8], f[9], f[10], f[11]])))
    } else {
        let init = AiffScan {
            channels: 0,
            sample_rate: 0,
            bits_per_sample: 0,
            sample_frames: 0,
            data_offset: 0,
            data_size: 0,
            big_endian: has_tag(f, 8, TAG_AIFF),
            found_comm: false,
            found_ssnd: false,
        };
        match aiff_chunks(f, 12, init) {
            Ok(st) => if !st.found_comm || !st.found_ssnd {
                Err(ChimeError::InvalidData(DataFault::AiffMissingChunks))
            } else {
                Ok(st)
            },
            other => other,
        }
    }
}

/// Reads the header of an AIFF file.
pub fn read_aiff_header(f: &[u8]) -> (r: Result<AiffScan, ChimeError>)
    requires
        f@.len() <= isize::MAX,
    ensures
        aiff_header_outcome(f@) == r,
{
    if f.len() < 4 {
        return Err(ChimeError::Io);
    }
    if !tag_at(f, 0, TAG_FORM) {
        return Err(ChimeError::InvalidData(DataFault::NotAiff));
    }
    if f.len() < 12 {
        return Err(ChimeError::Io);
    }
    let big_endian = if tag_at(f, 8, TAG_AIFF) {
        true
    } else if tag_at(f, 8, TAG_AIFC) {
        false
    } else {
        return Err(ChimeError::InvalidData(DataFault::NotAiffType([f[8], f[9], f[10], f[11]])));
    };
    let mut st = AiffScan {
        channels: 0,
        sample_rate: 0,
        bits_per_sample: 0,
        sample_frames: 0,
        data_offset: 0,
        data_size: 0,
        big_endian,
        found_comm: false,
        found_ssnd: false,
    };
    let ghost whole = aiff_chunks(f@, 12, st);
    let len = f.len() as u64;
    let mut pos: u64 = 12;
    loop
        invariant_except_break
            whole == aiff_chunks(f@, pos as int, st),
        invariant
            len == f@.len(),
            f.len() == f@.len(),
            f@.len() <= isize::MAX,
            aiff_header_outcome(f@) == match whole {
                Ok(s) => if !s.found_comm || !s.found_ssnd {
                    Err(ChimeError::InvalidData(DataFault::AiffMissingChunks))
                } else {
                    Ok(s)
                },
                other => other,
            },
        ensures
            whole == Ok::<AiffScan, ChimeError>(st),
        decreases room(f@, pos as int),
    {
        if pos > len || len - pos < 4 {
            break;
        }
        if len - pos < 8 {
            return Err(ChimeError::Io);
        }
        let p = pos as usize;
        let chunk_size = read_be_u32(f, p + 4);
        let cds = pos + 8;
        if tag_at(f, p, TAG_COMM) {
            if len - cds < 18 {
                return Err(ChimeError::Io);
            }
            let c = cds as usize;
            let channels = read_be_u16(f, c);
            let sample_frames = read_be_u32(f, c + 2);
            let bits_per_sample = read_be_u16(f, c + 6);
            let sample_rate = read_extended(f, c + 8)?;
            st = AiffScan {
                channels,
                sample_frames,
                bits_per_sample,
                sample_rate,
                found_comm: true,
                ..st
            };
            let skip = chunk_size as u64 + (chunk_size % 2) as u64;
            if skip > len - cds {
                assert(aiff_chunks(f@, cds + skip, st) == Ok::<AiffScan, ChimeError>(st));
                break;
            }
            pos = cds + skip;
        } else if tag_at(f, p, TAG_SSND) {
            if len - cds < 8 {
                return Err(ChimeError::Io);
            }
            let c = cds as usize;
            let offset = read_be_u32(f, c);
            st = AiffScan {
                data_offset: cds + 8 + offset as u64,
                data_size: chunk_size.saturating_sub(8),
                found_ssnd: true,
                ..st
            };
            break;
        } else {
            let skip = chunk_size as u64 + (chunk_size % 2) as u64;
            if skip > len - cds {
                assert(aiff_chunks(f@, cds + skip, st) == Ok::<AiffScan, ChimeError>(st));
                break;
            }
            pos = cds + skip;
        }
    }
    if !st.found_comm || !st.found_ssnd {
        return Err(ChimeError::InvalidData(DataFault::AiffMissingChunks));
    }
    Ok(st)
}

/// The sample format of an AIFF sample width.
pub open spec fn aiff_format(bits: u16) -> Result<SampleFormat, ChimeError> {
    if bits == 8 {
        Ok(SampleFormat::U8)
    } else if bits == 16 {
        Ok(SampleFormat::I16)
    } else if bits == 24 {
        Ok(SampleFormat::I24)
    } else if bits == 32 {
        Ok(SampleFormat::I32)
    } else {
        Err(ChimeError::UnsupportedFormat(FormatFault::AiffBits(bits)))
    }
}

/// The sample format of an AIFF sample width: integers of 8, 16, 24 or 32
/// bits.
pub fn aiff_to_sample_format(bits: u16) -> (r: Result<SampleFormat, ChimeError>)
    ensures
        r == aiff_format(bits),
{
    match bits {
        8 => Ok(SampleFormat::U8),
        16 => Ok(SampleFormat::I16),
        24 => Ok(SampleFormat::I24),
        32 => Ok(SampleFormat::I32),
        _ => Err(ChimeError::UnsupportedFormat(FormatFault::AiffBits(bits))),
    }
}

/// The bytes with each whole `w`-byte sample reversed; a partial sample at
/// the end stays as it is.
pub open spec fn swap_samples(data: Seq<u8>, w: int) -> Seq<u8> {
    Seq::new(
        data.len(),
        |k: int|
            if k < data.len() - (data.len() as int) % w {
                data[(k / w) * w + (w - 1 - k % w)]
            } else {
                data[k]
            },
    )
}

/// Swapping the byte order of the samples twice gives the bytes back.
pub proof fn lemma_swap_samples_twice(data: Seq<u8>, w: int)
    requires
        w > 0,
    ensures
        swap_samples(swap_samples(data, w), w) == data,
{
    let once = swap_samples(data, w);
    let twice = swap_samples(once, w);
    let n = data.len() as int;
    let whole = n - n % w;
    vstd::arithmetic::div_mod::lemma_fundamental_div_mod(n, w);
    vstd::arithmetic::div_mod::lemma_mod_bound(n, w);
    assert forall|k: int| 0 <= k < n implies #[trigger] twice[k] == data[k] by {
        if k < whole {
            let q = k / w;
            let r = k % w;
            vstd::arithmetic::div_mod::lemma_fundamental_div_mod(k, w);
            vstd::arithmetic::div_mod::lemma_mod_bound(k, w);
            vstd::arithmetic::div_mod::lemma_div_pos_is_pos(k, w);
            let m = q * w + (w - 1 - r);
            assert(m < whole) by (nonlinear_arith)
                requires
                    k == w * q + r,
                    0 <= r < w,
                    k < whole,
                    whole == w * (n / w),
                    m == q * w + (w - 1 - r),
            {
                assert(q < n / w) by (nonlinear_arith)
                    requires
                        k == w * q + r,
                        0 <= r < w,
                        k < w * (n / w),
                ;
            }
            vstd::arithmetic::div_mod::lemma_fundamental_div_mod_converse(m, w, q, w - 1 - r);
            assert(m >= 0) by (nonlinear_arith)
                requires
                    q >= 0,
                    w > 0,
                    0 <= r < w,
                    m == q * w + (w - 1 - r),
            ;
            assert(once[m] == data[q * w + (w - 1 - (w - 1 - r))]);
            assert(q * w + r == k) by (nonlinear_arith)
                requires
                    k == w * q + r,
            ;
        }
    }
    assert(twice =~= data);
}

/// Reverses the bytes of each whole `w`-byte sample.
pub fn swap_sample_bytes(data: &[u8], w: usize) -> (out: Vec<u8>)
    requires
        w > 0,
    ensures
        out@ == swap_samples(data@, w as int),
{
    let n = data.len();
    let whole = n / w;
    let mut out: Vec<u8> = Vec::with_capacity(n);
    let mut i: usize = 0;
    proof {
        vstd::arithmetic::div_mod::lemma_fundamental_div_mod(n as int, w as int);
    }
    while i < whole
        invariant
            w > 0,
            n == data@.len(),
            whole == n / w,
            whole * w + (n as int) % (w as int) == n,
            0 <= (n as int) % (w as int) < w,
            i <= whole,
            out@.len() == i * w,
            forall|k: int| 0 <= k < out@.len() ==> out@[k] == swap_samples(data@, w as int)[k],
        decreases whole - i,
    {
        let mut j: usize = 0;
        while j < w
            invariant
                w > 0,
                n == data@.len(),
                whole == n / w,
                whole * w + (n as int) % (w as int) == n,
                0 <= (n as int) % (w as int) < w,
                i < whole,
                j <= w,
                out@.len() == i * w + j,
                forall|k: int| 0 <= k < out@.len() ==> out@[k] == swap_samples(data@, w as int)[k],
            decreases w - j,
        {
            assert(i * w + w <= whole * w) by (nonlinear_arith)
                requires
                    i < whole,
            ;
            proof {
                vstd::arithmetic::div_mod::lemma_fundamental_div_mod_converse(
                    (i * w + j) as int,
                    w as int,
                    i as int,
                    j as int,
                );
            }
            out.push(data[i * w + (w - 1 - j)]);
            j = j + 1;
        }
        assert(i * w + w == (i + 1) * w) by (nonlinear_arith);
        i = i + 1;
    }
    let mut k: usize = whole * w;
    while k < n
        invariant
            w > 0,
            n == data@.len(),
            whole * w + (n as int) % (w as int) == n,
            whole * w <= k <= n,
            out@.len() == k,
            forall|x: int| 0 <= x < out@.len() ==> out@[x] == swap_samples(data@, w as int)[x],
        decreases n - k,
    {
        out.push(data[k]);
        k = k + 1;
    }
    assert(out@ =~= swap_samples(data@, w as int));
    out
}

/// What probing `f` as AIFF gives: `Io` for fewer than four bytes, `NotForm`
/// without the FORM tag, else the rate, channels, format and frame count of
/// the `COMM` chunk, or the error of the header or sample width.
pub open spec fn aiff_probing(f: Seq<u8>, r: Result<CodecInfo, ChimeError>) -> bool {
    if f.len() < 4 {
        r == Err::<CodecInfo, ChimeError>(ChimeError::Io)
    } else if !has_tag(f, 0, TAG_FORM) {
        r == Err::<CodecInfo, ChimeError>(ChimeError::UnsupportedFormat(FormatFault::NotForm))
    } else {
        match r {
            Ok(info) => aiff_header_outcome(f) matches Ok(h) && aiff_format(
                h.bits_per_sample,
            ) matches Ok(fmt) && info.format_name@ == "AIFF"@ && info.stream
                == StreamInfo::Pcm(
                PcmInfo {
                    sample_rate: h.sample_rate,
                    channels: h.channels,
                    sample_format: fmt,
                    total_frames: Some(h.sample_frames as u64),
                    bits_per_sample: h.bits_per_sample,
                },
            ),
            Err(e) => aiff_header_outcome(f) == Err::<AiffScan, ChimeError>(e) || (
            aiff_header_outcome(f) matches Ok(h) && aiff_format(h.bits_per_sample)
                == Err::<SampleFormat, ChimeError>(e)),
        }
    }
}

/// What decoding `f` as AIFF gives: the bytes of its `SSND` chunk, each sample turned little-
/// endian where the file is big-endian, with the format, channels and rate of its `COMM` chunk;
/// or the error of its header, of its sample width, or `Io` where the data runs past the end of
/// `f`.
pub open spec fn aiff_decoding(f: Seq<u8>, r: Result<AudioData, ChimeError>) -> bool {
    match r {
        Ok(a) => aiff_header_outcome(f) matches Ok(h) && aiff_format(
            h.bits_per_sample,
        ) matches Ok(fmt) && h.data_offset + h.data_size <= f.len() && a
            == AudioData::Pcm(
            PcmData {
                bytes: a->Pcm_0.bytes,
                format: fmt,
                channels: h.channels,
                sample_rate: h.sample_rate,
            },
        ) && a->Pcm_0.bytes@ == ({
            let raw = f.subrange(h.data_offset as int, h.data_offset + h.data_size);
            if h.big_endian {
                swap_samples(raw, fmt.width() as int)
            } else {
                raw
            }
        }),
        Err(e) => aiff_header_outcome(f) == Err::<AiffScan, ChimeError>(e) || (
        aiff_header_outcome(f) matches Ok(h) && (aiff_format(h.bits_per_sample)
            == Err::<SampleFormat, ChimeError>(e) || (aiff_format(h.bits_per_sample) is Ok
            && e == ChimeError::Io && h.data_offset + h.data_size > f.len()))),
    }
}

/// The inputs on which decoding AIFF is defined: any slice, whose length
/// is at most `isize::MAX`.
pub open spec fn aiff_decodable(f: Seq<u8>) -> bool {
    f.len() <= isize::MAX
}

/// Whether `f` is an AIFF file that this library decodes: its header reads and names a
/// supported sample width.
pub open spec fn aiff_accepts(f: Seq<u8>) -> bool {
    aiff_header_outcome(f) matches Ok(h) && aiff_format(h.bits_per_sample) is Ok
}

/// Probing and decoding agree: where the probe succeeds, decoding gives
/// the rate, channels and sample format that the probe described, or fails
/// only because the data runs past the end of the file.
pub proof fn lemma_aiff_probe_agrees_with_decode(
    f: Seq<u8>,
    p: Result<CodecInfo, ChimeError>,
    d: Result<AudioData, ChimeError>,
)
    requires
        aiff_probing(f, p),
        aiff_decoding(f, d),
        p is Ok,
    ensures
        match (p, d) {
            (Ok(info), Ok(AudioData::Pcm(x))) => info.stream matches StreamInfo::Pcm(i)
                && i.sample_rate == x.sample_rate && i.channels == x.channels && i.sample_format
                == x.format,
            (Ok(_), Ok(AudioData::Dsd { .. })) => false,
            (Ok(_), Err(e)) => e == ChimeError::Io,
            _ => true,
        },
{
}

/// Decoder of AIFF files.
pub struct AiffDecoder;

impl AiffDecoder {
    /// An AIFF decoder.
    pub fn new() -> (d: Self) {
        AiffDecoder
    }

    /// Human-readable name of this codec.
    pub fn name(&self) -> (s: &'static str)
        ensures
            s@ == "AIFF"@,
    {
        "AIFF"
    }

    /// The stream information of an AIFF file: its rate, channels, sample
    /// format and width, and its sample frames.
    pub fn probe(&self, f: &[u8]) -> (r: Result<CodecInfo, ChimeError>)
        requires
            f@.len() <= isize::MAX,
        ensures
            r is Ok <==> aiff_accepts(f@),
            aiff_probing(f@, r),
    {
        if f.len() < 4 {
            return Err(ChimeError::Io);
        }
        if !tag_at(f, 0, TAG_FORM) {
            return Err(ChimeError::UnsupportedFormat(FormatFault::NotForm));
        }
        let hdr = read_aiff_header(f)?;
        let fmt = aiff_to_sample_format(hdr.bits_per_sample)?;
        Ok(
            CodecInfo {
                stream: StreamInfo::Pcm(
                    PcmInfo {
                        sample_rate: hdr.sample_rate,
                        channels: hdr.channels,
                        sample_format: fmt,
                        total_frames: Some(hdr.sample_frames as u64),
                        bits_per_sample: hdr.bits_per_sample,
                    },
                ),
                format_name: "AIFF",
            },
        )
    }

    /// Decodes an AIFF file to its sample bytes, little-endian: the samples
    /// of a big-endian AIFF file have their bytes reversed.
    pub fn decode(&self, f: &[u8]) -> (r: Result<AudioData, ChimeError>)
        requires
            aiff_decodable(f@),
        ensures
            aiff_decoding(f@, r),

    {
        let hdr = read_aiff_header(f)?;
        let fmt = aiff_to_sample_format(hdr.bits_per_sample)?;
        let len = f.len() as u64;
        if hdr.data_offset > len || len - hdr.data_offset < hdr.data_size as u64 {
            return Err(ChimeError::Io);
        }
        let pcm_data = copy_bytes(f, hdr.data_offset as usize, hdr.data_size as usize);
        let bytes = if hdr.big_endian {
            swap_sample_bytes(pcm_data.as_slice(), fmt.bytes_per_sample())
        } else {
            pcm_data
        };
        Ok(
            AudioData::Pcm(
                PcmData { bytes, format: fmt, channels: hdr.channels, sample_rate: hdr.sample_rate },
            ),
        )
    }
}

} // verus!
