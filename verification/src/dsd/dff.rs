//! DFF/DSDIFF (Philips) decoder.
//!
//! A DFF file is a `FRM8` form of type `DSD ` holding chunks, each a 4-byte
//! id and a big-endian 8-byte size: `PROP` (with sub-chunks `FS  ` for the
//! sample rate and `CHNL` for the channel count) and `DSD ` (the data).
use crate::bytes::{be16, be32, be64, copy_bytes, has_tag, read_be_u16, read_be_u32, read_be_u64, tag_at};
use crate::error::{ChimeError, DataFault};
use crate::stream::{AudioData, CodecInfo, DsdInfo, StreamInfo};
use vstd::prelude::*;

verus! {

/// The tag `FRM8`.
pub const TAG_FRM8: [u8; 4] = [0x46, 0x52, 0x4d, 0x38];

/// The tag `DSD `.
pub const TAG_DSD: [u8; 4] = [0x44, 0x53, 0x44, 0x20];

/// The tag `PROP`.
pub const TAG_PROP: [u8; 4] = [0x50, 0x52, 0x4f, 0x50];

/// The tag `SND `.
pub const TAG_SND: [u8; 4] = [0x53, 0x4e, 0x44, 0x20];

/// The tag `FS  `.
pub const TAG_FS: [u8; 4] = [0x46, 0x53, 0x20, 0x20];

/// The tag `CHNL`.
pub const TAG_CHNL: [u8; 4] = [0x43, 0x48, 0x4e, 0x4c];

/// What a scan of DFF chunks has found so far.
pub struct DffScan {
    pub channels: u16,
    pub sample_rate: u32,
    pub data_size: u64,
    pub data_offset: u64,
    pub found_prop: bool,
}

/// A measure of how far position `p` is from the end of `f`.
pub open spec fn room(f: Seq<u8>, p: int) -> nat {
    if p <= f.len() {
        (f.len() - p + 1) as nat
    } else {
        0
    }
}

/// The sub-chunks of a `PROP` chunk from byte `p` to `end`: the channel
/// count and sample rate they set, the position after them, and whether
/// the file ended before a sub-chunk id. `None` where a position overflows.
pub open spec fn dff_props(f: Seq<u8>, p: int, end: int, channels: u16, rate: u32) -> Option<
    Result<(int, u16, u32, bool), ChimeError>,
>
    decreases room(f, p),
{
    if p >= end {
        Some(Ok((p, channels, rate, false)))
    } else if p + 4 > f.len() {
        Some(Ok((p, channels, rate, true)))
    } else if p + 12 > f.len() {
        Some(Err(ChimeError::Io))
    } else {
        let size = be64(f, p + 4);
        let start = p + 12;
        if has_tag(f, p, TAG_FS) && start + 4 > f.len() {
            Some(Err(ChimeError::Io))
        } else if !has_tag(f, p, TAG_FS) && has_tag(f, p, TAG_CHNL) && start + 2 > f.len() {
            Some(Err(ChimeError::Io))
        } else if start + size > u64::MAX {
            None
        } else {
            let rate2 = if has_tag(f, p, TAG_FS) {
                be32(f, start) as u32
            } else {
                rate
            };
            let channels2 = if !has_tag(f, p, TAG_FS) && has_tag(f, p, TAG_CHNL) {
                be16(f, start) as u16
            } else {
                channels
            };
            dff_props(f, start + size, end, channels2, rate2)
        }
    }
}

/// The chunks of a DFF file from byte `pos`, given what was found before:
/// a `PROP` chunk of type `SND ` gives the channel count and sample rate, the
/// `DSD ` chunk gives the data and ends the scan, other chunks are skipped.
/// The scan also ends where the file ends before a chunk id. `None` where a
/// position overflows.
pub open spec fn dff_chunks(f: Seq<u8>, pos: int, st: DffScan) -> Option<Result<DffScan, ChimeError>>
    decreases room(f, pos),
{
    if pos + 4 > f.len() {
        Some(Ok(st))
    } else if pos + 12 > f.len() {
        Some(Err(ChimeError::Io))
    } else {
        let size = be64(f, pos + 4);
        let cds = pos + 12;
        if has_tag(f, pos, TAG_PROP) {
            if cds + 4 > f.len() {
                Some(Err(ChimeError::Io))
            } else if cds + size > u64::MAX {
                None
            } else if !has_tag(f, cds, TAG_SND) {
                dff_chunks(f, cds + size, st)
            } else {
                match dff_props(f, cds + 4, cds + size, st.channels, st.sample_rate) {
                    None => None,
                    Some(Err(e)) => Some(Err(e)),
                    Some(Ok((p, ch, rate, eof))) => {
                        let st2 = DffScan {
                            channels: ch,
                            sample_rate: rate,
                            data_size: st.data_size,
                            data_offset: st.data_offset,
                            found_prop: true,
                        };
                        if eof || p <= pos {
                            Some(Ok(st2))
                        } else {
                            dff_chunks(f, p, st2)
                        }
                    },
                }
            }
        } else if has_tag(f, pos, TAG_DSD) {
            Some(
                Ok(
                    DffScan {
                        channels: st.channels,
                        sample_rate: st.sample_rate,
                        data_size: size as u64,
                        data_offset: cds as u64,
                        found_prop: st.found_prop,
                    },
                ),
            )
        } else if cds + size > u64::MAX {
            None
        } else {
            dff_chunks(f, cds + size, st)
        }
    }
}

/// The outcome of reading the header of a DFF file: `None` where it panics.
pub open spec fn dff_header_outcome(f: Seq<u8>) -> Option<Result<DffScan, ChimeError>> {
    if f.len() < 8 {
        Some(Err(ChimeError::Io))
    } else if !has_tag(f, 4, TAG_FRM8) && !has_tag(f, 0, TAG_FRM8) {
        Some(Err(ChimeError::InvalidData(DataFault::NotDff)))
    } else if f.len() < 16 {
        Some(Err(ChimeError::Io))
    } else if !has_tag(f, 12, TAG_DSD) {
        Some(Err(ChimeError::InvalidData(DataFault::DffMissingDsdForm)))
    } else {
        let init = DffScan {
            channels: 0,
            sample_rate: 0,
            data_size: 0,
            data_offset: 0,
            found_prop: false,
        };
        match dff_chunks(f, 16, init) {
            Some(Ok(st)) => if !st.found_prop || st.data_size == 0 {
                Some(Err(ChimeError::InvalidData(DataFault::DffMissingPropOrDsd)))
            } else {
                Some(Ok(st))
            },
            other => other,
        }
    }
}

/// The header of a DFF file.
pub struct DffHeader {
    pub channels: u16,
    pub sample_rate: u32,
    pub data_size: u64,
    pub data_offset: u64,
}

/// `h` is what the scan `s` found.
pub open spec fn dff_header_is(h: DffHeader, s: DffScan) -> bool {
    &&& h.channels == s.channels
    &&& h.sample_rate == s.sample_rate
    &&& h.data_size == s.data_size
    &&& h.data_offset == s.data_offset
}

/// Reads the `PROP` sub-chunks from `start` to `end`; `None` where a
/// position overflows.
fn read_dff_props(f: &[u8], start: u64, end: u64, channels: u16, rate: u32) -> (r: Option<
    Result<(u64, u16, u32, bool), ChimeError>,
>)
    ensures
        match r {
            None => dff_props(f@, start as int, end as int, channels, rate) is None,
            Some(Ok(t)) => dff_props(f@, start as int, end as int, channels, rate) == Some(
                Ok::<(int, u16, u32, bool), ChimeError>((t.0 as int, t.1, t.2, t.3)),
            ),
            Some(Err(e)) => dff_props(f@, start as int, end as int, channels, rate) == Some(
                Err::<(int, u16, u32, bool), ChimeError>(e),
            ),
        },
{
    let len = f.len() as u64;
    let mut p = start;
    let mut ch = channels;
    let mut sr = rate;
    let ghost whole = dff_props(f@, start as int, end as int, channels, rate);
    loop
        invariant
            len == f@.len(),
            len == f.len(),
            whole == dff_props(f@, start as int, end as int, channels, rate),
            whole == dff_props(f@, p as int, end as int, ch, sr),
        decreases room(f@, p as int),
    {
        if p >= end {
            return Some(Ok((p, ch, sr, false)));
        }
        if p > len || len - p < 4 {
            return Some(Ok((p, ch, sr, true)));
        }
        if len - p < 12 {
            return Some(Err(ChimeError::Io));
        }
        let pu = p as usize;
        let sub_size = read_be_u64(f, pu + 4);
        let sub_start = p + 12;
        if tag_at(f, pu, TAG_FS) {
            if len - sub_start < 4 {
                return Some(Err(ChimeError::Io));
            }
            sr = read_be_u32(f, pu + 12);
        } else if tag_at(f, pu, TAG_CHNL) {
            if len - sub_start < 2 {
                return Some(Err(ChimeError::Io));
            }
            ch = read_be_u16(f, pu + 12);
        }
        if sub_size > u64::MAX - sub_start {
            return None;
        }
        p = sub_start + sub_size;
    }
}

/// Scans the header of a DFF file: `None` where a chunk position
/// overflows 64 bits, which reading the header does not admit.
pub fn scan_dff_header(f: &[u8]) -> (r: Option<Result<DffScan, ChimeError>>)
    ensures
        r == dff_header_outcome(f@),
{
    let len = f.len() as u64;
    if f.len() < 8 {
        return Some(Err(ChimeError::Io));
    }
    if !tag_at(f, 4, TAG_FRM8) && !tag_at(f, 0, TAG_FRM8) {
        return Some(Err(ChimeError::InvalidData(DataFault::NotDff)));
    }
    if f.len() < 16 {
        return Some(Err(ChimeError::Io));
    }
    if !tag_at(f, 12, TAG_DSD) {
        return Some(Err(ChimeError::InvalidData(DataFault::DffMissingDsdForm)));
    }
    let mut st = DffScan {
        channels: 0,
        sample_rate: 0,
        data_size: 0,
        data_offset: 0,
        found_prop: false,
    };
    let ghost whole = dff_chunks(f@, 16, st);
    let mut pos: u64 = 16;
    loop
        invariant_except_break
            whole == dff_chunks(f@, pos as int, st),
        invariant
            len == f@.len(),
            len == f.len(),
            f@.len() >= 16,
            whole == dff_chunks(f@, 16, DffScan {
                channels: 0,
                sample_rate: 0,
                data_size: 0,
                data_offset: 0,
                found_prop: false,
            }),
            dff_header_outcome(f@) == match whole {
                Some(Ok(s)) => if !s.found_prop || s.data_size == 0 {
                    Some(Err(ChimeError::InvalidData(DataFault::DffMissingPropOrDsd)))
                } else {
                    Some(Ok(s))
                },
                other => other,
            },
        ensures
            whole == Some(Ok::<DffScan, ChimeError>(st)),
        decreases room(f@, pos as int),
    {
        if pos > len || len - pos < 4 {
            break;
        }
        if len - pos < 12 {
            return Some(Err(ChimeError::Io));
        }
        let p = pos as usize;
        let chunk_size = read_be_u64(f, p + 4);
        let cds = pos + 12;
        if tag_at(f, p, TAG_PROP) {
            if len - cds < 4 {
                return Some(Err(ChimeError::Io));
            }
            if chunk_size > u64::MAX - cds {
                return None;
            }
            if !tag_at(f, cds as usize, TAG_SND) {
                pos = cds + chunk_size;
            } else {
                let prop_end = cds + chunk_size;
                let (q, ch, sr, eof) = match read_dff_props(
                    f,
                    cds + 4,
                    prop_end,
                    st.channels,
                    st.sample_rate,
                ) {
                    None => {
                        return None;
                    },
                    Some(Err(e)) => {
                        return Some(Err(e));
                    },
                    Some(Ok(t)) => t,
                };
                st = DffScan {
                    channels: ch,
                    sample_rate: sr,
                    data_size: st.data_size,
                    data_offset: st.data_offset,
                    found_prop: true,
                };
                if eof || q <= pos {
                    break;
                }
                pos = q;
            }
        } else if tag_at(f, p, TAG_DSD) {
            st = DffScan {
                channels: st.channels,
                sample_rate: st.sample_rate,
                data_size: chunk_size,
                data_offset: cds,
                found_prop: st.found_prop,
            };
            break;
        } else {
            if chunk_size > u64::MAX - cds {
                return None;
            }
            pos = cds + chunk_size;
        }
    }
    if !st.found_prop || st.data_size == 0 {
        return Some(Err(ChimeError::InvalidData(DataFault::DffMissingPropOrDsd)));
    }
    Some(Ok(st))
}

/// Reads the header of a DFF file.
pub fn read_dff_header(f: &[u8]) -> (r: Result<DffHeader, ChimeError>)
    requires
        dff_header_outcome(f@) is Some,
    ensures
        match r {
            Ok(h) => dff_header_outcome(f@) matches Some(Ok(s)) && dff_header_is(h, s),
            Err(e) => dff_header_outcome(f@) == Some(Err::<DffScan, ChimeError>(e)),
        },
{
    match scan_dff_header(f) {
        Some(Ok(st)) => Ok(
            DffHeader {
                channels: st.channels,
                sample_rate: st.sample_rate,
                data_size: st.data_size,
                data_offset: st.data_offset,
            },
        ),
        Some(Err(e)) => Err(e),
        None => {
            proof {
                assert(false);
            }
            Err(ChimeError::Io)
        },
    }
}

/// What probing `f` as DFF gives: the rate and channels of its `PROP` chunk
/// and its bytes per channel, or the error of its header.
pub open spec fn dff_probing(f: Seq<u8>, r: Result<CodecInfo, ChimeError>) -> bool {
    match r {
        Ok(info) => dff_header_outcome(f) matches Some(Ok(s)) && info.format_name@ == "DFF"@
            && info.stream == StreamInfo::Dsd(
            DsdInfo {
                sample_rate: s.sample_rate,
                channels: s.channels,
                bits_per_sample: 1,
                total_bytes_per_ch: Some((s.data_size / s.channels as u64) as u64),
            },
        ),
        Err(e) => dff_header_outcome(f) == Some(Err::<DffScan, ChimeError>(e)),
    }
}

/// What decoding `f` as DFF gives: the bytes of its `DSD ` chunk with the rate and channels of
/// its `PROP` chunk; or the error of its header, or `Io` where the data runs past the end of
/// `f`.
pub open spec fn dff_decoding(f: Seq<u8>, r: Result<AudioData, ChimeError>) -> bool {
    match r {
        Ok(a) => dff_header_outcome(f) matches Some(Ok(s)) && s.data_offset + s.data_size
            <= f.len() && a == AudioData::Dsd {
            data: a->data,
            sample_rate: s.sample_rate,
            channels: s.channels,
        } && a->data@ == f.subrange(
            s.data_offset as int,
            s.data_offset + s.data_size,
        ),
        Err(e) => dff_header_outcome(f) == Some(Err::<DffScan, ChimeError>(e)) || (
        dff_header_outcome(f) matches Some(Ok(s)) && e == ChimeError::Io
            && s.data_offset + s.data_size > f.len()),
    }
}

/// The inputs on which probing DFF is defined: reading the header does not
/// overflow, and a header that reads names at least one channel.
pub open spec fn dff_probeable(f: Seq<u8>) -> bool {
    &&& dff_header_outcome(f) is Some
    &&& dff_header_outcome(f) matches Some(Ok(s)) ==> s.channels != 0
}

/// The inputs on which decoding DFF is defined: reading the header does not
/// overflow, and the data it names fits in memory.
pub open spec fn dff_decodable(f: Seq<u8>) -> bool {
    &&& dff_header_outcome(f) is Some
    &&& dff_header_outcome(f) matches Some(Ok(s)) ==> s.data_size <= usize::MAX
}

/// Whether `f` is a DFF file whose header this library reads.
pub open spec fn dff_accepts(f: Seq<u8>) -> bool {
    dff_header_outcome(f) matches Some(Ok(_))
}

/// Probing and decoding agree: where the probe succeeds, decoding gives
/// the rate and channels that the probe described, or fails only because
/// the data runs past the end of the file; where the probe fails, decoding
/// fails with the same error.
pub proof fn lemma_dff_probe_agrees_with_decode(
    f: Seq<u8>,
    p: Result<CodecInfo, ChimeError>,
    d: Result<AudioData, ChimeError>,
)
    requires
        dff_probing(f, p),
        dff_decoding(f, d),
    ensures
        match (p, d) {
            (Ok(info), Ok(AudioData::Dsd { sample_rate, channels, .. })) => info.stream matches StreamInfo::Dsd(i)
                && i.sample_rate == sample_rate && i.channels == channels,
            (Ok(_), Ok(AudioData::Pcm(_))) => false,
            (Ok(_), Err(e)) => e == ChimeError::Io,
            (Err(e), r) => r == Err::<AudioData, ChimeError>(e),
        },
{
}

/// Decoder of DFF/DSDIFF files.
pub struct DffDecoder;

impl DffDecoder {
    /// A DFF decoder.
    pub fn new() -> (d: Self) {
        DffDecoder
    }

    /// Human-readable name of this codec.
    pub fn name(&self) -> (s: &'static str)
        ensures
            s@ == "DFF"@,
    {
        "DFF"
    }

    /// The stream information of a DFF file: its sample rate, channels, 1
    /// bit per sample, and the data size divided among the channels.
    pub fn probe(&self, f: &[u8]) -> (r: Result<CodecInfo, ChimeError>)
        requires
            dff_probeable(f@),
        ensures
            r is Ok <==> dff_accepts(f@),
            dff_probing(f@, r),
    {
        let hdr = read_dff_header(f)?;
        Ok(
            CodecInfo {
                stream: StreamInfo::Dsd(
                    DsdInfo {
                        sample_rate: hdr.sample_rate,
                        channels: hdr.channels,
                        bits_per_sample: 1,
                        total_bytes_per_ch: Some(hdr.data_size / hdr.channels as u64),
                    },
                ),
                format_name: "DFF",
            },
        )
    }

    /// Decodes a DFF file to its DSD bytes, as stored: interleaved by
    /// channel, most significant bit first.
    pub fn decode(&self, f: &[u8]) -> (r: Result<AudioData, ChimeError>)
        requires
            dff_decodable(f@),
        ensures
            dff_decoding(f@, r),

    {
        let hdr = read_dff_header(f)?;
        let len = f.len() as u64;
        if hdr.data_offset > len || len - hdr.data_offset < hdr.data_size {
            return Err(ChimeError::Io);
        }
        let data = copy_bytes(f, hdr.data_offset as usize, hdr.data_size as usize);
        Ok(AudioData::Dsd { data, sample_rate: hdr.sample_rate, channels: hdr.channels })
    }
}

} // verus!
