//! DSD audio codecs: SACD frames and ISO images, DSF and DFF/DSDIFF files.
//!
//! The decoders read a file held in memory; a read past its end fails as a
//! read of a short file does, and a seek may go anywhere.
use crate::bytes::{copy_bytes, has_tag, le32, le64, read_le_u32, read_le_u64, tag_at};
use crate::error::{ChimeError, DataFault};
use crate::stream::{AudioData, CodecInfo, DsdInfo, StreamInfo};
use vstd::prelude::*;

pub mod audio_frame;
pub mod dff;
pub mod sacd_iso;

pub use audio_frame::{
    parse_audio_frames, process_audio_frames, try_process_audio_frames, SacdAudioFrame, SacdFrameType,
};
pub use dff::DffDecoder;
pub use sacd_iso::{SacdAreaToc, SacdChannelType, SacdIsoParser, SacdMasterToc, SacdTrack};

verus! {

// ─── DSF Format ─────────────────────────────────────────────

/// The tag `DSD `.
pub const TAG_DSD: [u8; 4] = [0x44, 0x53, 0x44, 0x20];

/// The tag `fmt `.
pub const TAG_FMT: [u8; 4] = [0x66, 0x6d, 0x74, 0x20];

/// The tag `data`.
pub const TAG_DATA: [u8; 4] = [0x64, 0x61, 0x74, 0x61];

/// The DSF block size: bytes of one channel in a block.
pub const DSF_BLOCK_SIZE: u64 = 4096;

/// The offset of the DSF `fmt ` chunk: right after the 28-byte `DSD `
/// chunk.
pub open spec fn dsf_meta(f: Seq<u8>) -> int {
    28
}

/// The size of the DSF `fmt ` chunk, its 12-byte chunk header included.
pub open spec fn dsf_fmt_size(f: Seq<u8>) -> int {
    le64(f, dsf_meta(f) + 4)
}

/// The offset of the DSF `data` chunk: after the `fmt ` chunk.
pub open spec fn dsf_data_chunk(f: Seq<u8>) -> int {
    dsf_meta(f) + dsf_fmt_size(f)
}

/// The size of the DSF sample data: the `data` chunk size less its 12-byte
/// chunk header.
pub open spec fn dsf_data_size(f: Seq<u8>) -> int {
    le64(f, dsf_data_chunk(f) + 4) - 12
}

/// The error of reading a DSF header, if any.
pub open spec fn dsf_header_error(f: Seq<u8>) -> Option<ChimeError> {
    let m = dsf_meta(f);
    let d = dsf_data_chunk(f);
    if f.len() < 4 {
        Some(ChimeError::Io)
    } else if !has_tag(f, 0, TAG_DSD) {
        Some(ChimeError::InvalidData(DataFault::NotDsf))
    } else if m + 4 > f.len() {
        Some(ChimeError::Io)
    } else if !has_tag(f, m, TAG_FMT) {
        Some(ChimeError::InvalidData(DataFault::DsfMissingFmt))
    } else if m + 52 > f.len() || d + 4 > f.len() {
        Some(ChimeError::Io)
    } else if !has_tag(f, d, TAG_DATA) {
        Some(ChimeError::InvalidData(DataFault::DsfMissingData))
    } else if d + 12 > f.len() {
        Some(ChimeError::Io)
    } else if dsf_data_size(f) < 0 {
        Some(ChimeError::InvalidData(DataFault::DsfMissingData))
    } else {
        None
    }
}

/// DSF file header
pub struct DsfHeader {
    pub channels: u16,
    pub sampling_freq: u32,
    pub bits_per_sample: u16,
    pub sample_count: u64,
    pub data_size: u64,
    pub data_offset: u64,
}

/// `h` is the header of the DSF file `f`.
pub open spec fn dsf_header_of(h: DsfHeader, f: Seq<u8>) -> bool {
    let m = dsf_meta(f);
    let d = dsf_data_chunk(f);
    &&& h.channels == le32(f, m + 24) as u16
    &&& h.sampling_freq == le32(f, m + 28)
    &&& h.bits_per_sample == le32(f, m + 32) as u16
    &&& h.sample_count == le64(f, m + 36)
    &&& h.data_size == dsf_data_size(f)
    &&& h.data_offset == d + 12
}

/// Reads the header of a DSF file: the `DSD ` chunk, the `fmt ` chunk after
/// it at byte 28, and the `data` chunk after that.
pub fn read_dsf_header(f: &[u8]) -> (r: Result<DsfHeader, ChimeError>)
    ensures
        match r {
            Ok(h) => dsf_header_error(f@) is None && dsf_header_of(h, f@),
            Err(e) => dsf_header_error(f@) == Some(e),
        },
{
    let len = f.len() as u64;
    if f.len() < 4 {
        return Err(ChimeError::Io);
    }
    if !tag_at(f, 0, TAG_DSD) {
        return Err(ChimeError::InvalidData(DataFault::NotDsf));
    }
    if len < 32 {
        return Err(ChimeError::Io);
    }
    let m: usize = 28;
    if !tag_at(f, m, TAG_FMT) {
        return Err(ChimeError::InvalidData(DataFault::DsfMissingFmt));
    }
    if len < 80 {
        return Err(ChimeError::Io);
    }
    let fmt_size = read_le_u64(f, m + 4);
    let channel_num = read_le_u32(f, m + 24);
    let sampling_freq = read_le_u32(f, m + 28);
    let bits_per_sample = read_le_u32(f, m + 32);
    let sample_count = read_le_u64(f, m + 36);
    if fmt_size > len - 32 {
        return Err(ChimeError::Io);
    }
    let cur = 28 + fmt_size;
    let c = cur as usize;
    if !tag_at(f, c, TAG_DATA) {
        return Err(ChimeError::InvalidData(DataFault::DsfMissingData));
    }
    if len - cur < 12 {
        return Err(ChimeError::Io);
    }
    let chunk_size = read_le_u64(f, c + 4);
    if chunk_size < 12 {
        return Err(ChimeError::InvalidData(DataFault::DsfMissingData));
    }
    let data_size = chunk_size - 12;
    Ok(
        DsfHeader {
            channels: #[verifier::truncate] (channel_num as u16),
            sampling_freq,
            bits_per_sample: #[verifier::truncate] (bits_per_sample as u16),
            sample_count,
            data_size,
            data_offset: cur + 12,
        },
    )
}

/// The DSD rate of a DSF sampling frequency: the frequency itself.
pub fn dsf_sampling_to_dsd_rate(freq: u32) -> (r: u32)
    ensures
        r == freq,
{
    freq
}

/// The index in a DSF data chunk of byte `k` of the interleaved stream:
/// the data holds, block by block, 4096 bytes of each channel in turn;
/// the stream holds the channels byte by byte.
pub open spec fn dsf_source_index(k: int, channels: int) -> int {
    let c = k % channels;
    let t = k / channels;
    let s = t % 4096;
    let b = t / 4096;
    b * channels * 4096 + c * 4096 + s
}

/// The whole blocks of a DSF data chunk, interleaved byte by byte across
/// channels; a partial block at the end is left out.
pub open spec fn dsf_interleave(data: Seq<u8>, data_size: int, channels: int) -> Seq<u8> {
    let n = (data_size / (4096 * channels)) * 4096 * channels;
    Seq::new(n as nat, |k: int| data[dsf_source_index(k, channels)])
}

proof fn lemma_dsf_index(b: int, s: int, c: int, ch: int)
    requires
        0 <= b,
        0 <= s < 4096,
        0 <= c < ch,
    ensures
        dsf_source_index((b * 4096 + s) * ch + c, ch) == b * ch * 4096 + c * 4096 + s,
{
    let k = (b * 4096 + s) * ch + c;
    vstd::arithmetic::div_mod::lemma_fundamental_div_mod_converse(k, ch, b * 4096 + s, c);
    vstd::arithmetic::div_mod::lemma_fundamental_div_mod_converse(b * 4096 + s, 4096, b, s);
}

/// Where byte `idx` of a DSF data chunk lands in the interleaved stream:
/// byte `s` of channel `c` in block `b` becomes frame `b * 4096 + s`,
/// channel `c`.
pub open spec fn dsf_target_index(idx: int, channels: int) -> int {
    let b = idx / (4096 * channels);
    let r = idx % (4096 * channels);
    (b * 4096 + r % 4096) * channels + r / 4096
}

/// Interleaving loses no byte of the whole blocks: each of them stands in
/// the stream, at `dsf_target_index`.
pub proof fn lemma_dsf_interleave_keeps_every_byte(
    data: Seq<u8>,
    data_size: int,
    channels: int,
    idx: int,
)
    requires
        channels > 0,
        data.len() == data_size,
        0 <= idx < (data_size / (4096 * channels)) * 4096 * channels,
    ensures
        0 <= dsf_target_index(idx, channels) < dsf_interleave(data, data_size, channels).len(),
        dsf_interleave(data, data_size, channels)[dsf_target_index(idx, channels)] == data[idx],
{
    let w = 4096 * channels;
    let nb = data_size / w;
    let b = idx / w;
    let r = idx % w;
    let c = r / 4096;
    let s = r % 4096;
    vstd::arithmetic::div_mod::lemma_fundamental_div_mod(idx, w);
    vstd::arithmetic::div_mod::lemma_mod_bound(idx, w);
    vstd::arithmetic::div_mod::lemma_div_pos_is_pos(idx, w);
    vstd::arithmetic::div_mod::lemma_fundamental_div_mod(r, 4096);
    vstd::arithmetic::div_mod::lemma_mod_bound(r, 4096);
    vstd::arithmetic::div_mod::lemma_div_pos_is_pos(r, 4096);
    assert(c < channels) by (nonlinear_arith)
        requires
            r < 4096 * channels,
            r == 4096 * c + s,
            0 <= s,
    ;
    assert(b < nb) by (nonlinear_arith)
        requires
            idx == w * b + r,
            0 <= r,
            idx < nb * 4096 * channels,
            w == 4096 * channels,
            channels > 0,
    ;
    lemma_dsf_index(b, s, c, channels);
    assert(b * channels * 4096 + c * 4096 + s == idx) by (nonlinear_arith)
        requires
            idx == w * b + r,
            r == 4096 * c + s,
            w == 4096 * channels,
    ;
    assert(0 <= (b * 4096 + s) * channels + c < nb * 4096 * channels) by (nonlinear_arith)
        requires
            0 <= b < nb,
            0 <= s < 4096,
            0 <= c < channels,
    ;
}

/// Rearranges DSF blocks into a byte-interleaved stream.
fn interleave_dsf_blocks(data: &[u8], data_size: u64, channels: u16) -> (out: Vec<u8>)
    requires
        channels > 0,
        data@.len() == data_size,
    ensures
        out@ == dsf_interleave(data@, data_size as int, channels as int),
{
    let ch = channels as u64;
    let total_blocks = data_size / (DSF_BLOCK_SIZE * ch);
    let ghost chi = ch as int;
    proof {
        assert(total_blocks * (4096 * chi) <= data_size) by (nonlinear_arith)
            requires
                total_blocks == (data_size as int) / (4096 * chi),
                4096 * chi > 0,
        {
            vstd::arithmetic::div_mod::lemma_fundamental_div_mod(data_size as int, 4096 * chi);
            vstd::arithmetic::div_mod::lemma_mod_bound(data_size as int, 4096 * chi);
        }
    }
    let mut interleaved: Vec<u8> = Vec::new();
    let mut block: u64 = 0;
    while block < total_blocks
        invariant
            chi == ch,
            1 <= ch <= 65535,
            block <= total_blocks,
            total_blocks * (4096 * chi) <= data_size,
            data@.len() == data_size,
            total_blocks == (data_size as int) / (4096 * chi),
            interleaved@.len() == block * 4096 * chi,
            forall|j: int|
                0 <= j < interleaved@.len() ==> interleaved@[j] == data@[dsf_source_index(j, chi)],
        decreases total_blocks - block,
    {
        let mut s: u64 = 0;
        while s < DSF_BLOCK_SIZE
            invariant
                chi == ch,
                1 <= ch <= 65535,
                block < total_blocks,
                s <= 4096,
                total_blocks * (4096 * chi) <= data_size,
                data@.len() == data_size,
                interleaved@.len() == (block * 4096 + s) * chi,
                forall|j: int|
                    0 <= j < interleaved@.len() ==> interleaved@[j] == data@[dsf_source_index(
                        j,
                        chi,
                    )],
            decreases 4096 - s,
        {
            let mut c: u64 = 0;
            while c < ch
                invariant
                    chi == ch,
                    1 <= ch <= 65535,
                    block < total_blocks,
                    s < 4096,
                    c <= ch,
                    total_blocks * (4096 * chi) <= data_size,
                    data@.len() == data_size,
                    interleaved@.len() == (block * 4096 + s) * chi + c,
                    forall|j: int|
                        0 <= j < interleaved@.len() ==> interleaved@[j] == data@[dsf_source_index(
                            j,
                            chi,
                        )],
                decreases ch - c,
            {
                assert(block * chi * 4096 + c * 4096 + s < total_blocks * (4096 * chi))
                    by (nonlinear_arith)
                    requires
                        block < total_blocks,
                        c < chi,
                        s < 4096,
                ;
                let offset = block * ch * DSF_BLOCK_SIZE + c * DSF_BLOCK_SIZE + s;
                proof {
                    lemma_dsf_index(block as int, s as int, c as int, chi);
                }
                if offset < data.len() as u64 {
                    interleaved.push(data[offset as usize]);
                }
                c = c + 1;
            }
            assert((block * 4096 + s) * chi + chi == (block * 4096 + (s + 1)) * chi)
                by (nonlinear_arith);
            s = s + 1;
        }
        assert((block * 4096 + 4096) * chi == (block + 1) * 4096 * chi) by (nonlinear_arith);
        assert(block * 4096 * chi == (block * 4096 + 0) * chi) by (nonlinear_arith);
        block = block + 1;
    }
    assert(interleaved@.len() == ((data_size as int) / (4096 * chi)) * 4096 * chi);
    assert(interleaved@ =~= dsf_interleave(data@, data_size as int, chi));
    interleaved
}

/// What probing `f` as DSF gives: the rate, channels, sample width and bytes
/// per channel of its `fmt ` chunk, or the error of its header.
pub open spec fn dsf_probing(f: Seq<u8>, r: Result<CodecInfo, ChimeError>) -> bool {
    match r {
        Ok(info) => dsf_header_error(f) is None && info.format_name@ == "DSF"@ && info.stream
            == StreamInfo::Dsd(
            DsdInfo {
                sample_rate: le32(f, dsf_meta(f) + 28) as u32,
                channels: le32(f, dsf_meta(f) + 24) as u16,
                bits_per_sample: le32(f, dsf_meta(f) + 32) as u16,
                total_bytes_per_ch: Some((le64(f, dsf_meta(f) + 36) / 8) as u64),
            },
        ),
        Err(e) => dsf_header_error(f) == Some(e),
    }
}

/// What decoding `f` as DSF gives: its `data` chunk with the blocks of the channels interleaved
/// byte by byte, with the rate and channels of its `fmt ` chunk; or the error of its header, or
/// `Io` where the data runs past the end of `f`.
pub open spec fn dsf_decoding(f: Seq<u8>, r: Result<AudioData, ChimeError>) -> bool {
    match r {
        Ok(a) => {
            let d = dsf_data_chunk(f);
            let size = dsf_data_size(f);
            let ch = le32(f, dsf_meta(f) + 24) as u16;
            &&& dsf_header_error(f) is None
            &&& d + 12 + size <= f.len()
            &&& a matches AudioData::Dsd { data, sample_rate, channels } && data@
                == dsf_interleave(f.subrange(d + 12, d + 12 + size), size, ch as int)
                && sample_rate == le32(f, dsf_meta(f) + 28) && channels == ch
        },
        Err(e) => dsf_header_error(f) == Some(e) || (dsf_header_error(f) is None
            && e == ChimeError::Io && dsf_data_chunk(f) + 12 + dsf_data_size(f) > f.len()),
    }
}

/// The inputs on which DSF decoding is defined: where the data is all
/// there, the channel count is not zero.
pub open spec fn dsf_decodable(f: Seq<u8>) -> bool {
    dsf_header_error(f) is None && dsf_data_chunk(f) + 12 + dsf_data_size(f) <= f.len() ==> le32(
        f,
        dsf_meta(f) + 24,
    ) as u16 != 0
}

/// Whether `f` is a DSF file whose header this library reads.
pub open spec fn dsf_accepts(f: Seq<u8>) -> bool {
    dsf_header_error(f) is None
}

/// Probing and decoding agree: where the probe succeeds, decoding gives
/// the rate and channels that the probe described, or fails only because
/// the data runs past the end of the file; where the probe fails, decoding
/// fails with the same error.
pub proof fn lemma_dsf_probe_agrees_with_decode(
    f: Seq<u8>,
    p: Result<CodecInfo, ChimeError>,
    d: Result<AudioData, ChimeError>,
)
    requires
        dsf_probing(f, p),
        dsf_decoding(f, d),
    ensures
        match (p, d) {
            (Ok(info), Ok(AudioData::Dsd { sample_rate, channels, .. })) => info.stream matches StreamInfo::Dsd(i)
                && i.sample_rate == sample_rate && i.channels == channels,
            (Ok(_), Ok(AudioData::Pcm(_))) => false,
            (Ok(_), Err(e)) => e == ChimeError::Io,
            (Err(e), r) => r == Err::<AudioData, ChimeError>(e),
        },
{
}

/// Decoder of DSF (DSD Stream File) files.
pub struct DsfDecoder;

impl DsfDecoder {
    /// A DSF decoder.
    pub fn new() -> (d: Self) {
        DsfDecoder
    }

    /// Human-readable name of this codec.
    pub fn name(&self) -> (s: &'static str)
        ensures
            s@ == "DSF"@,
    {
        "DSF"
    }

    /// The stream information of a DSF file: its DSD rate, channels, bits
    /// per sample, and an eighth of its sample count as bytes per channel.
    pub fn probe(&self, f: &[u8]) -> (r: Result<CodecInfo, ChimeError>)
        ensures
            r is Ok <==> dsf_accepts(f@),
            dsf_probing(f@, r),
    {
        let hdr = read_dsf_header(f)?;
        Ok(
            CodecInfo {
                stream: StreamInfo::Dsd(
                    DsdInfo {
                        sample_rate: hdr.sampling_freq,
                        channels: hdr.channels,
                        bits_per_sample: hdr.bits_per_sample,
                        total_bytes_per_ch: Some(hdr.sample_count / 8),
                    },
                ),
                format_name: "DSF",
            },
        )
    }

    /// Decodes a DSF file to DSD bytes interleaved byte by byte across
    /// channels, at the file's sampling frequency.
    pub fn decode(&self, f: &[u8]) -> (r: Result<AudioData, ChimeError>)
        requires
            dsf_decodable(f@),
        ensures
            dsf_decoding(f@, r),

    {
        let hdr = read_dsf_header(f)?;
        let len = f.len() as u64;
        if hdr.data_offset > len || len - hdr.data_offset < hdr.data_size {
            return Err(ChimeError::Io);
        }
        let data = copy_bytes(f, hdr.data_offset as usize, hdr.data_size as usize);
        let interleaved = interleave_dsf_blocks(data.as_slice(), hdr.data_size, hdr.channels);
        Ok(AudioData::Dsd { data: interleaved, sample_rate: hdr.sampling_freq, channels: hdr.channels })
    }
}

} // verus!
