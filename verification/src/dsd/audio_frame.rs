//! SACD audio frame parser.
//!
//! Parses SACD audio frames from raw track data, identifying DST vs DSD
//! frames, and turns a sequence of frames into interleaved DSD bytes.
//!
//! Audio frame structure (Scarlet Book):
//! - Each frame = 1/75 second of audio
//! - DSD64 stereo: 37632 DSD samples/channel/frame = 9408 bytes/frame
//! - DST frames start with sync 0xC000C000, then a 4-byte length
//! - Raw DSD frames have no header
use crate::bytes::{be32, copy_bytes, read_be_u32};
use crate::dst::{
    dst_decode_panics, dst_decode_result, header_is_silence, lemma_channel_run_len, planes_view,
    segment_bytes, DstDecoder,
};
use crate::error::{ChimeError, DataFault};
use vstd::prelude::*;

verus! {

/// SACD audio frame type.
#[derive(Debug, Clone, Copy, PartialEq, Eq, Structural)]
pub enum SacdFrameType {
    /// Raw DSD data (no compression).
    Dsd,
    /// DST-compressed frame.
    Dst,
}

/// One SACD audio frame (1/75 second).
#[derive(Debug, Clone)]
pub struct SacdAudioFrame {
    /// Frame type (DST or raw DSD).
    pub frame_type: SacdFrameType,
    /// Frame number within the track.
    pub frame_number: u32,
    /// Raw frame data.
    pub data: Vec<u8>,
}

/// DST frame sync word.
pub const DST_SYNC: u32 = 0xC000_C000;

/// The size in bytes of a raw DSD frame: a 75th of a second of all channels.
pub open spec fn raw_frame_size(channels: u16, dsd_rate: u32) -> usize {
    ((dsd_rate / 75) as u64 * channels as u64 / 8) as usize
}

/// The frames of `raw` from byte `pos` on, as kinds and payloads, given that
/// `count` frames precede them: `None` where parsing would not end (a raw
/// frame of no bytes) or would overflow (a frame count past `u32::MAX`, a
/// frame length past `usize::MAX`). At a DST sync word comes a DST frame of
/// the length that follows; a DST frame that the data cuts short ends the
/// parse, and one whose length is cut short fails it. Elsewhere comes a raw
/// frame of `frame_size` bytes, or of the rest when fewer remain. Fewer than
/// four remaining bytes end the parse.
pub open spec fn scan_frames(raw: Seq<u8>, pos: int, frame_size: int, count: int) -> Option<
    Result<Seq<(SacdFrameType, Seq<u8>)>, ChimeError>,
>
    decreases raw.len() - pos,
    when 0 <= pos <= raw.len()
{
    let remaining = raw.len() - pos;
    if remaining < 4 {
        Some(Ok(Seq::empty()))
    } else if be32(raw, pos) == DST_SYNC {
        if remaining < 8 {
            Some(Err(ChimeError::Io))
        } else {
            let size = be32(raw, pos + 4);
            if 8 + size > usize::MAX {
                None
            } else if remaining < 8 + size {
                Some(Ok(Seq::empty()))
            } else if count + 1 > u32::MAX {
                None
            } else {
                let f = (SacdFrameType::Dst, raw.subrange(pos + 8, pos + 8 + size));
                match scan_frames(raw, pos + 8 + size, frame_size, count + 1) {
                    Some(Ok(rest)) => Some(Ok(seq![f] + rest)),
                    other => other,
                }
            }
        }
    } else {
        let n = if frame_size < remaining {
            frame_size
        } else {
            remaining
        };
        if n <= 0 || count + 1 > u32::MAX {
            None
        } else {
            let f = (SacdFrameType::Dsd, raw.subrange(pos, pos + n));
            match scan_frames(raw, pos + n, frame_size, count + 1) {
                Some(Ok(rest)) => Some(Ok(seq![f] + rest)),
                other => other,
            }
        }
    }
}

/// The outcome of parsing SACD track data into frames: `None` where parsing
/// would not end.
pub open spec fn parsed_frames(raw: Seq<u8>, channels: u16, dsd_rate: u32) -> Option<
    Result<Seq<(SacdFrameType, Seq<u8>)>, ChimeError>,
> {
    if raw.len() == 0 {
        Some(Err(ChimeError::InvalidData(DataFault::EmptyAudioData)))
    } else {
        scan_frames(raw, 0, raw_frame_size(channels, dsd_rate) as int, 0)
    }
}

/// The kinds and payloads of a sequence of frames.
pub open spec fn frames_view(v: Seq<SacdAudioFrame>) -> Seq<(SacdFrameType, Seq<u8>)> {
    v.map_values(|f: SacdAudioFrame| (f.frame_type, f.data@))
}

/// Prepends `prefix` to a successful outcome.
pub open spec fn prepend_frames(
    prefix: Seq<(SacdFrameType, Seq<u8>)>,
    r: Option<Result<Seq<(SacdFrameType, Seq<u8>)>, ChimeError>>,
) -> Option<Result<Seq<(SacdFrameType, Seq<u8>)>, ChimeError>> {
    match r {
        Some(Ok(rest)) => Some(Ok(prefix + rest)),
        other => other,
    }
}

/// Parse SACD audio frames from raw track data.
///
/// Frames are 1/75 second each. The function scans for DST sync words to
/// identify DST frames; everything else is treated as raw DSD. Frames are
/// numbered from 0.
pub fn parse_audio_frames(raw_data: &[u8], channels: u16, dsd_rate: u32) -> (r: Result<
    Vec<SacdAudioFrame>,
    ChimeError,
>)
    requires
        parsed_frames(raw_data@, channels, dsd_rate) is Some,
    ensures
        match r {
            Ok(v) => parsed_frames(raw_data@, channels, dsd_rate) == Some(
                Ok::<Seq<(SacdFrameType, Seq<u8>)>, ChimeError>(frames_view(v@)),
            ) && forall|i: int| 0 <= i < v@.len() ==> #[trigger] v@[i].frame_number == i,
            Err(e) => parsed_frames(raw_data@, channels, dsd_rate) == Some(
                Err::<Seq<(SacdFrameType, Seq<u8>)>, ChimeError>(e),
            ),
        },
{
    if raw_data.len() == 0 {
        return Err(ChimeError::InvalidData(DataFault::EmptyAudioData));
    }
    let dsd_samples_per_frame = dsd_rate as u64 / 75;
    assert(dsd_samples_per_frame * channels as u64 <= 0x1_0000_0000 * 0x1_0000) by (nonlinear_arith)
        requires
            dsd_samples_per_frame <= 0x1_0000_0000,
            channels <= 0x1_0000,
    ;
    let frame_size_bytes = (#[verifier::truncate] ((dsd_samples_per_frame * channels as u64 / 8) as usize));
    let ghost rfs = frame_size_bytes as int;
    assert(rfs == raw_frame_size(channels, dsd_rate) as int);
    let ghost whole = scan_frames(raw_data@, 0, rfs, 0);
    assert(parsed_frames(raw_data@, channels, dsd_rate) == whole);

    let mut frames: Vec<SacdAudioFrame> = Vec::new();
    let mut pos: usize = 0;
    let mut frame_number: u32 = 0;
    while pos < raw_data.len()
        invariant_except_break
            pos <= raw_data@.len(),
            whole is Some,
            parsed_frames(raw_data@, channels, dsd_rate) == whole,
            rfs == frame_size_bytes as int,
            rfs == raw_frame_size(channels, dsd_rate) as int,
            raw_data@.len() > 0,
            scan_frames(raw_data@, pos as int, rfs, frame_number as int) is Some,
            whole == prepend_frames(
                frames_view(frames@),
                scan_frames(raw_data@, pos as int, rfs, frame_number as int),
            ),
            frames@.len() == frame_number,
            forall|i: int| 0 <= i < frames@.len() ==> #[trigger] frames@[i].frame_number == i,
        ensures
            whole == Some(Ok::<Seq<(SacdFrameType, Seq<u8>)>, ChimeError>(frames_view(frames@))),
            forall|i: int| 0 <= i < frames@.len() ==> #[trigger] frames@[i].frame_number == i,
        decreases raw_data@.len() - pos,
    {
        let remaining = raw_data.len() - pos;
        if remaining < 4 {
            assert(frames_view(frames@) + Seq::empty() =~= frames_view(frames@));
            break;
        }
        let sync_word = read_be_u32(raw_data, pos);
        let old_pos = pos;
        let ghost before = frames_view(frames@);
        if sync_word == DST_SYNC {
            if remaining < 8 {
                assert(scan_frames(raw_data@, pos as int, rfs, frame_number as int) == Some(
                    Err::<Seq<(SacdFrameType, Seq<u8>)>, ChimeError>(ChimeError::Io),
                ));
                assert(whole == Some(Err::<Seq<(SacdFrameType, Seq<u8>)>, ChimeError>(ChimeError::Io)));
                return Err(ChimeError::Io);
            }
            let dst_data_size = read_be_u32(raw_data, pos + 4) as usize;
            assert(8 + dst_data_size <= usize::MAX);
            if remaining < 8 + dst_data_size {
                assert(before + Seq::empty() =~= before);
                break;
            }
            assert(frame_number + 1 <= u32::MAX);
            let frame_data = copy_bytes(raw_data, pos + 8, dst_data_size);
            frames.push(
                SacdAudioFrame {
                    frame_type: SacdFrameType::Dst,
                    frame_number,
                    data: frame_data,
                },
            );
            pos = pos + 8 + dst_data_size;
        } else {
            let frame_size = if frame_size_bytes < remaining {
                frame_size_bytes
            } else {
                remaining
            };
            assert(frame_size > 0);
            assert(frame_number + 1 <= u32::MAX);
            let frame_data = copy_bytes(raw_data, pos, frame_size);
            frames.push(
                SacdAudioFrame {
                    frame_type: SacdFrameType::Dsd,
                    frame_number,
                    data: frame_data,
                },
            );
            pos = pos + frame_size;
        }
        proof {
            let rest = scan_frames(raw_data@, pos as int, rfs, frame_number + 1);
            let f = frames@[frames@.len() - 1];
            assert(scan_frames(raw_data@, old_pos as int, rfs, frame_number as int)
                == prepend_frames(seq![(f.frame_type, f.data@)], rest));
            assert(frames_view(frames@) =~= before.push((f.frame_type, f.data@)));
            if let Some(Ok(r)) = rest {
                assert(before + (seq![(f.frame_type, f.data@)] + r) =~= frames_view(frames@)
                    + r);
            }
        }
        frame_number = frame_number + 1;
    }
    Ok(frames)
}

/// The DSD bytes per channel in a frame: an eighth of a 75th of a second.
pub open spec fn frame_bytes_per_channel(dsd_rate: u32) -> int {
    (dsd_rate as int / 75) / 8
}

/// Whether turning `f` into DSD bytes panics: a DST frame whose decoding
/// panics.
pub open spec fn frame_panics(f: SacdAudioFrame, channels: int, bpc: int) -> bool {
    f.frame_type == SacdFrameType::Dst && dst_decode_panics(f.data@, bpc, channels)
}

/// Planes of `bpc` bytes interleaved byte by byte across `channels`
/// channels: element `i` is byte `i / channels` of channel `i % channels`.
pub open spec fn interleaved_planes(planes: Seq<Seq<u8>>, channels: int, bpc: int) -> Seq<u8> {
    Seq::new((bpc * channels) as nat, |i: int| planes[i % channels][i / channels])
}

/// The DSD bytes of one frame: a raw frame as it is; a DST frame decoded
/// and its channel planes interleaved byte by byte.
pub open spec fn frame_output(f: SacdAudioFrame, channels: int, bpc: int) -> Result<
    Seq<u8>,
    ChimeError,
> {
    match f.frame_type {
        SacdFrameType::Dsd => Ok(f.data@),
        SacdFrameType::Dst => match dst_decode_result(f.data@, bpc, channels) {
            Ok(planes) => Ok(interleaved_planes(planes, channels, bpc)),
            Err(e) => Err(e),
        },
    }
}

/// The DSD bytes of a sequence of frames, or the first error.
pub open spec fn frames_output(fs: Seq<SacdAudioFrame>, channels: int, bpc: int) -> Result<
    Seq<u8>,
    ChimeError,
>
    decreases fs.len(),
{
    if fs.len() == 0 {
        Ok(Seq::empty())
    } else {
        match frames_output(fs.drop_last(), channels, bpc) {
            Err(e) => Err(e),
            Ok(a) => match frame_output(fs.last(), channels, bpc) {
                Ok(b) => Ok(a + b),
                Err(e) => Err(e),
            },
        }
    }
}

/// Whether turning a sequence of frames into DSD bytes panics: some frame
/// panics after all frames before it succeeded.
pub open spec fn frames_panic(fs: Seq<SacdAudioFrame>, channels: int, bpc: int) -> bool
    decreases fs.len(),
{
    fs.len() > 0 && (frames_panic(fs.drop_last(), channels, bpc) || (frames_output(
        fs.drop_last(),
        channels,
        bpc,
    ) is Ok && frame_panics(fs.last(), channels, bpc)))
}

/// A decoded frame holds one plane of `bpc` bytes per channel.
proof fn lemma_decoded_planes(data: Seq<u8>, bpc: int, channels: int, planes: Seq<Seq<u8>>)
    requires
        bpc >= 0,
        channels >= 0,
        dst_decode_result(data, bpc, channels) == Ok::<Seq<Seq<u8>>, ChimeError>(planes),
    ensures
        planes.len() == channels,
        forall|c: int| 0 <= c < channels ==> (#[trigger] planes[c]).len() == bpc,
{
    if !header_is_silence(data) {
        lemma_channel_run_len(data, segment_bytes(data), bpc as nat);
    }
}

proof fn lemma_frames_panic_prefix(fs: Seq<SacdAudioFrame>, i: int, channels: int, bpc: int)
    requires
        0 <= i <= fs.len(),
        frames_panic(fs.take(i), channels, bpc),
    ensures
        frames_panic(fs, channels, bpc),
    decreases fs.len() - i,
{
    if i < fs.len() {
        assert(fs.take(i + 1).drop_last() =~= fs.take(i));
        lemma_frames_panic_prefix(fs, i + 1, channels, bpc);
    } else {
        assert(fs.take(i) =~= fs);
    }
}

proof fn lemma_frames_err_prefix(
    fs: Seq<SacdAudioFrame>,
    i: int,
    channels: int,
    bpc: int,
    e: ChimeError,
)
    requires
        0 <= i <= fs.len(),
        frames_output(fs.take(i), channels, bpc) == Err::<Seq<u8>, ChimeError>(e),
    ensures
        frames_output(fs, channels, bpc) == Err::<Seq<u8>, ChimeError>(e),
    decreases fs.len() - i,
{
    if i < fs.len() {
        assert(fs.take(i + 1).drop_last() =~= fs.take(i));
        lemma_frames_err_prefix(fs, i + 1, channels, bpc, e);
    } else {
        assert(fs.take(i) =~= fs);
    }
}

/// Appends `src` to `out`.
fn append_bytes(out: &mut Vec<u8>, src: &[u8])
    ensures
        final(out)@ == old(out)@ + src@,
{
    let mut i: usize = 0;
    while i < src.len()
        invariant
            i <= src@.len(),
            out@ == old(out)@ + src@.take(i as int),
        decreases src@.len() - i,
    {
        out.push(src[i]);
        i = i + 1;
        assert(out@ =~= old(out)@ + src@.take(i as int));
    }
    assert(src@.take(src@.len() as int) =~= src@);
}

/// Past a prefix whose output is an error and which does not panic, no
/// longer sequence panics.
proof fn lemma_no_panic_after_err(fs: Seq<SacdAudioFrame>, i: int, channels: int, bpc: int)
    requires
        0 <= i <= fs.len(),
        frames_output(fs.take(i), channels, bpc) is Err,
        !frames_panic(fs.take(i), channels, bpc),
    ensures
        !frames_panic(fs, channels, bpc),
    decreases fs.len() - i,
{
    if i < fs.len() {
        assert(fs.take(i + 1).drop_last() =~= fs.take(i));
        lemma_no_panic_after_err(fs, i + 1, channels, bpc);
    } else {
        assert(fs.take(i) =~= fs);
    }
}

/// Process SACD audio frames through the DST decoder pipeline: raw DSD
/// frames pass through, DST frames are decompressed and interleaved.
/// Returns the DSD data, or the first error.
pub fn process_audio_frames(frames: &[SacdAudioFrame], channels: u16, dsd_rate: u32) -> (r: Result<
    Vec<u8>,
    ChimeError,
>)
    requires
        frame_bytes_per_channel(dsd_rate) * channels <= usize::MAX,
        frames@.len() * (frame_bytes_per_channel(dsd_rate) * channels) <= usize::MAX,
        !frames_panic(frames@, channels as int, frame_bytes_per_channel(dsd_rate)),
    ensures
        match r {
            Ok(v) => frames_output(frames@, channels as int, frame_bytes_per_channel(dsd_rate))
                == Ok::<Seq<u8>, ChimeError>(v@),
            Err(e) => frames_output(frames@, channels as int, frame_bytes_per_channel(dsd_rate))
                == Err::<Seq<u8>, ChimeError>(e),
        },
{
    match try_process_audio_frames(frames, channels, dsd_rate) {
        Some(r) => r,
        None => {
            assert(false);
            Err(ChimeError::Io)
        },
    }
}

/// Process SACD audio frames as `process_audio_frames` does, or `None`
/// where that would go wrong: where a DST frame fails to decode in a way
/// that `DstDecoder::try_decode_frame` reports (see `frames_panic`).
pub fn try_process_audio_frames(frames: &[SacdAudioFrame], channels: u16, dsd_rate: u32) -> (r:
    Option<Result<Vec<u8>, ChimeError>>)
    requires
        frame_bytes_per_channel(dsd_rate) * channels <= usize::MAX,
        frames@.len() * (frame_bytes_per_channel(dsd_rate) * channels) <= usize::MAX,
    ensures
        r is None <==> frames_panic(frames@, channels as int, frame_bytes_per_channel(dsd_rate)),
        r matches Some(Ok(v)) ==> frames_output(
            frames@,
            channels as int,
            frame_bytes_per_channel(dsd_rate),
        ) == Ok::<Seq<u8>, ChimeError>(v@),
        r matches Some(Err(e)) ==> frames_output(
            frames@,
            channels as int,
            frame_bytes_per_channel(dsd_rate),
        ) == Err::<Seq<u8>, ChimeError>(e),
{
    let ch = channels as usize;
    let dsd_samples_per_frame = (dsd_rate as u64) / 75;
    let bytes_per_ch_per_frame = (dsd_samples_per_frame / 8) as usize;
    let ghost bpc = bytes_per_ch_per_frame as int;
    assert(bpc == frame_bytes_per_channel(dsd_rate));
    let frame_dsd_bytes = bytes_per_ch_per_frame * ch;
    let mut output: Vec<u8> = Vec::with_capacity(frames.len() * frame_dsd_bytes);
    let mut i: usize = 0;
    while i < frames.len()
        invariant
            i <= frames@.len(),
            ch == channels,
            bpc == bytes_per_ch_per_frame,
            bpc == frame_bytes_per_channel(dsd_rate),
            !frames_panic(frames@.take(i as int), ch as int, bpc),
            frames_output(frames@.take(i as int), ch as int, bpc) == Ok::<Seq<u8>, ChimeError>(
                output@,
            ),
        decreases frames@.len() - i,
    {
        let frame = &frames[i];
        let ghost before = output@;
        assert(frames@.take(i + 1).drop_last() =~= frames@.take(i as int));
        assert(frames@.take(i + 1).last() == frames@[i as int]);
        match frame.frame_type {
            SacdFrameType::Dsd => {
                append_bytes(&mut output, frame.data.as_slice());
            },
            SacdFrameType::Dst => {
                let decoder = DstDecoder::new(bytes_per_ch_per_frame, ch);
                let decoded = match decoder.try_decode_frame(frame.data.as_slice()) {
                    Some(d) => d,
                    None => {
                        proof {
                            assert(frames_panic(frames@.take(i + 1), ch as int, bpc));
                            lemma_frames_panic_prefix(frames@, i + 1, ch as int, bpc);
                        }
                        return None;
                    },
                };
                assert(!frames_panic(frames@.take(i + 1), ch as int, bpc));
                let channels_data = match decoded {
                    Ok(v) => v,
                    Err(e) => {
                        proof {
                            lemma_frames_err_prefix(frames@, i + 1, ch as int, bpc, e);
                            lemma_no_panic_after_err(frames@, i + 1, ch as int, bpc);
                        }
                        return Some(Err(e));
                    },
                };
                let ghost planes = planes_view(channels_data@);
                proof {
                    lemma_decoded_planes(frame.data@, bpc, ch as int, planes);
                }
                let mut byte_idx: usize = 0;
                while byte_idx < bytes_per_ch_per_frame
                    invariant
                        byte_idx <= bytes_per_ch_per_frame,
                        ch == channels,
                        channels_data@.len() == ch,
                        planes == planes_view(channels_data@),
                        forall|c: int| 0 <= c < ch ==> (#[trigger] planes[c]).len() == bpc,
                        bpc == bytes_per_ch_per_frame,
                        output@ == before + interleaved_planes(planes, ch as int, bpc).take(
                            (byte_idx * ch) as int,
                        ),
                        byte_idx * ch <= bpc * ch,
                    decreases bytes_per_ch_per_frame - byte_idx,
                {
                    let mut ch_idx: usize = 0;
                    assert((byte_idx + 1) * ch == byte_idx * ch + ch) by (nonlinear_arith);
                    assert((byte_idx + 1) * ch <= bpc * ch) by (nonlinear_arith)
                        requires
                            byte_idx < bpc,
                    ;
                    while ch_idx < ch
                        invariant
                            byte_idx < bytes_per_ch_per_frame,
                            ch_idx <= ch,
                            channels_data@.len() == ch,
                            planes == planes_view(channels_data@),
                            forall|c: int| 0 <= c < ch ==> (#[trigger] planes[c]).len() == bpc,
                            bpc == bytes_per_ch_per_frame,
                            (byte_idx + 1) * ch <= bpc * ch,
                            (byte_idx + 1) * ch == byte_idx * ch + ch,
                            output@ == before + interleaved_planes(planes, ch as int, bpc).take(
                                (byte_idx * ch + ch_idx) as int,
                            ),
                        decreases ch - ch_idx,
                    {
                        assert(planes[ch_idx as int] == channels_data@[ch_idx as int]@);
                        proof {
                            vstd::arithmetic::div_mod::lemma_fundamental_div_mod_converse(
                                (byte_idx * ch + ch_idx) as int,
                                ch as int,
                                byte_idx as int,
                                ch_idx as int,
                            );
                        }
                        let ghost k = (byte_idx * ch + ch_idx) as int;
                        let ghost il = interleaved_planes(planes, ch as int, bpc);
                        assert(k < bpc * ch) by (nonlinear_arith)
                            requires
                                k == byte_idx * ch + ch_idx,
                                ch_idx < ch,
                                (byte_idx + 1) * ch <= bpc * ch,
                                (byte_idx + 1) * ch == byte_idx * ch + ch,
                        ;
                        assert(il[k] == planes[ch_idx as int][byte_idx as int]);
                        if byte_idx < channels_data[ch_idx].len() {
                            output.push(channels_data[ch_idx][byte_idx]);
                        }
                        assert(il.take(k + 1) =~= il.take(k).push(il[k]));
                        ch_idx = ch_idx + 1;
                        assert(output@ =~= before + interleaved_planes(planes, ch as int, bpc).take(
                            (byte_idx * ch + ch_idx) as int,
                        ));
                    }
                    byte_idx = byte_idx + 1;
                }
                assert(interleaved_planes(planes, ch as int, bpc).take((bpc * ch) as int)
                    =~= interleaved_planes(planes, ch as int, bpc));
            },
        }
        assert(!frames_panic(frames@.take(i + 1), ch as int, bpc));
        i = i + 1;
    }
    assert(frames@.take(frames@.len() as int) =~= frames@);
    Some(Ok(output))
}

} // verus!
