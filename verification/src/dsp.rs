//! The integer side of DSD processing: conversion settings, the sign table
//! that unpacks DSD bytes, channel (de)interleaving, DoP (DSD over PCM)
//! framing, and the stage plan of the multi-stage decimation filter.
use crate::error::{ChimeError, DataFault};
use vstd::prelude::*;

pub mod decimation;
pub mod resample;

verus! {

/// Configuration for DSD-to-PCM conversion.
#[derive(Debug, Clone, Copy, PartialEq, Eq, Structural)]
pub struct DsdPcmConfig {
    pub target_sample_rate: u32,
    pub remove_dc: bool,
    pub apply_lowpass: bool,
}

impl Default for DsdPcmConfig {
    /// 176.4 kHz output, with DC removal and low-pass filtering.
    fn default() -> (c: Self)
        ensures
            c.target_sample_rate == 176_400,
            c.remove_dc,
            c.apply_lowpass,
    {
        DsdPcmConfig { target_sample_rate: 176_400, remove_dc: true, apply_lowpass: true }
    }
}

/// Converts raw DSD data to PCM audio.
pub struct DsdToPcmConverter {
    config: DsdPcmConfig,
}

impl DsdToPcmConverter {
    /// The settings the converter was made with.
    pub closed spec fn settings(&self) -> DsdPcmConfig {
        self.config
    }

    /// A converter with the given settings.
    pub fn new(config: DsdPcmConfig) -> (r: Self)
        ensures
            r.settings() == config,
    {
        DsdToPcmConverter { config }
    }

    /// The settings the converter was made with.
    pub fn config(&self) -> (c: DsdPcmConfig)
        ensures
            c == self.settings(),
    {
        self.config
    }

    /// DoP (DSD over PCM) encoding: pack interleaved DSD bytes into PCM words
    /// of `bits` bits, each led by the DoP marker (see `dop_byte`).
    pub fn encode_dop(dsd_data: &[u8], _dsd_rate: u32, channels: u16, bits: u16) -> (out: Vec<u8>)
        requires
            dsd_data@.len() == 0 || (channels > 0 && bits / 8 >= 2),
            dsd_data@.len() * 4 <= usize::MAX,
            dop_frames(dsd_data@.len() as int, channels as int, (bits / 8) as int) * (channels * (bits
                / 8)) <= usize::MAX,
        ensures
            out@.len() == dop_frames(dsd_data@.len() as int, channels as int, (bits / 8) as int) * (
            channels * (bits / 8)),
            forall|o: int|
                0 <= o < out@.len() ==> #[trigger] out@[o] == dop_byte(
                    dsd_data@,
                    channels as int,
                    (bits / 8) as int,
                    dop_marker(bits),
                    o,
                ),
    {
        let ch = channels as usize;
        let bytes_per_frame = bits as usize / 8;
        let marker: u8 = match bits {
            16 => 0x05u8,
            24 => 0x69u8,
            _ => 0x05,
        };
        let len = dsd_data.len();
        let mut output: Vec<u8> = Vec::with_capacity(len * 4 / 3);
        let mut frame_nr: u8 = 0;
        let mut dsd_pos: usize = 0;
        let ghost bpf = bytes_per_frame as int;
        let ghost chi = ch as int;
        let ghost k = chi * (bpf - 1);
        let ghost frames = dop_frames(len as int, chi, bpf);
        let ghost word = chi * bpf;
        let ghost mut f: int = 0;
        proof {
            if len > 0 {
                assert(k >= 1) by (nonlinear_arith)
                    requires
                        chi >= 1,
                        bpf >= 2,
                        k == chi * (bpf - 1),
                ;
                lemma_plane_step(len as int, k, 0, 0);
            }
        }
        while dsd_pos < len
            invariant
                len == dsd_data@.len(),
                ch == channels,
                bpf == bytes_per_frame,
                bpf == bits / 8,
                chi == ch,
                k == chi * (bpf - 1),
                word == chi * bpf,
                marker == dop_marker(bits),
                frames == dop_frames(len as int, chi, bpf),
                frames * word <= usize::MAX,
                len > 0 ==> chi >= 1 && bpf >= 2 && k >= 1,
                0 <= f,
                dsd_pos == f * k,
                dsd_pos < len ==> f < frames,
                dsd_pos >= len ==> f == frames,
                frame_nr == f % 256,
                output@.len() == f * word,
                forall|o: int|
                    0 <= o < output@.len() ==> #[trigger] output@[o] == dop_byte(
                        dsd_data@,
                        chi,
                        bpf,
                        marker,
                        o,
                    ),
            decreases frames - f,
        {
            proof {
                assert((f + 1) * word <= frames * word) by (nonlinear_arith)
                    requires
                        f < frames,
                        word >= 0,
                ;
                assert((f + 1) * word == f * word + word) by (nonlinear_arith);
                assert((f + 1) * k == f * k + k) by (nonlinear_arith);
                assert(k <= word) by (nonlinear_arith)
                    requires
                        k == chi * (bpf - 1),
                        word == chi * bpf,
                        chi >= 1,
                ;
                assert(f * k <= f * word) by (nonlinear_arith)
                    requires
                        k <= word,
                        f >= 0,
                ;
                lemma_low_bit(frame_nr);
            }
            let mut c: usize = 0;
            while c < ch
                invariant
                    len == dsd_data@.len(),
                    ch == channels,
                    bpf == bytes_per_frame,
                    chi == ch,
                    chi >= 1,
                    bpf >= 2,
                    k == chi * (bpf - 1),
                    word == chi * bpf,
                    0 <= f,
                    dsd_pos == f * k,
                    (f + 1) * k == f * k + k,
                    (f + 1) * word <= usize::MAX,
                    (f + 1) * word == f * word + word,
                    k <= word,
                    f * k <= f * word,
                    frame_nr == f % 256,
                    frame_nr & 1u8 == frame_nr % 2,
                    c <= ch,
                    output@.len() == f * word + c * bpf,
                    forall|o: int|
                        0 <= o < output@.len() ==> #[trigger] output@[o] == dop_byte(
                            dsd_data@,
                            chi,
                            bpf,
                            marker,
                            o,
                        ),
                decreases ch - c,
            {
                proof {
                    assert((c + 1) * bpf <= word) by (nonlinear_arith)
                        requires
                            c < chi,
                            word == chi * bpf,
                            bpf >= 0,
                    ;
                    assert((c + 1) * bpf == c * bpf + bpf) by (nonlinear_arith);
                    lemma_dop_position(f, c as int, 0, chi, bpf);
                    assert(f * word == f * (chi * bpf));
                }
                output.push(marker ^ (frame_nr & 1));
                let mut b: usize = 0;
                while b < bytes_per_frame - 1
                    invariant
                        len == dsd_data@.len(),
                        ch == channels,
                        bpf == bytes_per_frame,
                        chi == ch,
                        chi >= 1,
                        bpf >= 2,
                        k == chi * (bpf - 1),
                        word == chi * bpf,
                        0 <= f,
                        dsd_pos == f * k,
                        (f + 1) * k == f * k + k,
                        (f + 1) * word <= usize::MAX,
                        (f + 1) * word == f * word + word,
                        k <= word,
                        f * k <= f * word,
                        c < ch,
                        (c + 1) * bpf <= word,
                        (c + 1) * bpf == c * bpf + bpf,
                        b <= bpf - 1,
                        output@.len() == f * word + c * bpf + 1 + b,
                        forall|o: int|
                            0 <= o < output@.len() ==> #[trigger] output@[o] == dop_byte(
                                dsd_data@,
                                chi,
                                bpf,
                                marker,
                                o,
                            ),
                    decreases bpf - 1 - b,
                {
                    proof {
                        assert(b * chi + c < k) by (nonlinear_arith)
                            requires
                                b < bpf - 1,
                                c < chi,
                                k == chi * (bpf - 1),
                        ;
                        lemma_dop_position(f, c as int, b + 1, chi, bpf);
                        assert(f * word == f * (chi * bpf));
                    }
                    let idx = dsd_pos + c + b * ch;
                    output.push(
                        if idx < len {
                            dsd_data[idx]
                        } else {
                            0
                        },
                    );
                    b = b + 1;
                }
                c = c + 1;
            }
            proof {
                assert(output@.len() == (f + 1) * word) by (nonlinear_arith)
                    requires
                        output@.len() == f * word + chi * bpf,
                        word == chi * bpf,
                        (f + 1) * word == f * word + word,
                ;
                lemma_plane_step(len as int, k, 0, f);
                if dsd_pos + k >= len {
                    lemma_plane_end(len as int, k, 0, f + 1);
                }
            }
            dsd_pos = dsd_pos + ch * (bytes_per_frame - 1);
            frame_nr = frame_nr.wrapping_add(1);
            proof {
                f = f + 1;
            }
        }
        output
    }
}

/// Check DSD input for conversion and split it into one buffer per channel
/// (byte `i` belongs to channel `i % channels`): the part of DSD-to-PCM
/// conversion that comes before filtering.
pub fn deinterleave_dsd(dsd_data: &[u8], channels: u16) -> (r: Result<Vec<Vec<u8>>, ChimeError>)
    ensures
        dsd_data@.len() == 0 ==> r == Err::<Vec<Vec<u8>>, ChimeError>(
            ChimeError::InvalidData(DataFault::EmptyDsd),
        ),
        dsd_data@.len() > 0 && channels == 0 ==> r == Err::<Vec<Vec<u8>>, ChimeError>(
            ChimeError::InvalidData(DataFault::ZeroChannels),
        ),
        dsd_data@.len() > 0 && channels > 0 ==> (r matches Ok(planes) && is_deinterleaving(
            dsd_data@,
            channels as int,
            planes@,
        )),
{
    if dsd_data.len() == 0 {
        return Err(ChimeError::InvalidData(DataFault::EmptyDsd));
    }
    if channels == 0 {
        return Err(ChimeError::InvalidData(DataFault::ZeroChannels));
    }
    Ok(deinterleave(dsd_data, channels))
}

/// The DoP marker byte for a PCM sample width: 0x69 for 24 bits, else 0x05.
pub open spec fn dop_marker(bits: u16) -> u8 {
    if bits == 24 {
        0x69
    } else {
        0x05
    }
}

/// DoP frames needed for `len` DSD bytes: each frame carries `bpf - 1` DSD
/// bytes of each of `ch` channels.
pub open spec fn dop_frames(len: int, ch: int, bpf: int) -> int {
    if len == 0 {
        0
    } else {
        (len + ch * (bpf - 1) - 1) / (ch * (bpf - 1))
    }
}

/// Byte `o` of the DoP stream. Frame `f` holds one `bpf`-byte word per
/// channel; word `c` starts with the marker, flipped in its lowest bit on odd
/// frames, then carries the DSD bytes `f * ch * (bpf - 1) + c + b * ch` for
/// `b` in `0..bpf - 1`, zero past the end of the data.
pub open spec fn dop_byte(data: Seq<u8>, ch: int, bpf: int, marker: u8, o: int) -> u8 {
    let f = o / (ch * bpf);
    let r = o % (ch * bpf);
    let c = r / bpf;
    let j = r % bpf;
    if j == 0 {
        marker ^ ((f % 2) as u8)
    } else {
        let idx = f * (ch * (bpf - 1)) + c + (j - 1) * ch;
        if idx < data.len() {
            data[idx]
        } else {
            0
        }
    }
}

proof fn lemma_dop_position(f: int, c: int, j: int, ch: int, bpf: int)
    requires
        0 <= f,
        0 <= c < ch,
        0 <= j < bpf,
    ensures
        (f * (ch * bpf) + c * bpf + j) / (ch * bpf) == f,
        (f * (ch * bpf) + c * bpf + j) % (ch * bpf) == c * bpf + j,
        (c * bpf + j) / bpf == c,
        (c * bpf + j) % bpf == j,
{
    assert(0 <= c * bpf + j < ch * bpf) by (nonlinear_arith)
        requires
            0 <= c < ch,
            0 <= j < bpf,
    ;
    vstd::arithmetic::div_mod::lemma_fundamental_div_mod_converse(
        f * (ch * bpf) + c * bpf + j,
        ch * bpf,
        f,
        c * bpf + j,
    );
    vstd::arithmetic::div_mod::lemma_fundamental_div_mod_converse(c * bpf + j, bpf, c, j);
}

/// Where DSD byte `idx` lands in the DoP stream: in frame `idx / k` (with
/// `k = ch * (bpf - 1)` bytes per frame), in the word of channel
/// `(idx % k) % ch`, after the marker and `(idx % k) / ch` earlier bytes.
pub open spec fn dop_position(idx: int, ch: int, bpf: int) -> int {
    let k = ch * (bpf - 1);
    let f = idx / k;
    let r = idx % k;
    f * (ch * bpf) + (r % ch) * bpf + 1 + r / ch
}

/// DoP framing loses no DSD byte: every input byte stands in the stream, at
/// `dop_position`, and that position lies inside the stream.
pub proof fn lemma_dop_carries_every_byte(data: Seq<u8>, ch: int, bpf: int, marker: u8, idx: int)
    requires
        ch > 0,
        bpf >= 2,
        0 <= idx < data.len(),
    ensures
        0 <= dop_position(idx, ch, bpf) < dop_frames(data.len() as int, ch, bpf) * (ch * bpf),
        dop_byte(data, ch, bpf, marker, dop_position(idx, ch, bpf)) == data[idx],
{
    let k = ch * (bpf - 1);
    assert(k >= 1) by (nonlinear_arith)
        requires
            ch >= 1,
            bpf >= 2,
            k == ch * (bpf - 1),
    ;
    let f = idx / k;
    let r = idx % k;
    vstd::arithmetic::div_mod::lemma_fundamental_div_mod(idx, k);
    vstd::arithmetic::div_mod::lemma_mod_bound(idx, k);
    vstd::arithmetic::div_mod::lemma_div_pos_is_pos(idx, k);
    let c = r % ch;
    let b = r / ch;
    vstd::arithmetic::div_mod::lemma_fundamental_div_mod(r, ch);
    vstd::arithmetic::div_mod::lemma_mod_bound(r, ch);
    vstd::arithmetic::div_mod::lemma_div_pos_is_pos(r, ch);
    assert(b < bpf - 1) by (nonlinear_arith)
        requires
            r < ch * (bpf - 1),
            r == ch * b + c,
            0 <= c,
            ch > 0,
    ;
    lemma_dop_position(f, c, b + 1, ch, bpf);
    assert(f * k + c + (b + 1 - 1) * ch == idx) by (nonlinear_arith)
        requires
            idx == k * f + r,
            r == ch * b + c,
    ;
    // The frame of the byte is one of the frames of the stream.
    lemma_plane_step(data.len() as int, k, 0, f);
    assert(f * k <= idx) by (nonlinear_arith)
        requires
            idx == k * f + r,
            r >= 0,
    ;
    assert(f * k + 0 < data.len());
    assert((f + 1) * (ch * bpf) <= dop_frames(data.len() as int, ch, bpf) * (ch * bpf)) by (
    nonlinear_arith)
        requires
            f + 1 <= dop_frames(data.len() as int, ch, bpf),
            ch * bpf >= 0,
    ;
    assert(c * bpf + b + 1 < ch * bpf) by (nonlinear_arith)
        requires
            0 <= c < ch,
            0 <= b + 1 < bpf,
    ;
    assert((f + 1) * (ch * bpf) == f * (ch * bpf) + ch * bpf) by (nonlinear_arith);
    assert(f * (ch * bpf) >= 0) by (nonlinear_arith)
        requires
            f >= 0,
            ch * bpf >= 0,
    ;
    assert(ch * bpf >= 0) by (nonlinear_arith)
        requires
            ch > 0,
            bpf >= 2,
    ;
}

/// Every word of a DoP frame starts with the marker, and the markers of
/// consecutive frames differ (in their lowest bit).
pub proof fn lemma_dop_marks_every_word(data: Seq<u8>, ch: int, bpf: int, marker: u8, f: int, c: int)
    requires
        ch > 0,
        bpf >= 2,
        0 <= f,
        0 <= c < ch,
    ensures
        dop_byte(data, ch, bpf, marker, f * (ch * bpf) + c * bpf) == marker ^ ((f % 2) as u8),
        dop_byte(data, ch, bpf, marker, (f + 1) * (ch * bpf) + c * bpf) != dop_byte(
            data,
            ch,
            bpf,
            marker,
            f * (ch * bpf) + c * bpf,
        ),
{
    lemma_dop_position(f, c, 0, ch, bpf);
    lemma_dop_position(f + 1, c, 0, ch, bpf);
    let a = (f % 2) as u8;
    let b = ((f + 1) % 2) as u8;
    assert(a != b && a <= 1 && b <= 1);
    assert(a != b && a <= 1u8 && b <= 1u8 ==> marker ^ a != marker ^ b) by (bit_vector);
}

proof fn lemma_low_bit(x: u8)
    by (bit_vector)
    ensures
        x & 1u8 == x % 2,
{
}

/// Bit `k` of a DSD byte in playing order: the most significant bit comes first.
pub open spec fn dsd_bit(byte: u8, k: int) -> bool {
    (byte >> ((7 - k) as u8)) & 1u8 == 1u8
}

/// The unpacking table of DSD bytes: entry `b` holds the eight samples of
/// byte `b` in playing order, `true` for +1 and `false` for -1.
pub fn dsd_sign_table() -> (table: Vec<Vec<bool>>)
    ensures
        table@.len() == 256,
        forall|b: int| 0 <= b < 256 ==> (#[trigger] table@[b])@.len() == 8,
        forall|b: int, k: int|
            0 <= b < 256 && 0 <= k < 8 ==> table@[b]@[k] == dsd_bit(b as u8, k),
{
    let mut table: Vec<Vec<bool>> = Vec::with_capacity(256);
    let mut b: u16 = 0;
    while b < 256
        invariant
            b <= 256,
            table@.len() == b,
            forall|i: int| 0 <= i < b ==> (#[trigger] table@[i])@.len() == 8,
            forall|i: int, k: int|
                0 <= i < b && 0 <= k < 8 ==> table@[i]@[k] == dsd_bit(i as u8, k),
        decreases 256 - b,
    {
        let byte = b as u8;
        let mut row: Vec<bool> = Vec::with_capacity(8);
        let mut k: u8 = 0;
        while k < 8
            invariant
                k <= 8,
                row@.len() == k,
                forall|j: int| 0 <= j < k ==> row@[j] == dsd_bit(byte, j),
            decreases 8 - k,
        {
            row.push((byte >> (7 - k)) & 1 == 1);
            k = k + 1;
        }
        table.push(row);
        b = b + 1;
    }
    table
}

/// Samples of channel `c` in an interleaved buffer of `channels` channels.
pub open spec fn plane_len(len: int, channels: int, c: int) -> int {
    (len + channels - 1 - c) / channels
}

/// `planes` splits `x` into `ch` channels: channel `c` holds the elements
/// `c`, `c + ch`, `c + 2 * ch`, ... of `x`.
pub open spec fn is_deinterleaving<T>(x: Seq<T>, ch: int, planes: Seq<Vec<T>>) -> bool {
    &&& planes.len() == ch
    &&& forall|c: int|
        0 <= c < ch ==> (#[trigger] planes[c])@.len() == plane_len(x.len() as int, ch, c)
    &&& forall|c: int, j: int|
        0 <= c < ch && 0 <= j < planes[c]@.len() ==> planes[c]@[j] == x[j * ch + c]
}

/// The length of the shortest plane, 0 where there is none.
pub open spec fn min_plane_len<T>(planes: Seq<Vec<T>>) -> nat
    decreases planes.len(),
{
    if planes.len() == 0 {
        0
    } else if planes.len() == 1 {
        planes[0]@.len()
    } else {
        let rest = min_plane_len(planes.drop_last());
        if planes.last()@.len() < rest {
            planes.last()@.len()
        } else {
            rest
        }
    }
}

/// `out` interleaves the planes frame by frame, up to the length of the
/// shortest plane: element `i` is sample `i / ch` of channel `i % ch`.
pub open spec fn is_interleaving<T>(planes: Seq<Vec<T>>, out: Seq<T>) -> bool {
    let ch = planes.len() as int;
    &&& out.len() == min_plane_len(planes) * ch
    &&& forall|i: int| 0 <= i < out.len() ==> #[trigger] out[i] == planes[i % ch]@[i / ch]
}

/// Split an interleaved buffer into one buffer per channel: element `i`
/// goes to channel `i % channels`.
pub fn deinterleave<T: Copy>(interleaved: &[T], channels: u16) -> (planes: Vec<Vec<T>>)
    requires
        channels > 0,
    ensures
        is_deinterleaving(interleaved@, channels as int, planes@),
{
    let ch = channels as usize;
    let len = interleaved.len();
    let mut planes: Vec<Vec<T>> = Vec::with_capacity(ch);
    let mut c: usize = 0;
    while c < ch
        invariant
            ch == channels,
            ch > 0,
            len == interleaved@.len(),
            c <= ch,
            planes@.len() == c,
            forall|d: int|
                0 <= d < c ==> (#[trigger] planes@[d])@.len() == plane_len(
                    len as int,
                    ch as int,
                    d,
                ),
            forall|d: int, j: int|
                0 <= d < c && 0 <= j < planes@[d]@.len() ==> planes@[d]@[j]
                    == interleaved@[j * ch + d],
        decreases ch - c,
    {
        let mut plane: Vec<T> = Vec::new();
        let mut i: usize = c;
        let ghost mut j: int = 0;
        proof {
            if c >= len {
                lemma_plane_empty(len as int, ch as int, c as int);
            } else {
                lemma_plane_step(len as int, ch as int, c as int, 0);
            }
        }
        while i < len
            invariant
                ch == channels,
                ch > 0,
                c < ch,
                len == interleaved@.len(),
                i < len ==> i == j * ch + c,
                0 <= j,
                plane@.len() == j,
                j <= plane_len(len as int, ch as int, c as int),
                i < len ==> j < plane_len(len as int, ch as int, c as int),
                i >= len ==> j == plane_len(len as int, ch as int, c as int),
                forall|m: int| 0 <= m < j ==> plane@[m] == interleaved@[m * ch + c],
            decreases len - i,
        {
            plane.push(interleaved[i]);
            proof {
                lemma_plane_step(len as int, ch as int, c as int, j);
                j = j + 1;
            }
            if len - i <= ch {
                proof {
                    lemma_plane_end(len as int, ch as int, c as int, j);
                }
                i = len;
            } else {
                i = i + ch;
            }
        }
        planes.push(plane);
        c = c + 1;
    }
    planes
}

/// Interleave per-channel buffers frame by frame, up to the length of the
/// shortest one.
pub fn interleave<T: Copy>(planes: &Vec<Vec<T>>) -> (out: Vec<T>)
    requires
        min_plane_len(planes@) * planes@.len() <= usize::MAX,
    ensures
        is_interleaving(planes@, out@),
{
    let ch = planes.len();
    if ch == 0 {
        return Vec::new();
    }
    let mut frames = planes[0].len();
    let mut c: usize = 1;
    while c < ch
        invariant
            ch == planes@.len(),
            1 <= c <= ch,
            frames == min_plane_len(planes@.subrange(0, c as int)),
        decreases ch - c,
    {
        proof {
            lemma_min_plane_len_prefix(planes@, c as int);
        }
        if planes[c].len() < frames {
            frames = planes[c].len();
        }
        c = c + 1;
    }
    assert(planes@.subrange(0, ch as int) =~= planes@);
    let mut out: Vec<T> = Vec::new();
    let mut f: usize = 0;
    while f < frames
        invariant
            ch == planes@.len(),
            ch > 0,
            frames == min_plane_len(planes@),
            frames * ch <= usize::MAX,
            f <= frames,
            out@.len() == f * ch,
            forall|i: int| 0 <= i < out@.len() ==> #[trigger] out@[i] == planes@[i % ch as int]@[i / ch as int],
        decreases frames - f,
    {
        let mut c: usize = 0;
        proof {
            assert((f + 1) * ch <= frames * ch) by (nonlinear_arith)
                requires
                    f < frames,
                    ch > 0,
            ;
            assert((f + 1) * ch == f * ch + ch) by (nonlinear_arith);
        }
        while c < ch
            invariant
                ch == planes@.len(),
                ch > 0,
                frames == min_plane_len(planes@),
                f < frames,
                (f + 1) * ch <= usize::MAX,
                (f + 1) * ch == f * ch + ch,
                c <= ch,
                out@.len() == f * ch + c,
                forall|i: int| 0 <= i < out@.len() ==> #[trigger] out@[i] == planes@[i % ch as int]@[i / ch as int],
            decreases ch - c,
        {
            proof {
                lemma_min_plane_len_le(planes@, c as int);
                vstd::arithmetic::div_mod::lemma_fundamental_div_mod_converse(
                    f * ch + c,
                    ch as int,
                    f as int,
                    c as int,
                );
            }
            out.push(planes[c][f]);
            c = c + 1;
        }
        f = f + 1;
    }
    out
}

/// Interleaving the planes of a buffer whose length is a multiple of the
/// channel count gives the buffer back.
pub proof fn lemma_interleave_undoes_deinterleave<T>(
    x: Seq<T>,
    ch: int,
    planes: Seq<Vec<T>>,
    out: Seq<T>,
)
    requires
        ch > 0,
        (x.len() as int) % ch == 0,
        is_deinterleaving(x, ch, planes),
        is_interleaving(planes, out),
    ensures
        out == x,
{
    let q = (x.len() as int) / ch;
    assert forall|c: int| 0 <= c < ch implies (#[trigger] planes[c])@.len() == q by {
        assert((x.len() + ch - 1 - c) / ch == q) by (nonlinear_arith)
            requires
                ch > 0,
                0 <= c < ch,
                (x.len() as int) % ch == 0,
                q == (x.len() as int) / ch,
        {
            vstd::arithmetic::div_mod::lemma_fundamental_div_mod(x.len() as int, ch);
            vstd::arithmetic::div_mod::lemma_fundamental_div_mod_converse(
                x.len() + ch - 1 - c,
                ch,
                q,
                ch - 1 - c,
            );
        }
    }
    lemma_min_plane_len_uniform(planes, q);
    assert(q * ch == x.len()) by (nonlinear_arith)
        requires
            ch > 0,
            (x.len() as int) % ch == 0,
            q == (x.len() as int) / ch,
    {
        vstd::arithmetic::div_mod::lemma_fundamental_div_mod(x.len() as int, ch);
    }
    assert forall|i: int| 0 <= i < out.len() implies #[trigger] out[i] == x[i] by {
        vstd::arithmetic::div_mod::lemma_fundamental_div_mod(i, ch);
        vstd::arithmetic::div_mod::lemma_div_pos_is_pos(i, ch);
        assert(i / ch < q) by (nonlinear_arith)
            requires
                ch > 0,
                0 <= i < q * ch,
        {
            vstd::arithmetic::div_mod::lemma_div_is_ordered(i, q * ch - 1, ch);
            vstd::arithmetic::div_mod::lemma_fundamental_div_mod_converse(q * ch - 1, ch, q - 1, ch - 1);
        }
        assert((i / ch) * ch + i % ch == i) by (nonlinear_arith)
            requires
                ch > 0,
                i == ch * (i / ch) + i % ch,
        ;
    }
    assert(out =~= x);
}

proof fn lemma_min_plane_len_uniform<T>(s: Seq<Vec<T>>, q: int)
    requires
        s.len() >= 1,
        forall|c: int| 0 <= c < s.len() ==> (#[trigger] s[c])@.len() == q,
    ensures
        min_plane_len(s) == q,
    decreases s.len(),
{
    if s.len() > 1 {
        let r = s.drop_last();
        assert forall|c: int| 0 <= c < r.len() implies (#[trigger] r[c])@.len() == q by {
            assert(r[c] == s[c]);
        }
        lemma_min_plane_len_uniform(r, q);
    }
}

proof fn lemma_min_plane_len_le<T>(s: Seq<Vec<T>>, c: int)
    requires
        0 <= c < s.len(),
    ensures
        min_plane_len(s) <= s[c]@.len(),
    decreases s.len(),
{
    if s.len() > 1 && c < s.len() - 1 {
        lemma_min_plane_len_le(s.drop_last(), c);
    }
}

proof fn lemma_min_plane_len_prefix<T>(s: Seq<Vec<T>>, c: int)
    requires
        1 <= c < s.len(),
    ensures
        min_plane_len(s.subrange(0, c + 1)) == if s[c]@.len() < min_plane_len(s.subrange(0, c)) {
            s[c]@.len()
        } else {
            min_plane_len(s.subrange(0, c))
        },
{
    assert(s.subrange(0, c + 1).drop_last() =~= s.subrange(0, c));
}

proof fn lemma_plane_step(len: int, ch: int, c: int, j: int)
    requires
        ch > 0,
        0 <= c < ch,
        0 <= j,
        j * ch + c < len,
    ensures
        j < plane_len(len, ch, c),
        (j + 1) * ch == j * ch + ch,
        (j + 1) * ch + c < len ==> j + 1 < plane_len(len, ch, c),
{
    assert((j + 1) * ch == j * ch + ch) by (nonlinear_arith);
    assert((len + ch - 1 - c) / ch >= j + 1) by (nonlinear_arith)
        requires
            ch > 0,
            j * ch + c < len,
            0 <= c < ch,
            0 <= j,
    {
        vstd::arithmetic::div_mod::lemma_div_is_ordered((j + 1) * ch, len + ch - 1 - c, ch);
        vstd::arithmetic::div_mod::lemma_div_multiples_vanish(j + 1, ch);
    }
    if (j + 1) * ch + c < len {
        assert((len + ch - 1 - c) / ch >= j + 2) by (nonlinear_arith)
            requires
                ch > 0,
                (j + 1) * ch + c < len,
                0 <= c < ch,
                0 <= j,
        {
            vstd::arithmetic::div_mod::lemma_div_is_ordered((j + 2) * ch, len + ch - 1 - c, ch);
            vstd::arithmetic::div_mod::lemma_div_multiples_vanish(j + 2, ch);
        }
    }
}

proof fn lemma_plane_end(len: int, ch: int, c: int, j: int)
    requires
        ch > 0,
        0 <= c < ch,
        1 <= j,
        (j - 1) * ch + c < len,
        len <= j * ch + c,
    ensures
        j == plane_len(len, ch, c),
{
    assert((len + ch - 1 - c) / ch == j) by (nonlinear_arith)
        requires
            ch > 0,
            (j - 1) * ch + c < len,
            len <= j * ch + c,
            0 <= c < ch,
    {
        vstd::arithmetic::div_mod::lemma_fundamental_div_mod_converse(
            len + ch - 1 - c,
            ch,
            j,
            len + ch - 1 - c - j * ch,
        );
    }
}

proof fn lemma_plane_empty(len: int, ch: int, c: int)
    requires
        ch > 0,
        0 <= c < ch,
        0 <= len <= c,
    ensures
        plane_len(len, ch, c) == 0,
{
    assert((len + ch - 1 - c) / ch == 0) by (nonlinear_arith)
        requires
            ch > 0,
            0 <= len + ch - 1 - c < ch,
    {
        vstd::arithmetic::div_mod::lemma_basic_div(len + ch - 1 - c, ch);
    }
}

} // verus!
