//! DST (Direct Stream Transfer) decoder for SACD.
//!
//! DST is the lossless compression used in SACD to compress DSD data. A frame
//! holds a bit-level header (frame number, channels, rate, silence flag,
//! length, filter sets and the mapping of segments to filter sets), followed
//! by the arithmetic-coded residual of each channel, which an FIR predictor
//! turns back into DSD bytes.
use crate::bytes::ByteCursor;
use crate::error::{ChimeError, DataFault};
use vstd::arithmetic::power2::*;
use vstd::prelude::*;

pub mod arithmetic;
pub mod bit_reader;
pub mod predictor;

pub use arithmetic::ArithmeticDecoder;
pub use bit_reader::DstBitReader;
pub use predictor::FirPredictor;

use arithmetic::{coder_step, CoderState, NUM_CONTEXTS};
use bit_reader::{bits_value, signed_bits_value};
use predictor::prediction;
use crate::bytes::be32;

verus! {

/// The bit at which the first filter set of a frame header starts.
pub open spec fn filter_sets_pos() -> int {
    36
}

/// The width of the segment-count field of a filter set whose segments are
/// `2^w` wide: `16 - w`, at most 10.
pub open spec fn seg_count_bits(w: nat) -> nat {
    let x: nat = if w <= 16 {
        (16 - w) as nat
    } else {
        0
    };
    if x < 10 {
        x
    } else {
        10
    }
}

/// The segment width (log 2) of the filter set at bit `p`.
pub open spec fn fs_width(data: Seq<u8>, p: int) -> nat {
    bits_value(data, p, 4)
}

/// The width of the segment-count field of the filter set at bit `p`.
pub open spec fn fs_count_bits(data: Seq<u8>, p: int) -> nat {
    seg_count_bits(fs_width(data, p))
}

/// The number of segments of the filter set at bit `p`.
pub open spec fn fs_segments(data: Seq<u8>, p: int) -> nat {
    bits_value(data, p + 4, fs_count_bits(data, p))
}

/// The number of bands (coefficients) of the filter set at bit `p`.
pub open spec fn fs_bands(data: Seq<u8>, p: int) -> nat {
    bits_value(data, p + 4 + fs_count_bits(data, p), 3)
}

/// The step bits of the filter set at bit `p`.
pub open spec fn fs_step_bits(data: Seq<u8>, p: int) -> nat {
    bits_value(data, p + 7 + fs_count_bits(data, p), 3)
}

/// Coefficient `k` of the filter set at bit `p`: a signed 10-bit field.
pub open spec fn fs_coef(data: Seq<u8>, p: int, k: int) -> int {
    signed_bits_value(data, p + 10 + fs_count_bits(data, p) + 10 * k, 10)
}

/// The length in bits of the filter set at bit `p`.
pub open spec fn fs_len(data: Seq<u8>, p: int) -> int {
    (10 + fs_count_bits(data, p) + 10 * fs_bands(data, p)) as int
}

/// The bit at which filter set `k` starts.
pub open spec fn fs_start(data: Seq<u8>, k: nat) -> int
    decreases k,
{
    if k == 0 {
        filter_sets_pos()
    } else {
        let q = fs_start(data, (k - 1) as nat);
        q + fs_len(data, q)
    }
}

/// The number of segments of the first `k` filter sets.
pub open spec fn total_segments(data: Seq<u8>, k: nat) -> nat
    decreases k,
{
    if k == 0 {
        0
    } else {
        total_segments(data, (k - 1) as nat) + fs_segments(data, fs_start(data, (k - 1) as nat))
    }
}

/// The smallest `m` with `2^m >= n`.
pub open spec fn ceil_log2(n: nat) -> nat
    decreases n,
{
    if n <= 1 {
        0
    } else {
        ceil_log2(((n + 1) / 2) as nat) + 1
    }
}

/// The number of filter sets of a frame header.
pub open spec fn header_filter_sets(data: Seq<u8>) -> nat {
    bits_value(data, 32, 4)
}

/// The width of each entry of the segment-to-filter-set mapping.
pub open spec fn header_map_bits(data: Seq<u8>) -> nat {
    ceil_log2(header_filter_sets(data))
}

/// The bit at which the segment-to-filter-set mapping starts.
pub open spec fn header_map_pos(data: Seq<u8>) -> int {
    fs_start(data, header_filter_sets(data))
}

/// The channel count of a frame header: its 4-bit code, at least 1.
pub open spec fn header_channels(data: Seq<u8>) -> nat {
    let code = bits_value(data, 12, 4);
    if code <= 1 {
        1
    } else {
        code
    }
}

/// Whether a frame header marks silence.
pub open spec fn header_is_silence(data: Seq<u8>) -> bool {
    bits_value(data, 17, 1) != 0
}

/// The byte at which the arithmetic-coded segment data of a frame starts:
/// the first byte after the header.
pub open spec fn header_data_offset(data: Seq<u8>) -> int {
    let n = total_segments(data, header_filter_sets(data));
    (header_map_pos(data) + header_map_bits(data) * n + 7) / 8
}

/// A parsed DST frame header.
#[derive(Debug, Clone)]
pub struct DstFrameHeader {
    pub frame_nr: u16,
    pub num_channels: u8,
    pub rate: u8,
    pub is_silence: bool,
    pub frame_len: u16,
    pub num_filter_sets: u8,
    pub filter_sets: Vec<DstFilterSet>,
    pub segment_mapping: Vec<u8>,
    /// Offset in bytes where segment data (arithmetic bitstream) starts.
    pub segment_data_offset: usize,
}

/// A filter set within a DST frame.
#[derive(Debug, Clone)]
pub struct DstFilterSet {
    pub segment_width_log2: u8,
    pub num_segments: u16,
    pub num_bands: u8,
    pub step_bits: u8,
    pub quant_step_size: u8,
    pub coefficients: Vec<i16>,
}

/// The filter set `fs` is the one at bit `p` of `data`.
pub open spec fn filter_set_at(fs: DstFilterSet, data: Seq<u8>, p: int) -> bool {
    &&& fs.segment_width_log2 == fs_width(data, p)
    &&& fs.num_segments == fs_segments(data, p)
    &&& fs.num_bands == fs_bands(data, p)
    &&& fs.step_bits == fs_step_bits(data, p)
    &&& fs.quant_step_size == if fs_step_bits(data, p) > 0 {
        pow2((fs_step_bits(data, p) - 1) as nat) as int
    } else {
        0
    }
    &&& fs.coefficients@.len() == fs_bands(data, p)
    &&& forall|k: int|
        0 <= k < fs.coefficients@.len() ==> fs.coefficients@[k] == fs_coef(data, p, k)
}

/// The header `h` is the one at the start of `data`.
pub open spec fn header_of(h: DstFrameHeader, data: Seq<u8>) -> bool {
    let nfs = header_filter_sets(data);
    let n = total_segments(data, nfs);
    let m = header_map_bits(data);
    &&& h.frame_nr == bits_value(data, 0, 12)
    &&& h.num_channels == header_channels(data)
    &&& h.rate == bits_value(data, 16, 1)
    &&& h.is_silence == header_is_silence(data)
    &&& h.frame_len == bits_value(data, 18, 14)
    &&& h.num_filter_sets == nfs
    &&& h.filter_sets@.len() == nfs
    &&& forall|i: int|
        0 <= i < nfs ==> filter_set_at(#[trigger] h.filter_sets@[i], data, fs_start(data, i as nat))
    &&& h.segment_mapping@.len() == n
    &&& forall|j: int|
        0 <= j < n ==> #[trigger] h.segment_mapping@[j] == if m > 0 {
            bits_value(data, header_map_pos(data) + m * j, m)
        } else {
            0
        }
    &&& h.segment_data_offset == header_data_offset(data)
}

proof fn lemma_field_bound(data: Seq<u8>, p: int, n: nat)
    ensures
        bits_value(data, p, n) < pow2(n),
{
    bit_reader::lemma_bits_value_split(data, p, n);
}

/// A filter set is at most 100 bits long, with at most 1023 segments.
proof fn lemma_fs_bounds(data: Seq<u8>, p: int)
    ensures
        fs_count_bits(data, p) <= 10,
        fs_width(data, p) < 16,
        fs_segments(data, p) < 1024,
        fs_bands(data, p) < 8,
        fs_step_bits(data, p) < 8,
        10 <= fs_len(data, p) <= 100,
{
    lemma2_to64();
    lemma_field_bound(data, p, 4);
    lemma_field_bound(data, p + 4, fs_count_bits(data, p));
    lemma_field_bound(data, p + 4 + fs_count_bits(data, p), 3);
    lemma_field_bound(data, p + 7 + fs_count_bits(data, p), 3);
    if fs_count_bits(data, p) < 10 {
        lemma_pow2_strictly_increases(fs_count_bits(data, p), 10);
    }
}

/// Filter set `k` starts at most 100 bits per set after the first, and the
/// segments of `k` sets number at most 1023 each.
proof fn lemma_fs_start_bound(data: Seq<u8>, k: nat)
    ensures
        filter_sets_pos() <= fs_start(data, k) <= filter_sets_pos() + 100 * k,
        total_segments(data, k) <= 1023 * k,
    decreases k,
{
    if k > 0 {
        lemma_fs_start_bound(data, (k - 1) as nat);
        lemma_fs_bounds(data, fs_start(data, (k - 1) as nat));
    }
}

proof fn lemma_ceil_log2_small(n: nat)
    requires
        n < 16,
    ensures
        ceil_log2(n) <= 4,
        n >= 2 ==> ceil_log2(n) >= 1,
        n >= 2 ==> pow2((ceil_log2(n) - 1) as nat) < n <= pow2(ceil_log2(n)),
{
    reveal_with_fuel(ceil_log2, 5);
    lemma2_to64();
}

/// Computes the smallest `m` with `2^m >= n`, for a filter-set count.
fn map_bits_for(n: u8) -> (m: u8)
    requires
        n < 16,
    ensures
        m == ceil_log2(n as nat),
{
    proof {
        reveal_with_fuel(ceil_log2, 5);
    }
    if n <= 1 {
        0
    } else if n <= 2 {
        1
    } else if n <= 4 {
        2
    } else if n <= 8 {
        3
    } else {
        4
    }
}

/// `channels` planes of `frame_bytes` zero bytes.
pub open spec fn zero_planes(channels: nat, frame_bytes: nat) -> Seq<Seq<u8>> {
    Seq::new(channels, |i: int| Seq::new(frame_bytes, |j: int| 0u8))
}

/// The segment width (log 2) of filter set `k` of the header of `d`.
pub open spec fn plan_width(d: Seq<u8>, k: int) -> nat {
    fs_width(d, fs_start(d, k as nat))
}

/// The predictor coefficients of filter set `k`: its 10-bit coefficients
/// cut to 8 bits.
pub open spec fn plan_coefs(d: Seq<u8>, k: int) -> Seq<i32> {
    let p = fs_start(d, k as nat);
    Seq::new(fs_bands(d, p), |j: int| (fs_coef(d, p, j) as i8) as i32)
}

/// The quantization step of filter set `k`: `2^(step_bits - 1)`, or 1 for
/// no step bits.
pub open spec fn plan_step(d: Seq<u8>, k: int) -> int {
    let sb = fs_step_bits(d, fs_start(d, k as nat));
    if sb > 0 {
        pow2((sb - 1) as nat) as int
    } else {
        1
    }
}

/// The widest segment width of the first `k` filter sets; 4 for none.
pub open spec fn seg_shift(d: Seq<u8>, k: nat) -> nat
    decreases k,
{
    if k == 0 {
        4
    } else if k == 1 {
        plan_width(d, 0)
    } else {
        let m = seg_shift(d, (k - 1) as nat);
        if plan_width(d, k - 1) > m {
            plan_width(d, k - 1)
        } else {
            m
        }
    }
}

/// The largest predictor order of the first `k` filter sets (the length of
/// the prediction history); 8 for none.
pub open spec fn hist_len(d: Seq<u8>, k: nat) -> nat
    decreases k,
{
    if k == 0 {
        8
    } else if k == 1 {
        plan_coefs(d, 0).len()
    } else {
        let m = hist_len(d, (k - 1) as nat);
        if plan_coefs(d, k - 1).len() > m {
            plan_coefs(d, k - 1).len()
        } else {
            m
        }
    }
}

/// Entry `j` of the segment-to-filter-set mapping.
pub open spec fn mapping_at(d: Seq<u8>, j: int) -> int {
    let m = header_map_bits(d);
    if m > 0 {
        bits_value(d, header_map_pos(d) + m * j, m) as int
    } else {
        0
    }
}

/// The segment of DSD byte `i`: its first bit shifted by the widest
/// segment width.
pub open spec fn seg_of(d: Seq<u8>, i: int) -> int {
    (((i * 8) as usize) >> (seg_shift(d, header_filter_sets(d)) as u8)) as int
}

/// The filter set that predicts segment `seg`: its mapping entry (0 past
/// the mapping), at most the last filter set.
pub open spec fn set_of_seg(d: Seq<u8>, seg: int) -> int {
    let nfs = header_filter_sets(d);
    let f = if seg < total_segments(d, nfs) {
        mapping_at(d, seg)
    } else {
        0
    };
    let last = if nfs == 0 {
        0
    } else {
        nfs - 1
    };
    if f < last {
        f
    } else {
        last
    }
}

/// The arithmetic decoder after it has read the first four bytes of `seg`:
/// the full interval, and 64 uniform contexts of 256 symbols.
pub open spec fn initial_coder(seg: Seq<u8>) -> CoderState {
    CoderState {
        low: 0,
        high: 0xFFFF_FFFF,
        code: be32(seg, 0) as u32,
        pos: 4,
        reads: true,
        freqs: Seq::new(NUM_CONTEXTS as nat, |i: int| Seq::new(257, |j: int| j as u32)),
        totals: Seq::new(NUM_CONTEXTS as nat, |i: int| 256u32),
    }
}

/// The first `k` bytes of a channel decoded from the segment data `seg` of
/// frame `d`, with the decoder and the prediction history (most recent
/// byte first) after them. Byte `i` is the prediction of the filter set of
/// its segment from the history, plus the symbol that the arithmetic
/// decoder decodes in the context of that prediction, modulo 256.
pub open spec fn channel_run(d: Seq<u8>, seg: Seq<u8>, k: nat) -> (CoderState, Seq<u8>, Seq<u8>)
    decreases k,
{
    if k == 0 {
        (
            initial_coder(seg),
            Seq::new(hist_len(d, header_filter_sets(d)), |j: int| 0u8),
            Seq::empty(),
        )
    } else {
        let prev = channel_run(d, seg, (k - 1) as nat);
        let q = set_of_seg(d, seg_of(d, k - 1));
        let pred = prediction(prev.1, plan_coefs(d, q), plan_step(d, q)) as u8;
        let step = coder_step(prev.0, seg, pred);
        let v = ((pred as int + step.1 as int) % 256) as u8;
        let h = hist_len(d, header_filter_sets(d));
        (step.0, seq![v] + prev.1.subrange(0, h - 1), prev.2.push(v))
    }
}

/// Whether decoding `n` bytes of a channel from `seg` panics: the data holds
/// the four bytes that the decoder starts from and bytes are asked for, and
/// the frame has no filter set, or a prediction history of no bytes, or the
/// byte count overflows, or the code falls below the interval before some
/// byte.
pub open spec fn channel_panics(d: Seq<u8>, seg: Seq<u8>, n: nat) -> bool {
    &&& seg.len() >= 4
    &&& n > 0
    &&& {
        ||| header_filter_sets(d) == 0
        ||| hist_len(d, header_filter_sets(d)) == 0
        ||| (n - 1) * 8 > usize::MAX
        ||| exists|j: nat| j < n && (#[trigger] channel_run(d, seg, j)).0.low > channel_run(
            d,
            seg,
            j,
        ).0.code
    }
}

/// The segment data of frame `d`: the bytes after its header.
pub open spec fn segment_bytes(d: Seq<u8>) -> Seq<u8> {
    d.subrange(header_data_offset(d), d.len() as int)
}

/// Whether decoding `data` as a frame of `frame_bytes` bytes per channel
/// for `channels` channels panics: a non-silent frame whose channel count
/// matches, and whose header runs past the data or whose channel decoding
/// panics.
pub open spec fn dst_decode_panics(data: Seq<u8>, frame_bytes: int, channels: int) -> bool {
    &&& data.len() > 0
    &&& !header_is_silence(data)
    &&& header_channels(data) == channels
    &&& (header_data_offset(data) > data.len() || channel_panics(
        data,
        segment_bytes(data),
        frame_bytes as nat,
    ))
}

/// The outcome of decoding `data` as a frame of `frame_bytes` bytes per
/// channel for `channels` channels, where it does not panic: zeros for a
/// silent frame; otherwise every channel decoded from the segment data.
pub open spec fn dst_decode_result(data: Seq<u8>, frame_bytes: int, channels: int) -> Result<
    Seq<Seq<u8>>,
    ChimeError,
> {
    if data.len() == 0 {
        Err(ChimeError::InvalidData(DataFault::EmptyDstFrame))
    } else if header_is_silence(data) {
        Ok(zero_planes(channels as nat, frame_bytes as nat))
    } else if header_channels(data) != channels {
        Err(
            ChimeError::InvalidData(
                DataFault::ChannelMismatch {
                    header: header_channels(data) as u8,
                    decoder: channels as usize,
                },
            ),
        )
    } else if data.len() - header_data_offset(data) < 4 {
        Err(ChimeError::Io)
    } else {
        Ok(
            Seq::new(
                channels as nat,
                |c: int| channel_run(data, segment_bytes(data), frame_bytes as nat).2,
            ),
        )
    }
}

/// The channel planes of a decoded frame.
pub open spec fn planes_view(v: Seq<Vec<u8>>) -> Seq<Seq<u8>> {
    v.map_values(|p: Vec<u8>| p@)
}

/// `n` zero bytes.
pub fn zeros(n: usize) -> (v: Vec<u8>)
    ensures
        v@ == Seq::new(n as nat, |j: int| 0u8),
{
    let mut v: Vec<u8> = Vec::with_capacity(n);
    let mut i: usize = 0;
    while i < n
        invariant
            i <= n,
            v@ == Seq::new(i as nat, |j: int| 0u8),
        decreases n - i,
    {
        v.push(0);
        i = i + 1;
    }
    v
}

/// `channels` planes of `n` zero bytes.
fn zero_plane_vec(channels: usize, n: usize) -> (v: Vec<Vec<u8>>)
    ensures
        v@.len() == channels,
        planes_view(v@) == zero_planes(channels as nat, n as nat),
{
    let mut v: Vec<Vec<u8>> = Vec::with_capacity(channels);
    let mut c: usize = 0;
    while c < channels
        invariant
            c <= channels,
            v@.len() == c,
            planes_view(v@) == zero_planes(c as nat, n as nat),
        decreases channels - c,
    {
        let z = zeros(n);
        let ghost before = planes_view(v@);
        v.push(z);
        assert forall|i: int| 0 <= i <= c implies planes_view(v@)[i] =~= zero_planes(
            (c + 1) as nat,
            n as nat,
        )[i] by {
            if i < c {
                assert(planes_view(v@)[i] == before[i]);
            }
        }
        assert(planes_view(v@) =~= zero_planes((c + 1) as nat, n as nat));
        c = c + 1;
    }
    v
}

/// DST frame decoder.
pub struct DstDecoder {
    pub frame_bytes: usize,
    pub channels: usize,
}

impl DstDecoder {
    /// A decoder of frames of `frame_bytes` bytes per channel.
    pub fn new(frame_bytes: usize, channels: usize) -> (d: Self)
        ensures
            d.frame_bytes == frame_bytes,
            d.channels == channels,
    {
        Self { frame_bytes, channels }
    }

    /// Parse a DST frame header from raw bytes. Bits past the end read as
    /// zero, so every input gives a header.
    pub fn parse_frame_header(data: &[u8]) -> (r: Result<DstFrameHeader, ChimeError>)
        ensures
            r matches Ok(h) && header_of(h, data@),
    {
        let ghost d = data@;
        let mut reader = DstBitReader::new(data);
        proof {
            lemma2_to64();
            lemma_field_bound(d, 0, 12);
            lemma_field_bound(d, 12, 4);
            lemma_field_bound(d, 16, 1);
            lemma_field_bound(d, 17, 1);
            lemma_field_bound(d, 18, 14);
            lemma_field_bound(d, 32, 4);
            vstd::arithmetic::div_mod::lemma_small_mod(bits_value(d, 0, 12), 0x1_0000_0000);
            vstd::arithmetic::div_mod::lemma_small_mod(bits_value(d, 12, 4), 0x1_0000_0000);
            vstd::arithmetic::div_mod::lemma_small_mod(bits_value(d, 16, 1), 0x1_0000_0000);
            vstd::arithmetic::div_mod::lemma_small_mod(bits_value(d, 17, 1), 0x1_0000_0000);
            vstd::arithmetic::div_mod::lemma_small_mod(bits_value(d, 18, 14), 0x1_0000_0000);
            vstd::arithmetic::div_mod::lemma_small_mod(bits_value(d, 32, 4), 0x1_0000_0000);
        }
        let frame_nr = reader.read_bits(12) as u16;
        let num_channels_code = reader.read_bits(4) as u8;
        let num_channels = if num_channels_code <= 1 {
            1
        } else {
            num_channels_code
        };
        let rate = reader.read_bits(1) as u8;
        let is_silence = reader.read_bits(1) != 0;
        let frame_len = reader.read_bits(14) as u16;
        let num_filter_sets = reader.read_bits(4) as u8;

        let mut filter_sets: Vec<DstFilterSet> = Vec::new();
        let mut total_segments: u16 = 0;
        let mut k: u8 = 0;
        while k < num_filter_sets
            invariant
                num_filter_sets == header_filter_sets(d),
                num_filter_sets < 16,
                k <= num_filter_sets,
                reader.bytes() == d,
                reader.pos() == fs_start(d, k as nat),
                filter_sets@.len() == k,
                forall|i: int|
                    0 <= i < k ==> filter_set_at(
                        #[trigger] filter_sets@[i],
                        d,
                        fs_start(d, i as nat),
                    ),
                total_segments == self::total_segments(d, k as nat),
            decreases num_filter_sets - k,
        {
            let ghost p = reader.pos();
            proof {
                lemma_fs_start_bound(d, k as nat);
                lemma_fs_bounds(d, p);
                lemma2_to64();
                lemma_field_bound(d, p, 4);
                lemma_field_bound(d, p + 4, fs_count_bits(d, p));
                lemma_pow2_strictly_increases(10, 32);
                vstd::arithmetic::div_mod::lemma_small_mod(fs_width(d, p), 0x1_0000_0000);
                vstd::arithmetic::div_mod::lemma_small_mod(fs_segments(d, p), 0x1_0000_0000);
                vstd::arithmetic::div_mod::lemma_small_mod(fs_bands(d, p), 0x1_0000_0000);
                vstd::arithmetic::div_mod::lemma_small_mod(fs_step_bits(d, p), 0x1_0000_0000);
            }
            let seg_width_log2 = reader.read_bits(4) as u8;
            let num_seg_bits = 16u8.saturating_sub(seg_width_log2);
            let count_bits = if num_seg_bits < 10 {
                num_seg_bits
            } else {
                10
            };
            assert(count_bits == fs_count_bits(d, p));
            let num_segments = reader.read_bits(count_bits) as u16;
            let num_bands = reader.read_bits(3) as u8;
            let step_bits = reader.read_bits(3) as u8;
            let quant_step_size: u8 = if step_bits > 0 {
                proof {
                    vstd::bits::lemma_u8_shl_is_mul(1u8, (step_bits - 1) as u8);
                    lemma_pow2_strictly_increases((step_bits - 1) as nat, 8);
                }
                1u8 << (step_bits - 1)
            } else {
                0
            };
            let mut coefficients: Vec<i16> = Vec::new();
            let mut b: u8 = 0;
            while b < num_bands
                invariant
                    num_bands == fs_bands(d, p),
                    num_bands < 8,
                    b <= num_bands,
                    reader.bytes() == d,
                    reader.pos() == p + 10 + fs_count_bits(d, p) + 10 * b,
                    0 <= p <= 2000,
                    fs_count_bits(d, p) <= 10,
                    coefficients@.len() == b,
                    forall|j: int| 0 <= j < b ==> coefficients@[j] == fs_coef(d, p, j),
                decreases num_bands - b,
            {
                let ghost q = reader.pos();
                proof {
                    lemma_field_bound(d, q, 10);
                    bit_reader::lemma_bits_value_split(d, q, 10);
                    bit_reader::lemma_bit_at_bound(d, q);
                    lemma2_to64();
                }
                let coef = reader.read_signed_bits(10);
                coefficients.push(coef as i16);
                b = b + 1;
            }
            filter_sets.push(
                DstFilterSet {
                    segment_width_log2: seg_width_log2,
                    num_segments,
                    num_bands,
                    step_bits,
                    quant_step_size,
                    coefficients,
                },
            );
            proof {
                lemma_fs_start_bound(d, (k + 1) as nat);
            }
            total_segments = total_segments + num_segments;
            k = k + 1;
        }
        proof {
            lemma_fs_start_bound(d, num_filter_sets as nat);
            lemma_ceil_log2_small(num_filter_sets as nat);
        }
        let map_bits = map_bits_for(num_filter_sets);
        let ghost m0 = reader.pos();
        let mut segment_mapping: Vec<u8> = Vec::new();
        if map_bits > 0 {
            let mut j: u16 = 0;
            while j < total_segments
                invariant
                    map_bits == header_map_bits(d),
                    1 <= map_bits <= 4,
                    j <= total_segments,
                    total_segments <= 1023 * 15,
                    reader.bytes() == d,
                    0 <= m0 <= 2000,
                    reader.pos() == m0 + map_bits * j,
                    segment_mapping@.len() == j,
                    forall|i: int|
                        0 <= i < j ==> #[trigger] segment_mapping@[i] == bits_value(
                            d,
                            m0 + map_bits * i,
                            map_bits as nat,
                        ),
                decreases total_segments - j,
            {
                let ghost q = reader.pos();
                proof {
                    lemma_field_bound(d, q, map_bits as nat);
                    lemma2_to64();
                    lemma_pow2_strictly_increases(map_bits as nat, 8);
                    vstd::arithmetic::div_mod::lemma_small_mod(
                        bits_value(d, q, map_bits as nat),
                        0x1_0000_0000,
                    );
                }
                assert(map_bits * j <= 4 * 15345) by (nonlinear_arith)
                    requires
                        map_bits <= 4,
                        j <= 15345,
                ;
                assert(map_bits * (j + 1) == map_bits * j + map_bits) by (nonlinear_arith);
                let filter_set = reader.read_bits(map_bits) as u8;
                segment_mapping.push(filter_set);
                j = j + 1;
            }
        } else if total_segments > 0 {
            let mut j: u16 = 0;
            while j < total_segments
                invariant
                    j <= total_segments,
                    segment_mapping@.len() == j,
                    forall|i: int| 0 <= i < j ==> #[trigger] segment_mapping@[i] == 0,
                decreases total_segments - j,
            {
                segment_mapping.push(0);
                j = j + 1;
            }
        }
        proof {
            if map_bits > 0 {
                assert(reader.pos() == m0 + map_bits * total_segments);
                assert(map_bits * total_segments <= 4 * 15345) by (nonlinear_arith)
                    requires
                        map_bits <= 4,
                        total_segments <= 15345,
                ;
            } else {
                assert(reader.pos() == m0);
                assert(map_bits * total_segments == 0) by (nonlinear_arith)
                    requires
                        map_bits == 0,
                ;
            }
            assert(reader.pos() == header_map_pos(d) + header_map_bits(d) * self::total_segments(
                d,
                header_filter_sets(d),
            ));
        }
        let segment_data_offset = reader.bytes_consumed();
        let h = DstFrameHeader {
            frame_nr,
            num_channels,
            rate,
            is_silence,
            frame_len,
            num_filter_sets,
            filter_sets,
            segment_mapping,
            segment_data_offset,
        };
        proof {
            let nfs = header_filter_sets(d);
            assert(m0 == header_map_pos(d));
            assert(h.frame_nr == bits_value(d, 0, 12));
            assert(h.num_channels == header_channels(d));
            assert(h.rate == bits_value(d, 16, 1));
            assert(h.is_silence == header_is_silence(d));
            assert(h.frame_len == bits_value(d, 18, 14));
            assert(h.num_filter_sets == nfs);
            assert(h.segment_mapping@.len() == self::total_segments(d, nfs));
            assert(h.segment_data_offset == header_data_offset(d));
        }
        Ok(h)
    }

    /// Decode one DST frame from the bitstream. Returns DSD bytes per
    /// channel: zeros for a silent frame; otherwise each channel decoded
    /// from the segment data (see `channel_run`).
    pub fn decode_frame(&self, data: &[u8]) -> (r: Result<Vec<Vec<u8>>, ChimeError>)
        requires
            !dst_decode_panics(data@, self.frame_bytes as int, self.channels as int),
        ensures
            match r {
                Ok(v) => dst_decode_result(data@, self.frame_bytes as int, self.channels as int)
                    == Ok::<Seq<Seq<u8>>, ChimeError>(planes_view(v@)),
                Err(e) => dst_decode_result(data@, self.frame_bytes as int, self.channels as int)
                    == Err::<Seq<Seq<u8>>, ChimeError>(e),
            },
    {
        match self.try_decode_frame(data) {
            Some(r) => r,
            None => {
                assert(false);
                Err(ChimeError::Io)
            },
        }
    }

    /// Decode one DST frame, or `None` where decoding it would go wrong
    /// (see `dst_decode_panics`): a header that runs past the data, a frame
    /// without filter sets or prediction history, a byte count too large to
    /// address, or a code that falls below the interval before some byte.
    /// Otherwise the outcome of `decode_frame`.
    pub fn try_decode_frame(&self, data: &[u8]) -> (r: Option<Result<Vec<Vec<u8>>, ChimeError>>)
        ensures
            r is None <==> dst_decode_panics(data@, self.frame_bytes as int, self.channels as int),
            r matches Some(Ok(v)) ==> dst_decode_result(
                data@,
                self.frame_bytes as int,
                self.channels as int,
            ) == Ok::<Seq<Seq<u8>>, ChimeError>(planes_view(v@)),
            r matches Some(Err(e)) ==> dst_decode_result(
                data@,
                self.frame_bytes as int,
                self.channels as int,
            ) == Err::<Seq<Seq<u8>>, ChimeError>(e),
    {
        if data.len() == 0 {
            return Some(Err(ChimeError::InvalidData(DataFault::EmptyDstFrame)));
        }
        let hdr = match Self::parse_frame_header(data) {
            Ok(h) => h,
            Err(e) => {
                return Some(Err(e));
            },
        };
        if hdr.is_silence {
            return Some(Ok(zero_plane_vec(self.channels, self.frame_bytes)));
        }
        if hdr.num_channels as usize != self.channels {
            return Some(
                Err(
                    ChimeError::InvalidData(
                        DataFault::ChannelMismatch {
                            header: hdr.num_channels,
                            decoder: self.channels,
                        },
                    ),
                ),
            );
        }
        if hdr.segment_data_offset > data.len() {
            return None;
        }
        let mut output = zero_plane_vec(self.channels, self.frame_bytes);
        let segment_data = vstd::slice::slice_subrange(
            data,
            hdr.segment_data_offset,
            data.len(),
        );
        let ghost d = data@;
        let ghost plane = channel_run(d, segment_data@, self.frame_bytes as nat).2;
        assert forall|c: int| 0 <= c < self.channels implies (#[trigger] output@[c])@ == Seq::new(
            self.frame_bytes as nat,
            |j: int| 0u8,
        ) by {
            assert(planes_view(output@)[c] == output@[c]@);
        }
        let mut ch: usize = 0;
        while ch < self.channels
            invariant
                ch <= self.channels,
                header_of(hdr, d),
                d == data@,
                d.len() > 0,
                !header_is_silence(d),
                header_channels(d) == self.channels,
                hdr.num_channels == self.channels,
                segment_data@ == segment_bytes(d),
                hdr.segment_data_offset <= d.len(),
                ch > 0 ==> !channel_panics(d, segment_data@, self.frame_bytes as nat),
                plane == channel_run(d, segment_data@, self.frame_bytes as nat).2,
                ch > 0 ==> segment_data@.len() >= 4,
                output@.len() == self.channels,
                forall|c: int| 0 <= c < ch ==> (#[trigger] output@[c])@ == plane,
                forall|c: int|
                    ch <= c < self.channels ==> (#[trigger] output@[c])@ == Seq::new(
                        self.frame_bytes as nat,
                        |j: int| 0u8,
                    ),
            decreases self.channels - ch,
        {
            let ghost before = output@;
            let mut p = zeros(self.frame_bytes);
            match self.decode_channel(segment_data, &hdr, &mut p, Ghost(d)) {
                None => {
                    return None;
                },
                Some(Ok(())) => {},
                Some(Err(e)) => {
                    return Some(Err(e));
                },
            }
            output.set(ch, p);
            assert forall|c: int| 0 <= c < ch + 1 implies (#[trigger] output@[c])@ == plane by {
                if c < ch {
                    assert(output@[c] == before[c]);
                }
            }
            assert forall|c: int| ch + 1 <= c < self.channels implies (#[trigger] output@[c])@
                == Seq::new(self.frame_bytes as nat, |j: int| 0u8) by {
                assert(output@[c] == before[c]);
            }
            ch = ch + 1;
        }
        assert(planes_view(output@) =~= Seq::new(self.channels as nat, |c: int| plane));
        Some(Ok(output))
    }

    /// Decodes the DSD bytes of one channel into `output` from the
    /// arithmetic-coded segment data, with each segment predicted by the
    /// filter set that the header maps it to (see `channel_run`).
    #[verifier::rlimit(60)]
    #[verifier::spinoff_prover]
    fn decode_channel(
        &self,
        segment_data: &[u8],
        hdr: &DstFrameHeader,
        output: &mut Vec<u8>,
        Ghost(d): Ghost<Seq<u8>>,
    ) -> (r: Option<Result<(), ChimeError>>)
        requires
            old(output)@.len() == self.frame_bytes,
            header_of(*hdr, d),
        ensures
            r is None <==> channel_panics(d, segment_data@, self.frame_bytes as nat),
            segment_data@.len() < 4 ==> (r == Some(Err::<(), ChimeError>(ChimeError::Io))
                && final(output)@ == old(output)@),
            segment_data@.len() >= 4 && r is Some ==> (r == Some(Ok::<(), ChimeError>(()))
                && final(output)@ == channel_run(d, segment_data@, self.frame_bytes as nat).2),
    {
        let ghost seg = segment_data@;
        let ghost nfs = header_filter_sets(d);
        let ghost fb = self.frame_bytes as nat;
        let mut arith = ArithmeticDecoder::new();
        let mut arith_reader = ByteCursor::new(segment_data);
        match arith.init(&mut arith_reader) {
            Ok(()) => {},
            Err(e) => {
                return Some(Err(e));
            },
        }
        proof {
            assert(arith.freqs() =~= initial_coder(seg).freqs) by {
                assert forall|i: int| 0 <= i < NUM_CONTEXTS implies #[trigger] arith.freqs()[i]
                    =~= initial_coder(seg).freqs[i] by {
                    assert(arith.freqs()[i].len() == 257);
                }
            }
            assert(arith.totals() =~= initial_coder(seg).totals);
            assert(arith.state(arith_reader.pos()) == initial_coder(seg));
        }

        // The segment bit width: the widest of the filter sets, 4 without any.
        let mut seg_bits: u8 = 4;
        let mut k: usize = 0;
        while k < hdr.filter_sets.len()
            invariant
                k <= hdr.filter_sets@.len(),
                header_of(*hdr, d),
                seg_bits == seg_shift(d, k as nat),
                seg_bits < 16,
            decreases hdr.filter_sets@.len() - k,
        {
            let w = hdr.filter_sets[k].segment_width_log2;
            assert(w == plan_width(d, k as int));
            proof {
                bit_reader::lemma_bits_value_split(d, fs_start(d, k as nat), 4);
                lemma2_to64();
            }
            if k == 0 || w > seg_bits {
                seg_bits = w;
            }
            k = k + 1;
        }

        // Predictors per filter set.
        let mut cached_predictors: Vec<FirPredictor> = Vec::new();
        let mut max_order: usize = 8;
        let mut k: usize = 0;
        while k < hdr.filter_sets.len()
            invariant
                k <= hdr.filter_sets@.len(),
                header_of(*hdr, d),
                cached_predictors@.len() == k,
                max_order == hist_len(d, k as nat),
                forall|i: int|
                    0 <= i < k ==> (#[trigger] cached_predictors@[i]).coefficients() == plan_coefs(
                        d,
                        i,
                    ) && cached_predictors@[i].step() == plan_step(d, i),
            decreases hdr.filter_sets@.len() - k,
        {
            let fs = &hdr.filter_sets[k];
            let ghost p = fs_start(d, k as nat);
            assert(filter_set_at(*fs, d, p));
            let mut coef: Vec<i8> = Vec::new();
            let mut j: usize = 0;
            while j < fs.coefficients.len()
                invariant
                    j <= fs.coefficients@.len(),
                    coef@.len() == j,
                    forall|t: int| 0 <= t < j ==> coef@[t] == #[verifier::truncate] (fs.coefficients@[t] as i8),
                decreases fs.coefficients@.len() - j,
            {
                coef.push(#[verifier::truncate] (fs.coefficients[j] as i8));
                j = j + 1;
            }
            let pr = FirPredictor::new(coef.as_slice(), fs.quant_step_size as i32);
            proof {
                assert(pr.coefficients() =~= plan_coefs(d, k as int));
                if fs_step_bits(d, p) > 0 {
                    lemma_pow2_pos((fs_step_bits(d, p) - 1) as nat);
                }
            }
            let order = pr.order();
            if k == 0 || order > max_order {
                max_order = order;
            }
            cached_predictors.push(pr);
            k = k + 1;
        }
        if self.frame_bytes > 0 {
            if hdr.filter_sets.len() == 0 || max_order == 0 {
                return None;
            }
            if self.frame_bytes - 1 > usize::MAX / 8 {
                proof {
                    let m = self.frame_bytes - 1;
                    assert(m * 8 > usize::MAX) by (nonlinear_arith)
                        requires
                            m > usize::MAX / 8,
                    ;
                }
                return None;
            }
            proof {
                let m = self.frame_bytes - 1;
                assert(m * 8 <= usize::MAX) by (nonlinear_arith)
                    requires
                        m <= usize::MAX / 8,
                ;
            }
        }
        let mut history: Vec<u8> = zeros(max_order);
        proof {
            assert(history@ =~= channel_run(d, seg, 0).1);
            assert(Seq::<u8>::empty() =~= output@.subrange(0, 0));
        }

        let mut current_seg_idx: usize = usize::MAX;
        let mut current_predictor_idx: usize = 0;
        let mut byte_idx: usize = 0;
        while byte_idx < self.frame_bytes
            invariant
                header_of(*hdr, d),
                seg == segment_data@,
                seg.len() >= 4,
                fb == self.frame_bytes,
                fb > 0 ==> nfs > 0 && max_order > 0 && (fb - 1) * 8 <= usize::MAX,
                forall|j: nat|
                    j < byte_idx ==> (#[trigger] channel_run(d, seg, j)).0.low <= channel_run(
                        d,
                        seg,
                        j,
                    ).0.code,
                byte_idx <= self.frame_bytes,
                output@.len() == self.frame_bytes,
                output@.subrange(0, byte_idx as int) == channel_run(d, seg, byte_idx as nat).2,
                arith.wf(),
                arith.reads_input(),
                arith.low() <= arith.high(),
                arith.high() - arith.low() >= arithmetic::RESCALE_LIMIT,
                arith.state(arith_reader.pos()) == channel_run(d, seg, byte_idx as nat).0,
                arith_reader.bytes() == seg,
                history@ == channel_run(d, seg, byte_idx as nat).1,
                history@.len() == max_order,
                max_order == hist_len(d, nfs),
                nfs == hdr.filter_sets@.len(),
                seg_bits == seg_shift(d, nfs),
                seg_bits < 16,
                cached_predictors@.len() == nfs,
                forall|i: int|
                    0 <= i < nfs ==> (#[trigger] cached_predictors@[i]).coefficients() == plan_coefs(
                        d,
                        i,
                    ) && cached_predictors@[i].step() == plan_step(d, i),
                current_seg_idx != usize::MAX ==> current_predictor_idx == set_of_seg(
                    d,
                    current_seg_idx as int,
                ),
            decreases self.frame_bytes - byte_idx,
        {
            let ghost i = byte_idx as nat;
            let ghost prev = channel_run(d, seg, i);
            if !arith.code_at_or_above_low() {
                assert(channel_run(d, seg, i).0.low > channel_run(d, seg, i).0.code);
                return None;
            }
            proof {
                lemma_hist_len_bound(d, nfs);
            }
            let x = byte_idx * 8;
            assert(x >> seg_bits <= x) by (bit_vector);
            assert(x != usize::MAX) by {
                assert(usize::MAX == 0xFFFF_FFFF || usize::MAX == 0xFFFF_FFFF_FFFF_FFFF);
            }
            let seg_idx = x >> seg_bits;
            if seg_idx != current_seg_idx {
                current_seg_idx = seg_idx;
                let filter_set_idx = if seg_idx < hdr.segment_mapping.len() {
                    hdr.segment_mapping[seg_idx] as usize
                } else {
                    0
                };
                let last = cached_predictors.len().saturating_sub(1);
                current_predictor_idx = if filter_set_idx < last {
                    filter_set_idx
                } else {
                    last
                };
            }
            let ghost q = set_of_seg(d, seg_of(d, i as int));
            assert(current_predictor_idx == q);
            let predicted = cached_predictors[current_predictor_idx].predict(history.as_slice());
            let residual = match arith.decode_symbol(&mut arith_reader, predicted) {
                Ok(s) => s,
                Err(e) => {
                    return Some(Err(e));
                },
            };
            let v = ((predicted as u16 + residual as u16) % 256) as u8;
            output.set(byte_idx, v);
            let ghost h0 = history@;
            if max_order > 1 {
                let mut t: usize = max_order - 1;
                while t > 0
                    invariant
                        t < max_order,
                        history@.len() == max_order,
                        h0.len() == max_order,
                        forall|j: int| 0 <= j <= t ==> history@[j] == h0[j],
                        forall|j: int| t < j < max_order ==> history@[j] == h0[j - 1],
                    decreases t,
                {
                    let prev_byte = history[t - 1];
                    history.set(t, prev_byte);
                    t = t - 1;
                }
            }
            history.set(0, v);
            proof {
                let next = channel_run(d, seg, i + 1);
                assert(history@ =~= next.1);
                assert(output@.subrange(0, (i + 1) as int) =~= next.2);
            }
            byte_idx = byte_idx + 1;
        }
        assert(output@.subrange(0, self.frame_bytes as int) =~= output@);
        Some(Ok(()))
    }
}

/// A channel run of `k` bytes has `k` bytes.
pub proof fn lemma_channel_run_len(d: Seq<u8>, seg: Seq<u8>, k: nat)
    ensures
        channel_run(d, seg, k).2.len() == k,
    decreases k,
{
    if k > 0 {
        lemma_channel_run_len(d, seg, (k - 1) as nat);
    }
}

/// The widest segment width of the first `k` filter sets is at least each
/// of their widths and equal to one of them; 4 for none.
proof fn lemma_seg_shift_widest(d: Seq<u8>, k: nat)
    ensures
        k == 0 ==> seg_shift(d, k) == 4,
        forall|i: int| 0 <= i < k ==> #[trigger] plan_width(d, i) <= seg_shift(d, k),
        k > 0 ==> exists|i: int| 0 <= i < k && #[trigger] plan_width(d, i) == seg_shift(d, k),
    decreases k,
{
    if k > 1 {
        lemma_seg_shift_widest(d, (k - 1) as nat);
        if plan_width(d, k - 1) <= seg_shift(d, (k - 1) as nat) {
            let i = choose|i: int| 0 <= i < k - 1 && #[trigger] plan_width(d, i) == seg_shift(
                d,
                (k - 1) as nat,
            );
            assert(plan_width(d, i) == seg_shift(d, k));
        } else {
            assert(plan_width(d, k - 1) == seg_shift(d, k));
        }
    } else if k == 1 {
        assert(plan_width(d, 0) == seg_shift(d, k));
    }
}

/// Segments are as wide as the widest filter set of the header: the
/// segment shift used to decode a frame is at least the segment width of
/// each of its filter sets and equal to one of them, and 4 where the frame
/// has none.
pub proof fn lemma_segment_shift_is_widest(h: DstFrameHeader, d: Seq<u8>)
    requires
        header_of(h, d),
    ensures
        h.filter_sets@.len() == 0 ==> seg_shift(d, header_filter_sets(d)) == 4,
        forall|i: int|
            0 <= i < h.filter_sets@.len() ==> (#[trigger] h.filter_sets@[i]).segment_width_log2
                <= seg_shift(d, header_filter_sets(d)),
        h.filter_sets@.len() > 0 ==> exists|i: int|
            0 <= i < h.filter_sets@.len() && (#[trigger] h.filter_sets@[i]).segment_width_log2
                == seg_shift(d, header_filter_sets(d)),
{
    let n = header_filter_sets(d);
    lemma_seg_shift_widest(d, n);
    assert forall|i: int| 0 <= i < h.filter_sets@.len() implies (#[trigger] h.filter_sets@[i]).segment_width_log2
        == plan_width(d, i) by {
        assert(filter_set_at(h.filter_sets@[i], d, fs_start(d, i as nat)));
    }
    if n > 0 {
        let i = choose|i: int| 0 <= i < n && #[trigger] plan_width(d, i) == seg_shift(d, n);
        assert(h.filter_sets@[i].segment_width_log2 == seg_shift(d, n));
    }
}

/// The prediction history is at least as long as every filter set's
/// predictor order.
proof fn lemma_hist_len_bound(d: Seq<u8>, n: nat)
    ensures
        forall|q: int| 0 <= q < n ==> plan_coefs(d, q).len() <= #[trigger] hist_len(d, n),
    decreases n,
{
    if n > 1 {
        lemma_hist_len_bound(d, (n - 1) as nat);
    }
}

} // verus!
