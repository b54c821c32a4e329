//! Sample format definitions for PCM audio.
use vstd::prelude::*;

verus! {

/// Supported PCM sample formats.
#[derive(Debug, Clone, Copy, PartialEq, Eq, Structural)]
pub enum SampleFormat {
    /// 8-bit unsigned integer
    U8,
    /// 16-bit signed integer
    I16,
    /// 24-bit signed integer (stored in 3 bytes, little-endian)
    I24,
    /// 32-bit signed integer
    I32,
    /// 32-bit IEEE 754 float
    F32,
    /// 64-bit IEEE 754 float
    F64,
}

impl SampleFormat {
    /// The width of one sample in bytes.
    pub open spec fn width(self) -> nat {
        match self {
            SampleFormat::U8 => 1,
            SampleFormat::I16 => 2,
            SampleFormat::I24 => 3,
            SampleFormat::I32 => 4,
            SampleFormat::F32 => 4,
            SampleFormat::F64 => 8,
        }
    }

    /// Bytes per sample for this format.
    pub fn bytes_per_sample(&self) -> (n: usize)
        ensures
            n == self.width(),
    {
        match self {
            SampleFormat::U8 => 1,
            SampleFormat::I16 => 2,
            SampleFormat::I24 => 3,
            SampleFormat::I32 => 4,
            SampleFormat::F32 => 4,
            SampleFormat::F64 => 8,
        }
    }

    /// Bits per sample.
    pub fn bits_per_sample(&self) -> (n: u16)
        ensures
            n == 8 * self.width(),
    {
        (self.bytes_per_sample() * 8) as u16
    }

    /// Whether this is a floating-point format.
    pub fn is_float(&self) -> (b: bool)
        ensures
            b <==> (*self == SampleFormat::F32 || *self == SampleFormat::F64),
    {
        matches!(self, SampleFormat::F32 | SampleFormat::F64)
    }
}

/// The value of integer sample `k` of `bytes` in `format`, little-endian:
/// unsigned 8-bit samples centred on 128, the others two's complement.
pub open spec fn int_sample(bytes: Seq<u8>, format: SampleFormat, k: int) -> int {
    match format {
        SampleFormat::U8 => bytes[k] - 128,
        SampleFormat::I16 => {
            let v = bytes[2 * k] + bytes[2 * k + 1] * 256;
            if v >= 0x8000 {
                v - 0x1_0000
            } else {
                v
            }
        },
        SampleFormat::I24 => {
            let v = bytes[3 * k] + bytes[3 * k + 1] * 256 + bytes[3 * k + 2] * 65536;
            if v >= 0x80_0000 {
                v - 0x100_0000
            } else {
                v
            }
        },
        _ => {
            let v = bytes[4 * k] + bytes[4 * k + 1] * 256 + bytes[4 * k + 2] * 65536 + bytes[4 * k
                + 3] * 16777216;
            if v >= 0x8000_0000 {
                v - 0x1_0000_0000
            } else {
                v
            }
        },
    }
}

/// Full scale of an integer format: 2 to the power of its width in bits
/// less one. Dividing a sample by it gives a value in [-1.0, 1.0).
pub open spec fn full_scale(format: SampleFormat) -> int {
    match format {
        SampleFormat::U8 => 128,
        SampleFormat::I16 => 32768,
        SampleFormat::I24 => 8388608,
        _ => 2147483648,
    }
}

/// Every integer sample lies in `[-full_scale, full_scale)`, so that
/// scaled samples lie in [-1.0, 1.0).
pub proof fn lemma_int_sample_in_range(bytes: Seq<u8>, format: SampleFormat, k: int)
    requires
        !(format == SampleFormat::F32 || format == SampleFormat::F64),
        0 <= k,
        (k + 1) * format.width() <= bytes.len(),
    ensures
        -full_scale(format) <= int_sample(bytes, format, k) < full_scale(format),
{
    let w = format.width() as int;
    assert(w * k + w - 1 < bytes.len()) by (nonlinear_arith)
        requires
            (k + 1) * w <= bytes.len(),
            w >= 1,
    ;
    assert(0 <= w * k) by (nonlinear_arith)
        requires
            k >= 0,
            w >= 1,
    ;
}

proof fn lemma_le16_signed(b0: u8, b1: u8)
    by (bit_vector)
    ensures
        ((b0 as u16 | ((b1 as u16) << 8u16)) as i16) as int == if (b0 as int + b1 as int * 256)
            >= 0x8000 {
            b0 as int + b1 as int * 256 - 0x1_0000
        } else {
            b0 as int + b1 as int * 256
        },
{
}

proof fn lemma_le24_signed(b0: u8, b1: u8, b2: u8)
    by (bit_vector)
    ensures
        ({
            let v = (b0 as i32) | ((b1 as i32) << 8i32) | ((b2 as i32) << 16i32);
            let w = if v & 0x80_0000i32 != 0 {
                v | !0xFF_FFFFi32
            } else {
                v
            };
            w as int
        }) == if (b0 as int + b1 as int * 256 + b2 as int * 65536) >= 0x80_0000 {
            b0 as int + b1 as int * 256 + b2 as int * 65536 - 0x100_0000
        } else {
            b0 as int + b1 as int * 256 + b2 as int * 65536
        },
{
}

proof fn lemma_le32_signed(b0: u8, b1: u8, b2: u8, b3: u8)
    by (bit_vector)
    ensures
        ((b0 as u32 | ((b1 as u32) << 8u32) | ((b2 as u32) << 16u32) | ((b3 as u32) << 24u32))
            as i32) as int == if (b0 as int + b1 as int * 256 + b2 as int * 65536 + b3 as int
            * 16777216) >= 0x8000_0000 {
            b0 as int + b1 as int * 256 + b2 as int * 65536 + b3 as int * 16777216 - 0x1_0000_0000
        } else {
            b0 as int + b1 as int * 256 + b2 as int * 65536 + b3 as int * 16777216
        },
{
}

/// The integer samples of an interleaved little-endian byte buffer in an
/// integer format, one per sample (still interleaved). Dividing them by
/// 128, 32768, 8388608 or 2147483648 gives samples in [-1.0, 1.0].
pub fn int_samples_le(bytes: &[u8], format: SampleFormat) -> (out: Vec<i32>)
    requires
        !(format == SampleFormat::F32 || format == SampleFormat::F64),
        bytes@.len() % format.width() == 0,
    ensures
        out@.len() == bytes@.len() / format.width(),
        forall|k: int| 0 <= k < out@.len() ==> out@[k] == int_sample(bytes@, format, k),
{
    let bps = format.bytes_per_sample();
    let len = bytes.len();
    let count = len / bps;
    let mut out: Vec<i32> = Vec::with_capacity(count);
    let mut k: usize = 0;
    while k < count
        invariant
            bps == format.width(),
            1 <= bps <= 4,
            len == bytes@.len(),
            !(format == SampleFormat::F32 || format == SampleFormat::F64),
            count == (bytes@.len() as int) / (bps as int),
            k <= count,
            out@.len() == k,
            forall|j: int| 0 <= j < k ==> out@[j] == int_sample(bytes@, format, j),
        decreases count - k,
    {
        assert(k * bps + bps <= bytes@.len()) by (nonlinear_arith)
            requires
                k < count,
                count == (bytes@.len() as int) / (bps as int),
                bps >= 1,
        {
            vstd::arithmetic::div_mod::lemma_fundamental_div_mod(bytes@.len() as int, bps as int);
            vstd::arithmetic::div_mod::lemma_mod_bound(bytes@.len() as int, bps as int);
        }
        let p = k * bps;
        let v: i32 = match format {
            SampleFormat::U8 => bytes[p] as i32 - 128,
            SampleFormat::I16 => {
                proof {
                    lemma_le16_signed(bytes@[p as int], bytes@[p + 1]);
                }
                (#[verifier::truncate]
                ((bytes[p] as u16 | ((bytes[p + 1] as u16) << 8u16)) as i16)) as i32
            },
            SampleFormat::I24 => {
                proof {
                    lemma_le24_signed(bytes@[p as int], bytes@[p + 1], bytes@[p + 2]);
                }
                let val = (bytes[p] as i32) | ((bytes[p + 1] as i32) << 8i32) | ((bytes[p + 2]
                    as i32) << 16i32);
                if val & 0x80_0000 != 0 {
                    val | !0xFF_FFFF
                } else {
                    val
                }
            },
            _ => {
                proof {
                    lemma_le32_signed(bytes@[p as int], bytes@[p + 1], bytes@[p + 2], bytes@[p + 3]);
                }
                (#[verifier::truncate]
                ((bytes[p] as u32 | ((bytes[p + 1] as u32) << 8u32) | ((bytes[p + 2] as u32) << 16u32)
                    | ((bytes[p + 3] as u32) << 24u32)) as i32))
            },
        };
        out.push(v);
        k = k + 1;
    }
    out
}

} // verus!
