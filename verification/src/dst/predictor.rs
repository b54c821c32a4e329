//! FIR predictor for DST decoding.
//!
//! Uses a Finite Impulse Response filter for linear prediction of DSD
//! samples. The predictor estimates the next sample based on previous
//! samples, and only the residual (prediction error) is entropy-coded.
use crate::dst::bit_reader::bit_at;
use vstd::arithmetic::div_mod::*;
use vstd::prelude::*;

verus! {

/// `x` reduced into the range of `i32`, as two's-complement wrapping does.
pub open spec fn wrap_i32(x: int) -> int {
    (x + 0x8000_0000) % 0x1_0000_0000 - 0x8000_0000
}

/// The inner product of the first `n` history bytes and coefficients.
pub open spec fn fir_sum(history: Seq<u8>, coef: Seq<i32>, n: nat) -> int
    decreases n,
{
    if n == 0 {
        0
    } else {
        fir_sum(history, coef, (n - 1) as nat) + history[n - 1] * coef[n - 1]
    }
}

/// Integer division rounding toward zero, for a positive divisor.
pub open spec fn div_toward_zero(a: int, d: int) -> int {
    if a >= 0 {
        a / d
    } else {
        -((-a) / d)
    }
}

/// `x` clamped to `0..=255`.
pub open spec fn clamp_byte(x: int) -> int {
    if x < 0 {
        0
    } else if x > 255 {
        255
    } else {
        x
    }
}

/// The prediction from `history`: the wrapped inner product with the
/// coefficients, divided by the step, clamped to a byte.
pub open spec fn prediction(history: Seq<u8>, coef: Seq<i32>, step: int) -> int {
    clamp_byte(div_toward_zero(wrap_i32(fir_sum(history, coef, coef.len())), step))
}

/// The bit predicted at step `i` of `predict_bits`: the exclusive or of the
/// last two history bits seen, where the history stops at its last bit.
pub open spec fn predicted_bit(history: Seq<u8>, i: int) -> nat {
    if history.len() == 0 {
        0
    } else {
        let j = if i < 8 * history.len() {
            i
        } else {
            8 * history.len() - 1
        };
        if bit_at(history, j) == bit_at(history, j - 1) {
            0
        } else {
            1
        }
    }
}

/// Byte `i` of the output of `predict_bits`: the predicted bits of its
/// byte so far, most significant first.
pub open spec fn predicted_byte(history: Seq<u8>, i: nat) -> u8
    decreases i,
{
    let prev: u8 = if i % 8 == 0 {
        0
    } else {
        predicted_byte(history, (i - 1) as nat)
    };
    prev | ((predicted_bit(history, i as int) as u8) << ((7 - i % 8) as u8))
}

proof fn lemma_shift_bit(r: u32, b: u32)
    by (bit_vector)
    requires
        b <= 1,
    ensures
        ((r << 1u32) | b) & 1u32 == b,
        (((r << 1u32) | b) >> 1u32) & 1u32 == r & 1u32,
{
}

proof fn lemma_xor_low_bits(r: u32)
    by (bit_vector)
    ensures
        (r >> 1u32) & 1u32 <= 1,
        r & 1u32 <= 1,
        ((r >> 1u32) ^ r) & 1u32 == if (r >> 1u32) & 1u32 == r & 1u32 {
            0u32
        } else {
            1u32
        },
{
}

proof fn lemma_wrap_add(s: int, a: i32, y: i32)
    requires
        a as int == wrap_i32(s),
    ensures
        a.wrapping_add(y) as int == wrap_i32(s + y),
{
    let m: int = 0x1_0000_0000;
    let h: int = 0x8000_0000;
    let r = a.wrapping_add(y) as int;
    let k: int = if a + y > 0x7fff_ffff {
        1
    } else if a + y < -0x8000_0000 {
        -1
    } else {
        0
    };
    assert(r == a + y - k * m);
    lemma_fundamental_div_mod(s + h, m);
    let q = (s + h) / m;
    assert(a + h == (s + h) - m * q);
    assert(r + h == (s + y + h) + m * (-q - k));
    lemma_mod_multiples_vanish(-q - k, s + y + h, m);
    lemma_small_mod((r + h) as nat, m as nat);
}

proof fn lemma_wrap_small(x: int)
    requires
        -0x8000_0000 <= x < 0x8000_0000,
    ensures
        wrap_i32(x) == x,
{
    lemma_small_mod((x + 0x8000_0000) as nat, 0x1_0000_0000);
}

/// FIR predictor with configurable filter coefficients.
pub struct FirPredictor {
    /// Filter coefficients (signed integers in DST spec).
    coef: Vec<i32>,
    /// Quantization step size for the residual.
    step_size: i32,
    /// Filter order (number of taps).
    order: usize,
}

impl FirPredictor {
    #[verifier::type_invariant]
    spec fn inv(self) -> bool {
        &&& self.order == self.coef@.len()
        &&& self.step_size >= 1
        &&& forall|i: int| 0 <= i < self.coef@.len() ==> -128 <= #[trigger] self.coef@[i] <= 127
    }

    /// The filter coefficients.
    pub closed spec fn coefficients(self) -> Seq<i32> {
        self.coef@
    }

    /// The quantization step.
    pub closed spec fn step(self) -> int {
        self.step_size as int
    }

    /// Create a new predictor from i8 coefficients and a quantization step;
    /// a step below 1 counts as 1.
    pub fn new(coef: &[i8], step_size: i32) -> (p: Self)
        ensures
            p.coefficients().len() == coef@.len(),
            forall|i: int| 0 <= i < coef@.len() ==> p.coefficients()[i] == coef@[i] as i32,
            p.step() == if step_size < 1 {
                1
            } else {
                step_size as int
            },
    {
        let mut c: Vec<i32> = Vec::with_capacity(coef.len());
        let mut i: usize = 0;
        while i < coef.len()
            invariant
                i <= coef@.len(),
                c@.len() == i,
                forall|j: int| 0 <= j < i ==> c@[j] == coef@[j] as i32,
            decreases coef.len() - i,
        {
            c.push(coef[i] as i32);
            i = i + 1;
        }
        let step = if step_size < 1 {
            1
        } else {
            step_size
        };
        FirPredictor { coef: c, step_size: step, order: coef.len() }
    }

    /// Filter order (number of taps).
    pub fn order(&self) -> (n: usize)
        ensures
            n == self.coefficients().len(),
    {
        proof {
            use_type_invariant(self);
        }
        self.order
    }

    /// Predict the next byte value from previous DSD bytes (most recent
    /// first). Returns a predicted value in [0, 255].
    pub fn predict(&self, history: &[u8]) -> (v: u8)
        requires
            history@.len() >= self.coefficients().len(),
        ensures
            v == prediction(history@, self.coefficients(), self.step()),
    {
        proof {
            use_type_invariant(self);
        }
        let mut acc: i32 = 0;
        let mut i: usize = 0;
        while i < self.order
            invariant
                self.order == self.coef@.len(),
                i <= self.order,
                history@.len() >= self.order,
                forall|j: int| 0 <= j < self.coef@.len() ==> -128 <= #[trigger] self.coef@[j] <= 127,
                acc as int == wrap_i32(fir_sum(history@, self.coef@, i as nat)),
            decreases self.order - i,
        {
            let sample = history[i] as i32;
            let c = self.coef[i];
            let prod = sample.wrapping_mul(c);
            proof {
                assert(-32640 <= sample * c <= 32640) by (nonlinear_arith)
                    requires
                        0 <= sample <= 255,
                        -128 <= c <= 127,
                ;
                lemma_wrap_small(sample * c);
                lemma_wrap_add(fir_sum(history@, self.coef@, i as nat), acc, prod);
            }
            acc = acc.wrapping_add(prod);
            i = i + 1;
        }
        let q = acc / self.step_size;
        assert(q == div_toward_zero(acc as int, self.step_size as int));
        let clamped = if q < 0 {
            0
        } else if q > 255 {
            255
        } else {
            q
        };
        assert(0 <= clamped <= 255 ==> clamped & 0xFF == clamped) by (bit_vector);
        (clamped & 0xFF) as u8
    }

    /// Predict on a bit level (8 predictions per byte).
    /// Each bit is predicted from the previous bits using a shift-register
    /// style approach common in DSD.
    pub fn predict_bits(&self, bit_history: &[u8], num_bits: usize) -> (out: Vec<u8>)
        ensures
            out@.len() == num_bits,
            forall|i: int| 0 <= i < num_bits ==> out@[i] == predicted_byte(bit_history@, i as nat),
    {
        let mut result: Vec<u8> = Vec::new();
        let mut running_context: u32 = 0;
        let ghost h = bit_history@;
        let mut i: usize = 0;
        assert(0u32 & 1u32 == 0u32 && (0u32 >> 1u32) & 1u32 == 0u32) by (bit_vector);
        while i < num_bits
            invariant
                i <= num_bits,
                h == bit_history@,
                result@.len() == i,
                forall|k: int| 0 <= k < i ==> result@[k] == predicted_byte(h, k as nat),
                (running_context & 1u32) as nat == if i == 0 || h.len() == 0 {
                    0
                } else if i - 1 < 8 * h.len() {
                    bit_at(h, i - 1)
                } else {
                    bit_at(h, 8 * h.len() - 1)
                },
                ((running_context >> 1u32) & 1u32) as nat == if i == 0 || h.len() == 0 {
                    0
                } else if i - 1 < 8 * h.len() {
                    bit_at(h, i - 2)
                } else {
                    bit_at(h, 8 * h.len() - 2)
                },
            decreases num_bits - i,
        {
            let byte_idx = i / 8;
            let bit_idx = i % 8;
            if byte_idx < bit_history.len() {
                let bit = (bit_history[byte_idx] >> (7 - bit_idx) as u8) & 1;
                proof {
                    let b = bit_history@[byte_idx as int];
                    let s = (7 - bit_idx) as u8;
                    assert(bit == bit_at(h, i as int));
                    crate::dst::bit_reader::lemma_bit_at_bound(h, i as int);
                    lemma_shift_bit(running_context, bit as u32);
                }
                running_context = (running_context << 1) | bit as u32;
            }
            let predicted_bit = ((running_context >> 1) ^ running_context) & 1;
            proof {
                lemma_xor_low_bits(running_context);
                crate::dst::bit_reader::lemma_bit_at_bound(h, i as int);
                crate::dst::bit_reader::lemma_bit_at_bound(h, i - 1);
                crate::dst::bit_reader::lemma_bit_at_bound(h, 8 * h.len() - 1);
                crate::dst::bit_reader::lemma_bit_at_bound(h, 8 * h.len() - 2);
                assert(predicted_bit as nat == self::predicted_bit(h, i as int));
            }
            let byte_out: u8 = if i % 8 == 0 {
                0
            } else {
                result[i - 1]
            };
            result.push(byte_out | ((predicted_bit as u8) << (7 - bit_idx) as u8));
            i = i + 1;
        }
        result
    }
}

} // verus!
