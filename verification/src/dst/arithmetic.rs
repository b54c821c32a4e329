//! Arithmetic decoder for DST bitstream.
//!
//! A multi-symbol arithmetic decoder with context-adaptive probability
//! models: 64 contexts of 256 symbols, selected by a predicted byte.
use crate::bytes::{be32, ByteCursor};
use crate::error::ChimeError;
use vstd::prelude::*;

verus! {

/// A total frequency from which a context is rescaled.
pub const RESCALE_LIMIT: u32 = 0x10_0000;

/// The frequency table rescaled: the first entry kept, each later one the
/// larger of its half and one more than the rescaled entry before it.
/// These are the first `k` entries.
pub open spec fn rescaled(cf: Seq<u32>, k: nat) -> Seq<int>
    decreases k,
{
    if k == 0 {
        Seq::<int>::empty()
    } else if k == 1 {
        seq![cf[0] as int]
    } else {
        let p = rescaled(cf, (k - 1) as nat);
        let a = (cf[k - 1] / 2) as int;
        let b = p[k - 2] + 1;
        p.push(
            if a >= b {
                a
            } else {
                b
            },
        )
    }
}

/// The frequency table after observing `symbol`: every entry above it
/// counts one more.
pub open spec fn bumped(cf: Seq<u32>, symbol: int) -> Seq<u32> {
    Seq::new(cf.len(), |i: int| if i > symbol { (cf[i] + 1) as u32 } else { cf[i] })
}

/// A cumulative frequency table of 256 symbols with its total: starts at 0, strictly
/// increases, ends at the total, which stays below the rescale limit.
pub open spec fn freqs_wf(cf: Seq<u32>, total: u32) -> bool {
    &&& cf.len() == 257
    &&& cf[0] == 0
    &&& forall|i: int, j: int| 0 <= i < j < cf.len() ==> cf[i] < cf[j]
    &&& total == cf[cf.len() - 1]
    &&& total < RESCALE_LIMIT
}

/// Rescaling a table whose entries are at most the limit keeps it strictly
/// increasing from 0, each entry at most half the old one plus its index.
proof fn lemma_rescaled(cf: Seq<u32>, k: nat)
    requires
        k <= cf.len(),
        cf.len() >= 1,
        cf[0] == 0,
        forall|i: int, j: int| 0 <= i < j < cf.len() ==> cf[i] < cf[j],
    ensures
        rescaled(cf, k).len() == k,
        k > 0 ==> rescaled(cf, k)[0] == 0,
        forall|i: int, j: int| 0 <= i < j < k ==> rescaled(cf, k)[i] < rescaled(cf, k)[j],
        forall|i: int| 0 <= i < k ==> rescaled(cf, k)[i] <= cf[i] / 2 + i,
    decreases k,
{
    if k > 1 {
        lemma_rescaled(cf, (k - 1) as nat);
        let p = rescaled(cf, (k - 1) as nat);
        let r = rescaled(cf, k);
        assert(cf[k - 2] / 2 <= cf[k - 1] / 2);
        assert forall|i: int, j: int| 0 <= i < j < k implies r[i] < r[j] by {
            if j < k - 1 {
                assert(r[i] == p[i] && r[j] == p[j]);
            } else {
                assert(r[i] == p[i]);
                assert(p[i] <= p[k - 2]);
            }
        }
        assert forall|i: int| 0 <= i < k implies r[i] <= cf[i] / 2 + i by {
            if i < k - 1 {
                assert(r[i] == p[i]);
            }
        }
    }
}

/// Probability context for arithmetic coding.
struct ProbContext {
    /// Cumulative frequency table.
    cum_freq: Vec<u32>,
    /// Total cumulative frequency.
    total_freq: u32,
}

impl ProbContext {
    /// A uniform table over `num_symbols` symbols.
    fn new(num_symbols: usize) -> (c: Self)
        requires
            num_symbols < usize::MAX,
        ensures
            c.cum_freq@.len() == num_symbols + 1,
            forall|i: int| 0 <= i <= num_symbols ==> c.cum_freq@[i] == i as u32,
            c.total_freq == num_symbols as u32,
    {
        let mut cum_freq: Vec<u32> = Vec::new();
        let mut i: usize = 0;
        while i <= num_symbols
            invariant
                num_symbols < usize::MAX,
                i <= num_symbols + 1,
                cum_freq@.len() == i,
                forall|j: int| 0 <= j < i ==> cum_freq@[j] == j as u32,
            decreases num_symbols + 1 - i,
        {
            cum_freq.push(i as u32);
            i = i + 1;
        }
        ProbContext { cum_freq, total_freq: num_symbols as u32 }
    }

    /// Update the probability model after observing a symbol, rescaling when
    /// the total reaches the limit.
    fn update(&mut self, symbol: u32)
        requires
            freqs_wf(old(self).cum_freq@, old(self).total_freq),
            (symbol as int) < usize::MAX,
        ensures
            ({
                let b = bumped(old(self).cum_freq@, symbol as int);
                if old(self).total_freq + 1 >= RESCALE_LIMIT {
                    &&& final(self).cum_freq@.len() == b.len()
                    &&& forall|i: int|
                        0 <= i < b.len() ==> final(self).cum_freq@[i] == rescaled(b, b.len())[i]
                    &&& final(self).total_freq == rescaled(b, b.len())[b.len() - 1]
                } else {
                    &&& final(self).cum_freq@ == b
                    &&& final(self).total_freq == old(self).total_freq + 1
                }
            }),
            symbol + 1 < old(self).cum_freq@.len() ==> freqs_wf(
                final(self).cum_freq@,
                final(self).total_freq,
            ),
    {
        let ghost cf0 = self.cum_freq@;
        let len = self.cum_freq.len();
        let mut i: usize = symbol as usize + 1;
        while i < len
            invariant
                len == self.cum_freq@.len(),
                len == cf0.len(),
                freqs_wf(cf0, old(self).total_freq),
                self.total_freq == old(self).total_freq,
                symbol + 1 <= i <= len || (i == symbol + 1 && i > len),
                forall|j: int|
                    0 <= j < len ==> self.cum_freq@[j] == if j > symbol && j < i {
                        (cf0[j] + 1) as u32
                    } else {
                        cf0[j]
                    },
            decreases len - i,
        {
            assert(cf0[i as int] <= cf0[len - 1]);
            let v = self.cum_freq[i] + 1;
            self.cum_freq.set(i, v);
            i = i + 1;
        }
        let ghost b = bumped(cf0, symbol as int);
        assert(self.cum_freq@ =~= b);
        assert forall|x: int, y: int| 0 <= x < y < b.len() implies b[x] < b[y] by {
            assert(cf0[x] < cf0[y]);
        }
        assert(b[0] == 0);
        self.total_freq = self.total_freq + 1;
        if self.total_freq >= RESCALE_LIMIT {
            proof {
                lemma_rescaled(b, b.len());
                assert forall|j: int| 0 <= j < b.len() - 1 implies rescaled(b, b.len())[j]
                    < 0xFFFF_FFFF by {
                    assert(b[j] <= RESCALE_LIMIT);
                }
            }
            self.rescale();
            proof {
                lemma_rescaled(b, b.len());
                if symbol + 1 < cf0.len() {
                    assert(b[b.len() - 1] == RESCALE_LIMIT);
                    let r = rescaled(b, b.len());
                    assert(r[b.len() - 1] <= b[b.len() - 1] / 2 + b.len() - 1);
                    assert forall|x: int, y: int|
                        0 <= x < y < self.cum_freq@.len() implies self.cum_freq@[x]
                        < self.cum_freq@[y] by {
                        assert(r[x] < r[y]);
                    }
                }
            }
        } else {
            proof {
                if symbol + 1 < cf0.len() {
                    assert(b[b.len() - 1] == self.total_freq);
                }
            }
        }
    }

    /// Halves the table, keeping it strictly increasing.
    fn rescale(&mut self)
        requires
            old(self).cum_freq@.len() >= 1,
            forall|j: int|
                0 <= j < old(self).cum_freq@.len() - 1 ==> rescaled(
                    old(self).cum_freq@,
                    old(self).cum_freq@.len(),
                )[j] < 0xFFFF_FFFF,
        ensures
            ({
                let cf = old(self).cum_freq@;
                let r = rescaled(cf, cf.len());
                &&& final(self).cum_freq@.len() == cf.len()
                &&& forall|i: int| 0 <= i < cf.len() ==> final(self).cum_freq@[i] == r[i]
                &&& final(self).total_freq == if cf.len() >= 2 {
                    r[cf.len() - 1]
                } else {
                    0
                }
            }),
    {
        let ghost cf0 = self.cum_freq@;
        let len = self.cum_freq.len();
        self.total_freq = 0;
        let mut i: usize = 1;
        while i < len
            invariant
                len == self.cum_freq@.len(),
                len == cf0.len(),
                1 <= i <= len,
                forall|j: int|
                    0 <= j < len - 1 ==> rescaled(cf0, len as nat)[j] < 0xFFFF_FFFF,
                forall|j: int| 0 <= j < i ==> self.cum_freq@[j] == rescaled(cf0, i as nat)[j],
                forall|j: int| i <= j < len ==> self.cum_freq@[j] == cf0[j],
                self.total_freq == if i >= 2 {
                    self.cum_freq@[i - 1] as int
                } else {
                    0
                },
            decreases len - i,
        {
            proof {
                lemma_rescaled_prefix(cf0, i as nat, len as nat);
                assert(rescaled(cf0, len as nat)[i - 1] == rescaled(cf0, i as nat)[i - 1]);
                lemma_rescaled_len(cf0, i as nat);
            }
            let cur = self.cum_freq[i];
            let half = cur >> 1;
            proof {
                lemma_half(cur);
            }
            let next = self.cum_freq[i - 1] + 1;
            let v = if half >= next {
                half
            } else {
                next
            };
            self.cum_freq.set(i, v);
            self.total_freq = v;
            i = i + 1;
        }
        proof {
            if len == 1 {
                assert(rescaled(cf0, 1)[0] == cf0[0]);
            }
        }
    }
}

proof fn lemma_half(x: u32)
    by (bit_vector)
    ensures
        x >> 1u32 == x / 2,
{
}

/// The entries of a shorter rescaled prefix are those of a longer one.
proof fn lemma_rescaled_prefix(cf: Seq<u32>, k: nat, n: nat)
    requires
        1 <= k <= n,
    ensures
        forall|j: int| 0 <= j < k ==> #[trigger] rescaled(cf, n)[j] == rescaled(cf, k)[j],
        rescaled(cf, n).len() == n,
    decreases n,
{
    lemma_rescaled_len(cf, n);
    if k < n {
        lemma_rescaled_prefix(cf, k, (n - 1) as nat);
        lemma_rescaled_len(cf, (n - 1) as nat);
    }
}

proof fn lemma_rescaled_len(cf: Seq<u32>, n: nat)
    ensures
        rescaled(cf, n).len() == n,
    decreases n,
{
    if n > 1 {
        lemma_rescaled_len(cf, (n - 1) as nat);
    }
}

/// The number of probability contexts.
pub const NUM_CONTEXTS: usize = 64;

/// The first symbol `i` from `from` on (below 256) whose upper cumulative
/// frequency exceeds `target`, or 0 when there is none.
pub open spec fn select_symbol(cf: Seq<u32>, target: u32, from: int) -> int
    decreases 256 - from,
{
    if from >= 256 || from < 0 {
        0
    } else if cf[from + 1] > target {
        from
    } else {
        select_symbol(cf, target, from + 1)
    }
}

/// The cumulative-frequency target that the code value selects.
pub open spec fn target_freq(low: u32, high: u32, code: u32, total: u32) -> u32 {
    ((((code - low + 1) * total - 1) / (high - low + 1)) % 0x1_0000_0000) as u32
}

/// The symbol decoded from a context's table.
pub open spec fn decoded_symbol(low: u32, high: u32, code: u32, cf: Seq<u32>, total: u32) -> int {
    select_symbol(cf, target_freq(low, high, code, total), 0)
}

/// The offset of the new low bound from the old one.
pub open spec fn low_offset(low: u32, high: u32, cf: Seq<u32>, total: u32, s: int) -> int {
    (high - low + 1) * cf[s] / (total as int)
}

/// The offset of the new high bound, plus one, from the old low bound.
pub open spec fn high_offset(low: u32, high: u32, cf: Seq<u32>, total: u32, s: int) -> int {
    (high - low + 1) * cf[s + 1] / (total as int)
}

/// The code register after shifting in one bit from the input, when the
/// decoder reads input and a byte remains; the lowest bit of that byte
/// becomes the lowest bit of the code.
pub open spec fn shift_in(code: u32, data: Seq<u8>, pos: int, reads: bool) -> (u32, int) {
    if reads && 0 <= pos < data.len() {
        (code | ((data[pos] & 1u8) as u32), pos + 1)
    } else {
        (code, pos)
    }
}

/// Renormalizing widens an ordered interval.
pub proof fn lemma_renorm_widens(low: u32, high: u32)
    by (bit_vector)
    requires
        low <= high,
    ensures
        (high & 0x8000_0000u32) == (low & 0x8000_0000u32) ==> ((low << 1u32) <= ((high << 1u32)
            | 1u32) && ((high << 1u32) | 1u32) - (low << 1u32) > high - low),
        ((high & 0x8000_0000u32) != (low & 0x8000_0000u32) && (low & 0x4000_0000u32) != 0u32 && (
        high & 0x4000_0000u32) == 0u32) ==> (((low << 1u32) & 0x3FFF_FFFFu32) <= ((high << 1u32)
            | 0x8000_0001u32) && ((high << 1u32) | 0x8000_0001u32) - ((low << 1u32)
            & 0x3FFF_FFFFu32) > high - low),
{
}

/// The interval and code after renormalization: while the top bits of the
/// bounds agree, they are shifted out; while the interval straddles the
/// middle within the second quarter, the underflow step applies. Each step
/// shifts in one input bit. Returns the bounds, the code and the position.
pub open spec fn renormalize(
    low: u32,
    high: u32,
    code: u32,
    data: Seq<u8>,
    pos: int,
    reads: bool,
) -> (u32, u32, u32, int)
    decreases 0xFFFF_FFFFu32 - (high - low),
    when low <= high
{
    if (high & 0x8000_0000u32) == (low & 0x8000_0000u32) {
        proof {
            lemma_renorm_widens(low, high);
        }
        let (c, p) = shift_in(code << 1u32, data, pos, reads);
        renormalize(low << 1u32, (high << 1u32) | 1u32, c, data, p, reads)
    } else if (low & 0x4000_0000u32) != 0u32 && (high & 0x4000_0000u32) == 0u32 {
        proof {
            lemma_renorm_widens(low, high);
        }
        let (c, p) = shift_in(code ^ 0x4000_0000u32, data, pos, reads);
        renormalize(
            (low << 1u32) & 0x3FFF_FFFFu32,
            (high << 1u32) | 0x8000_0001u32,
            c,
            data,
            p,
            reads,
        )
    } else {
        (low, high, code, pos)
    }
}

proof fn lemma_full_mask(x: u32)
    by (bit_vector)
    ensures
        x & 0xFFFF_FFFFu32 == x,
{
}

proof fn lemma_low_bit(b: u8)
    by (bit_vector)
    ensures
        (b as u32) & 1u32 == ((b & 1u8) as u32),
{
}

/// The selected symbol is below 256.
proof fn lemma_select_symbol_range(cf: Seq<u32>, target: u32, from: int)
    requires
        0 <= from,
    ensures
        0 <= select_symbol(cf, target, from) < 256,
        from < 256 && select_symbol(cf, target, from) != 0 ==> from <= select_symbol(
            cf,
            target,
            from,
        ),
    decreases 256 - from,
{
    if from < 256 && !(cf[from + 1] > target) {
        lemma_select_symbol_range(cf, target, from + 1);
    }
}

/// The decoder as a value: its interval, code register, input position,
/// whether it reads input, and its contexts' tables and totals.
pub struct CoderState {
    pub low: u32,
    pub high: u32,
    pub code: u32,
    pub pos: nat,
    pub reads: bool,
    pub freqs: Seq<Seq<u32>>,
    pub totals: Seq<u32>,
}

/// The table of a context after it counts `s`, rescaled when its total
/// reaches the limit.
pub open spec fn counted(cf: Seq<u32>, total: u32, s: int) -> Seq<u32> {
    if total + 1 >= RESCALE_LIMIT {
        rescaled(bumped(cf, s), 257).map_values(|x: int| x as u32)
    } else {
        bumped(cf, s)
    }
}

/// One step of decoding with context `predicted % 64`: the symbol that the
/// code selects; the interval narrowed to its share, renormalized while
/// shifting input bits into the code; the context counting the symbol.
/// Returns the new state and the symbol.
pub open spec fn coder_step(st: CoderState, data: Seq<u8>, predicted: u8) -> (CoderState, u8) {
    let c = predicted as int % NUM_CONTEXTS as int;
    let cf = st.freqs[c];
    let total = st.totals[c];
    let s = decoded_symbol(st.low, st.high, st.code, cf, total);
    let nl = st.low + low_offset(st.low, st.high, cf, total, s);
    let nh = st.low + high_offset(st.low, st.high, cf, total, s) - 1;
    let fin = renormalize(nl as u32, nh as u32, st.code, data, st.pos as int, st.reads);
    let ncf = counted(cf, total, s);
    (
        CoderState {
            low: fin.0,
            high: fin.1,
            code: fin.2,
            pos: fin.3 as nat,
            reads: st.reads,
            freqs: st.freqs.update(c, ncf),
            totals: st.totals.update(c, ncf[256]),
        },
        s as u8,
    )
}

/// The context is chosen by the prediction modulo 64: predictions 64 apart
/// decode alike.
pub proof fn lemma_context_by_residue(st: CoderState, data: Seq<u8>, p: u8)
    requires
        p < 192,
    ensures
        coder_step(st, data, p) == coder_step(st, data, (p + 64) as u8),
{
    assert((p + 64) as u8 as int % 64 == p as int % 64);
}

/// Shares of an interval of width at least the total are non-empty: the
/// offset of a symbol's upper bound exceeds that of its lower bound, and
/// lies within the interval.
proof fn lemma_offsets_apart(range: int, lo: int, hi: int, total: int)
    requires
        total >= 1,
        range >= total,
        0 <= lo < hi <= total,
    ensures
        range * lo / total < range * hi / total,
        1 <= range * hi / total <= range,
{
    assert(range * hi >= range * lo + range) by (nonlinear_arith)
        requires
            hi >= lo + 1,
            range >= 0,
    ;
    vstd::arithmetic::div_mod::lemma_div_is_ordered(range * lo + total, range * hi, total);
    vstd::arithmetic::div_mod::lemma_div_plus_one(range * lo, total);
    assert(range * hi >= range) by (nonlinear_arith)
        requires
            hi >= 1,
            range >= 0,
    ;
    vstd::arithmetic::div_mod::lemma_div_is_ordered(total, range * hi, total);
    vstd::arithmetic::div_mod::lemma_div_by_self(total);
    assert(range * hi <= range * total) by (nonlinear_arith)
        requires
            hi <= total,
            range >= 0,
    ;
    vstd::arithmetic::div_mod::lemma_div_is_ordered(range * hi, range * total, total);
    vstd::arithmetic::div_mod::lemma_div_by_multiple(range, total);
}

/// Renormalization ends with an ordered interval wider than a quarter of
/// the whole range.
pub proof fn lemma_renorm_result(
    low: u32,
    high: u32,
    code: u32,
    data: Seq<u8>,
    pos: int,
    reads: bool,
)
    requires
        low <= high,
    ensures
        ({
            let r = renormalize(low, high, code, data, pos, reads);
            r.0 <= r.1 && r.1 - r.0 > 0x4000_0000
        }),
    decreases 0xFFFF_FFFFu32 - (high - low),
{
    lemma_renorm_widens(low, high);
    if (high & 0x8000_0000u32) == (low & 0x8000_0000u32) {
        let (c, p) = shift_in(code << 1u32, data, pos, reads);
        lemma_renorm_result(low << 1u32, (high << 1u32) | 1u32, c, data, p, reads);
    } else if (low & 0x4000_0000u32) != 0u32 && (high & 0x4000_0000u32) == 0u32 {
        let (c, p) = shift_in(code ^ 0x4000_0000u32, data, pos, reads);
        lemma_renorm_result(
            (low << 1u32) & 0x3FFF_FFFFu32,
            (high << 1u32) | 0x8000_0001u32,
            c,
            data,
            p,
            reads,
        );
    } else {
        assert(low <= high && (high & 0x8000_0000u32) != (low & 0x8000_0000u32) && !((low
            & 0x4000_0000u32) != 0u32 && (high & 0x4000_0000u32) == 0u32) ==> high - low
            > 0x4000_0000u32) by (bit_vector);
    }
}

/// Multi-symbol arithmetic decoder for DST streams.
pub struct ArithmeticDecoder {
    /// Low bound of the current interval.
    low: u32,
    /// High bound of the current interval.
    high: u32,
    /// Current code value from the bitstream.
    code: u32,
    /// Number of bits in the code register.
    code_bits: u32,
    /// Probability contexts for different prediction orders.
    contexts: Vec<ProbContext>,
}

impl ArithmeticDecoder {
    /// The low bound of the interval.
    pub closed spec fn low(self) -> u32 {
        self.low
    }

    /// The high bound of the interval.
    pub closed spec fn high(self) -> u32 {
        self.high
    }

    /// The code register.
    pub closed spec fn code(self) -> u32 {
        self.code
    }

    /// Whether the decoder shifts input bits into the code register; true
    /// once it has been initialized from input.
    pub closed spec fn reads_input(self) -> bool {
        self.code_bits > 0
    }

    /// The cumulative frequency tables of the contexts.
    pub closed spec fn freqs(self) -> Seq<Seq<u32>> {
        Seq::new(self.contexts@.len(), |i: int| self.contexts@[i].cum_freq@)
    }

    /// The total frequencies of the contexts.
    pub closed spec fn totals(self) -> Seq<u32> {
        Seq::new(self.contexts@.len(), |i: int| self.contexts@[i].total_freq)
    }

    /// Whether the code lies at or above the low bound of the interval, as
    /// every decoding step needs: the renormalization of an underflow flips
    /// a bit of the code without shifting it, and can leave it below.
    pub fn code_at_or_above_low(&self) -> (b: bool)
        ensures
            b == (self.low() <= self.code()),
    {
        self.low <= self.code
    }

    /// The decoder holds 64 well-formed contexts of 256 symbols.
    pub open spec fn wf(self) -> bool {
        &&& self.freqs().len() == NUM_CONTEXTS
        &&& self.totals().len() == NUM_CONTEXTS
        &&& forall|i: int|
            0 <= i < NUM_CONTEXTS ==> #[trigger] self.freqs()[i].len() == 257 && freqs_wf(
                self.freqs()[i],
                self.totals()[i],
            )
    }

    /// The context that `predicted` selects.
    pub open spec fn context_of(predicted: u8) -> int {
        predicted as int % NUM_CONTEXTS as int
    }

    /// The symbol that the next call of `decode_symbol` decodes.
    pub open spec fn next_symbol(self, predicted: u8) -> int {
        let c = Self::context_of(predicted);
        decoded_symbol(self.low(), self.high(), self.code(), self.freqs()[c], self.totals()[c])
    }

    /// The state in which `decode_symbol` runs: the code lies at or above
    /// the low bound, and the interval is ordered and at least as wide as
    /// the rescale limit (so that every symbol has a non-empty share of it).
    pub open spec fn can_decode(self) -> bool {
        &&& self.low() <= self.code()
        &&& self.low() <= self.high()
        &&& self.high() - self.low() >= RESCALE_LIMIT
    }

    /// The decoder as a value, with the position of its input.
    pub open spec fn state(self, pos: nat) -> CoderState {
        CoderState {
            low: self.low(),
            high: self.high(),
            code: self.code(),
            pos,
            reads: self.reads_input(),
            freqs: self.freqs(),
            totals: self.totals(),
        }
    }

    /// A decoder with the full interval, a zero code, and 64 uniform contexts
    /// of 256 symbols.
    pub fn new() -> (d: Self)
        ensures
            d.wf(),
            d.low() == 0,
            d.high() == 0xFFFF_FFFF,
            d.code() == 0,
            !d.reads_input(),
            forall|i: int, j: int|
                0 <= i < NUM_CONTEXTS && 0 <= j <= 256 ==> #[trigger] d.freqs()[i][j] == j,
            forall|i: int| 0 <= i < NUM_CONTEXTS ==> #[trigger] d.totals()[i] == 256,
    {
        let mut contexts: Vec<ProbContext> = Vec::new();
        let mut k: usize = 0;
        while k < NUM_CONTEXTS
            invariant
                k <= NUM_CONTEXTS,
                contexts@.len() == k,
                forall|i: int|
                    0 <= i < k ==> (#[trigger] contexts@[i]).cum_freq@.len() == 257
                        && contexts@[i].total_freq == 256 && forall|j: int|
                        0 <= j <= 256 ==> contexts@[i].cum_freq@[j] == j,
            decreases NUM_CONTEXTS - k,
        {
            contexts.push(ProbContext::new(256));
            k = k + 1;
        }
        let d = ArithmeticDecoder { low: 0, high: 0xFFFF_FFFF, code: 0, code_bits: 0, contexts };
        assert forall|i: int| 0 <= i < NUM_CONTEXTS implies #[trigger] d.freqs()[i].len() == 257
            && freqs_wf(d.freqs()[i], d.totals()[i]) by {
            let cf = d.freqs()[i];
            assert(forall|x: int| 0 <= x <= 256 ==> cf[x] == x);
        }
        d
    }

    /// Initialize the decoder by reading the initial code value: the full
    /// interval and the next four bytes, most significant first. When fewer
    /// than four bytes remain the read fails, the code is zero and the
    /// cursor moves to the end.
    pub fn init(&mut self, reader: &mut ByteCursor) -> (r: Result<(), ChimeError>)
        ensures
            final(self).low() == 0,
            final(self).high() == 0xFFFF_FFFF,
            final(self).freqs() == old(self).freqs(),
            final(self).totals() == old(self).totals(),
            final(reader).bytes() == old(reader).bytes(),
            old(reader).pos() + 4 <= old(reader).bytes().len() ==> {
                &&& r is Ok
                &&& final(self).code() == be32(old(reader).bytes(), old(reader).pos() as int)
                &&& final(self).reads_input()
                &&& final(reader).pos() == old(reader).pos() + 4
            },
            old(reader).pos() + 4 > old(reader).bytes().len() ==> {
                &&& r == Err::<(), ChimeError>(ChimeError::Io)
                &&& final(self).code() == 0
                &&& final(self).reads_input() == old(self).reads_input()
                &&& final(reader).pos() == old(reader).bytes().len()
            },
    {
        self.low = 0;
        self.high = 0xFFFF_FFFF;
        self.code = 0;
        let v = reader.read_u32_be()?;
        self.code = v;
        self.code_bits = 32;
        Ok(())
    }

    /// Decode one symbol given a predicted value (used as context selector):
    /// the first symbol whose upper cumulative frequency exceeds the target
    /// that the code selects; the interval, whose width is taken in 64 bits,
    /// narrows to that symbol's share, is renormalized, and the selected
    /// context counts the symbol (see `coder_step`).
    pub fn decode_symbol(&mut self, reader: &mut ByteCursor, predicted: u8) -> (r: Result<
        u8,
        ChimeError,
    >)
        requires
            old(self).wf(),
            old(self).can_decode(),
        ensures
            final(self).state(final(reader).pos()) == coder_step(
                old(self).state(old(reader).pos()),
                old(reader).bytes(),
                predicted,
            ).0,
            r == Ok::<u8, ChimeError>(
                coder_step(old(self).state(old(reader).pos()), old(reader).bytes(), predicted).1,
            ),
            final(self).high() - final(self).low() > 0x4000_0000,
            ({
                let c = Self::context_of(predicted);
                let cf = old(self).freqs()[c];
                let total = old(self).totals()[c];
                let s = old(self).next_symbol(predicted);
                let nl = old(self).low() + low_offset(old(self).low(), old(self).high(), cf, total, s);
                let nh = old(self).low() + high_offset(old(self).low(), old(self).high(), cf, total, s)
                    - 1;
                let fin = renormalize(
                    nl as u32,
                    nh as u32,
                    old(self).code(),
                    old(reader).bytes(),
                    old(reader).pos() as int,
                    old(self).reads_input(),
                );
                &&& 0 <= s < 256
                &&& r == Ok::<u8, ChimeError>(s as u8)
                &&& final(self).low() == fin.0
                &&& final(self).high() == fin.1
                &&& final(self).code() == fin.2
                &&& final(reader).pos() as int == fin.3
                &&& final(reader).bytes() == old(reader).bytes()
                &&& final(self).reads_input() == old(self).reads_input()
                &&& final(self).wf()
                &&& forall|i: int|
                    0 <= i < NUM_CONTEXTS && i != c ==> final(self).freqs()[i] == old(self).freqs()[i]
                        && final(self).totals()[i] == old(self).totals()[i]
                &&& final(self).freqs()[c] == if total + 1 >= RESCALE_LIMIT {
                    rescaled(bumped(cf, s), 257).map_values(|x: int| x as u32)
                } else {
                    bumped(cf, s)
                }
            }),
    {
        let ghost c = Self::context_of(predicted);
        let ctx_idx = (predicted as usize) % self.contexts.len();
        assert(self.freqs()[c] == self.contexts@[c].cum_freq@);
        assert(self.totals()[c] == self.contexts@[c].total_freq);
        let range = self.high as u64 - self.low as u64 + 1;
        let total = self.contexts[ctx_idx].total_freq as u64;
        let ghost cf = self.contexts@[c].cum_freq@;
        assert(1 <= total < 0x10_0000);
        assert((self.code as u64 - self.low as u64 + 1) * total <= 0x1_0000_0000 * 0x10_0000)
            by (nonlinear_arith)
            requires
                self.code as u64 - self.low as u64 + 1 <= 0x1_0000_0000,
                total < 0x10_0000,
        ;
        assert((self.code as u64 - self.low as u64 + 1) * total >= 1) by (nonlinear_arith)
            requires
                self.code as u64 - self.low as u64 + 1 >= 1,
                total >= 1,
        ;
        let scaled = ((self.code as u64 - self.low as u64 + 1) * total - 1) / range;
        let cum_freq = (#[verifier::truncate] (scaled as u32));
        assert(cum_freq == target_freq(self.low, self.high, self.code, total as u32)) by {
            assert(cum_freq as int == scaled as int % 0x1_0000_0000) by (bit_vector)
                requires
                    cum_freq == scaled as u32,
            ;
        }
        let mut symbol: u32 = 0;
        let mut i: usize = 0;
        while i < 256
            invariant_except_break
                0 <= i <= 256,
                symbol == 0,
                select_symbol(cf, cum_freq, 0) == select_symbol(cf, cum_freq, i as int),
            invariant
                ctx_idx == c,
                0 <= c < NUM_CONTEXTS,
                self.contexts@.len() == NUM_CONTEXTS,
                self.contexts@[c].cum_freq@ == cf,
                cf.len() == 257,
            ensures
                symbol == select_symbol(cf, cum_freq, 0),
            decreases 256 - i,
        {
            if self.contexts[ctx_idx].cum_freq[i + 1] > cum_freq {
                symbol = i as u32;
                break;
            }
            i = i + 1;
        }
        let ghost s = select_symbol(cf, cum_freq, 0);
        proof {
            lemma_select_symbol_range(cf, cum_freq, 0);
            assert(cf[s] < cf[s + 1] && cf[s + 1] <= cf[256]);
        }
        let lo_freq = self.contexts[ctx_idx].cum_freq[symbol as usize] as u64;
        let hi_freq = self.contexts[ctx_idx].cum_freq[symbol as usize + 1] as u64;
        assert(range * hi_freq <= 0x1_0000_0000 * 0x10_0000) by (nonlinear_arith)
            requires
                range <= 0x1_0000_0000,
                hi_freq < 0x10_0000,
        ;
        assert(range * lo_freq <= range * hi_freq) by (nonlinear_arith)
            requires
                lo_freq <= hi_freq,
        ;
        let hi_off = (range * hi_freq) / total;
        let lo_off = (range * lo_freq) / total;
        assert(hi_off <= range) by (nonlinear_arith)
            requires
                hi_off == (range * hi_freq) / (total as int),
                hi_freq <= total,
                total >= 1,
        {
            vstd::arithmetic::div_mod::lemma_div_is_ordered(
                (range * hi_freq) as int,
                (range * total) as int,
                total as int,
            );
            vstd::arithmetic::div_mod::lemma_div_by_multiple(range as int, total as int);
        }
        assert(lo_off <= hi_off) by {
            vstd::arithmetic::div_mod::lemma_div_is_ordered(
                (range * lo_freq) as int,
                (range * hi_freq) as int,
                total as int,
            );
        }
        proof {
            lemma_offsets_apart(range as int, lo_freq as int, hi_freq as int, total as int);
        }
        self.high = (self.low as u64 + hi_off - 1) as u32;
        self.low = (self.low as u64 + lo_off) as u32;
        let ghost data = reader.bytes();
        let ghost reads = self.code_bits > 0;
        let ghost fin = renormalize(self.low, self.high, self.code, data, reader.pos() as int, reads);
        proof {
            lemma_renorm_result(self.low, self.high, self.code, data, reader.pos() as int, reads);
        }
        let ghost ctxs = self.contexts@;
        loop
            invariant
                self.low <= self.high,
                renormalize(self.low, self.high, self.code, data, reader.pos() as int, reads) == fin,
                reader.bytes() == data,
                (self.code_bits > 0) == reads,
                self.contexts@ == ctxs,
            ensures
                self.low == fin.0,
                self.high == fin.1,
                self.code == fin.2,
                reader.pos() as int == fin.3,
                reader.bytes() == data,
                (self.code_bits > 0) == reads,
                self.contexts@ == ctxs,
            decreases 0xFFFF_FFFFu32 - (self.high - self.low),
        {
            let low = self.low;
            let high = self.high;
            proof {
                lemma_renorm_widens(low, high);
                lemma_full_mask(low << 1u32);
                lemma_full_mask((high << 1u32) | 1u32);
                lemma_full_mask(self.code << 1u32);
                lemma_full_mask(self.code ^ 0x4000_0000u32);
                lemma_full_mask((high << 1u32) | 0x8000_0001u32);
            }
            let ghost pos0 = reader.pos() as int;
            let ghost code0 = self.code;
            if (high & 0x8000_0000) == (low & 0x8000_0000) {
                self.low = (low << 1) & 0xFFFF_FFFF;
                self.high = ((high << 1) | 1) & 0xFFFF_FFFF;
                self.code = (self.code << 1) & 0xFFFF_FFFF;
                let ghost step = shift_in(code0 << 1u32, data, pos0, reads);
                assert(fin == renormalize(low << 1u32, (high << 1u32) | 1u32, step.0, data, step.1, reads));
                assert(self.code == code0 << 1u32);
                if self.code_bits > 0 {
                    if let Some(b) = reader.read_byte() {
                        assert(b == data[pos0]);
                        self.code = self.code | (b as u32 & 1);
                        proof {
                            lemma_low_bit(b);
                        }
                        assert(self.code == step.0);
                    } else {
                        assert(pos0 >= data.len());
                        assert(self.code == step.0);
                    }
                } else {
                    assert(self.code == step.0);
                }
                assert(self.code == step.0);
                assert(reader.pos() == step.1);
            } else if (low & 0x4000_0000) != 0 && (high & 0x4000_0000) == 0 {
                self.low = (low << 1) & 0x3FFF_FFFF;
                self.high = ((high << 1) | 0x8000_0001) & 0xFFFF_FFFF;
                self.code = (self.code ^ 0x4000_0000) & 0xFFFF_FFFF;
                let ghost step = shift_in(code0 ^ 0x4000_0000u32, data, pos0, reads);
                assert(fin == renormalize((low << 1u32) & 0x3FFF_FFFFu32, (high << 1u32) | 0x8000_0001u32, step.0, data, step.1, reads));
                if self.code_bits > 0 {
                    if let Some(b) = reader.read_byte() {
                        self.code = self.code | (b as u32 & 1);
                        proof {
                            lemma_low_bit(b);
                        }
                    }
                }
                assert(self.code == step.0);
                assert(reader.pos() == step.1);
            } else {
                break;
            }
        }
        proof {
            assert(self.contexts@[c].cum_freq@ == cf);
        }
        let ghost total0 = self.contexts@[c].total_freq;
        self.contexts[ctx_idx].update(symbol);
        proof {
            let nctx = self.contexts@[c];
            assert(self.freqs()[c] == nctx.cum_freq@);
            assert(self.totals()[c] == nctx.total_freq);
            assert forall|k: int| 0 <= k < NUM_CONTEXTS && k != c implies self.freqs()[k]
                == old(self).freqs()[k] && self.totals()[k] == old(self).totals()[k] by {
                assert(self.contexts@[k] == ctxs[k]);
            }
            if total0 + 1 >= RESCALE_LIMIT {
                lemma_rescaled_len(bumped(cf, s), 257);
                assert(nctx.cum_freq@ =~= rescaled(bumped(cf, s), 257).map_values(
                    |x: int| x as u32,
                ));
            }
            assert forall|k: int| 0 <= k < NUM_CONTEXTS implies #[trigger] self.freqs()[k].len()
                == 257 && freqs_wf(self.freqs()[k], self.totals()[k]) by {
                if k != c {
                    assert(self.contexts@[k] == ctxs[k]);
                    assert(old(self).freqs()[k].len() == 257);
                }
            }
            let ncf = counted(cf, total0, s);
            assert(self.freqs()[c] == ncf);
            assert(self.freqs()[c].len() == 257 && freqs_wf(self.freqs()[c], self.totals()[c]));
            assert(self.freqs() =~= old(self).freqs().update(c, ncf));
            assert(self.totals() =~= old(self).totals().update(c, ncf[256]));
        }
        Ok(symbol as u8)
    }
}

} // verus!
