//! Bit-level reader for DST frame parsing.
//!
//! DST frames pack fields at arbitrary bit boundaries (12-bit frame_nr,
//! 4-bit channels, etc.). Bits are read most significant first; bits past
//! the end of the data read as zero.
use vstd::arithmetic::div_mod::*;
use vstd::arithmetic::power2::*;
use vstd::prelude::*;

verus! {

/// Bit `i` of `data`, counting from the most significant bit of the first
/// byte; zero past the end.
pub open spec fn bit_at(data: Seq<u8>, i: int) -> nat {
    if 0 <= i && i / 8 < data.len() {
        ((data[i / 8] >> ((7 - i % 8) as u8)) & 1u8) as nat
    } else {
        0
    }
}

/// The unsigned integer formed by the `count` bits from bit `pos`, most
/// significant first.
pub open spec fn bits_value(data: Seq<u8>, pos: int, count: nat) -> nat
    decreases count,
{
    if count == 0 {
        0
    } else {
        bits_value(data, pos, (count - 1) as nat) * 2 + bit_at(data, pos + count - 1)
    }
}

/// The two's-complement integer formed by the `count` bits from bit `pos`.
pub open spec fn signed_bits_value(data: Seq<u8>, pos: int, count: nat) -> int {
    if count > 0 && bit_at(data, pos) == 1 {
        bits_value(data, pos, count) - pow2(count)
    } else {
        bits_value(data, pos, count) as int
    }
}

/// A bit is 0 or 1.
pub proof fn lemma_bit_at_bound(data: Seq<u8>, i: int)
    ensures
        bit_at(data, i) <= 1,
{
    if 0 <= i && i / 8 < data.len() {
        let b = data[i / 8];
        let k = (7 - i % 8) as u8;
        assert((b >> k) & 1u8 <= 1u8) by (bit_vector);
    }
}

/// `count` bits hold a value below `2^count`, and the first of them weighs
/// `2^(count-1)`.
pub proof fn lemma_bits_value_split(data: Seq<u8>, pos: int, count: nat)
    ensures
        bits_value(data, pos, count) < pow2(count),
        count > 0 ==> bits_value(data, pos, count) == bit_at(data, pos) * pow2(
            (count - 1) as nat,
        ) + bits_value(data, pos + 1, (count - 1) as nat),
    decreases count,
{
    lemma_bit_at_bound(data, pos + count - 1);
    lemma_bit_at_bound(data, pos);
    if count == 0 {
        assert(pow2(0) == 1) by {
            lemma2_to64();
        }
    } else if count == 1 {
        assert(pow2(0) == 1 && pow2(1) == 2) by {
            lemma2_to64();
        }
        assert(bits_value(data, pos, 0) == 0);
        assert(bits_value(data, pos + 1, 0) == 0);
        assert(bits_value(data, pos, 1) == bit_at(data, pos));
    } else {
        let c1 = (count - 1) as nat;
        let c2 = (count - 2) as nat;
        lemma_bits_value_split(data, pos, c1);
        lemma_pow2_unfold(count);
        lemma_pow2_unfold(c1);
        let t = bit_at(data, pos);
        let last = bit_at(data, pos + count - 1);
        assert(pos + 1 + c1 - 1 == pos + count - 1);
        assert(bits_value(data, pos + 1, c1) == bits_value(data, pos + 1, c2) * 2 + last);
        assert(bits_value(data, pos, count) == bits_value(data, pos, c1) * 2 + last);
        assert(bits_value(data, pos, c1) == t * pow2(c2) + bits_value(data, pos + 1, c2));
        let a = bits_value(data, pos, c1);
        let r2 = bits_value(data, pos + 1, c2);
        assert(pow2(c1) == 2 * pow2(c2));
        if t == 0 {
            assert(t * pow2(c2) == 0) by (nonlinear_arith)
                requires
                    t == 0,
            ;
            assert(a == r2);
            assert(t * pow2(c1) == 0);
        } else {
            assert(t == 1);
            assert(t * pow2(c2) == pow2(c2)) by (nonlinear_arith)
                requires
                    t == 1,
            ;
            assert(a == pow2(c2) + r2);
            assert(t * pow2(c1) == pow2(c1));
        }
    }
}

/// Reading `a` bits and then `b` bits reads the same bits as reading
/// `a + b` bits at once: the first value makes the high part, the second
/// the low part.
pub proof fn lemma_consecutive_reads(data: Seq<u8>, pos: int, a: nat, b: nat)
    ensures
        bits_value(data, pos, a + b) == bits_value(data, pos, a) * pow2(b) + bits_value(
            data,
            pos + a,
            b,
        ),
    decreases b,
{
    if b == 0 {
        assert(pow2(0) == 1) by {
            lemma2_to64();
        }
        assert(bits_value(data, pos, a) * 1 == bits_value(data, pos, a));
    } else {
        let b1 = (b - 1) as nat;
        lemma_consecutive_reads(data, pos, a, b1);
        lemma_pow2_unfold(b);
        let hi = bits_value(data, pos, a);
        let lo = bits_value(data, pos + a, b1);
        let last = bit_at(data, pos + a + b - 1);
        assert(bits_value(data, pos, a + b) == bits_value(data, pos, (a + b1) as nat) * 2 + last);
        assert(bits_value(data, pos + a, b) == lo * 2 + last);
        assert((hi * pow2(b1) + lo) * 2 + last == hi * pow2(b) + (lo * 2 + last)) by (
        nonlinear_arith)
            requires
                pow2(b) == 2 * pow2(b1),
        ;
    }
}

/// The top bit of a `count`-bit field is its first bit.
proof fn lemma_top_bit(data: Seq<u8>, pos: int, count: nat, val: u32)
    requires
        1 <= count <= 32,
        val == bits_value(data, pos, count),
    ensures
        (val >> ((count - 1) as u32)) & 1u32 == bit_at(data, pos),
{
    let c = (count - 1) as nat;
    lemma_bits_value_split(data, pos, count);
    lemma_bits_value_split(data, pos + 1, c);
    lemma_bit_at_bound(data, pos);
    lemma_pow2_pos(c);
    vstd::bits::lemma_u32_shr_is_div(val, c as u32);
    let w = pow2(c);
    let t = bit_at(data, pos);
    let rest = bits_value(data, pos + 1, c);
    vstd::arithmetic::div_mod::lemma_fundamental_div_mod_converse(
        val as int,
        w as int,
        t as int,
        rest as int,
    );
    let x = val >> (c as u32);
    assert(x == t);
    assert(x <= 1u32 ==> x & 1u32 == x) by (bit_vector);
}

/// Shifting one bit into a 32-bit register keeps the value modulo `2^32`.
proof fn lemma_shift_in(r: u32, b: u32, x: nat)
    requires
        b <= 1,
        r as int == x % 0x1_0000_0000,
    ensures
        ((r << 1u32) | b) as int == (x * 2 + b) % 0x1_0000_0000,
{
    assert(((r << 1u32) | b) as int == (r as int * 2 + b as int) % 0x1_0000_0000) by (bit_vector)
        requires
            b <= 1,
    ;
    let m: int = 0x1_0000_0000;
    lemma_fundamental_div_mod(x as int, m);
    let q = x as int / m;
    assert(x * 2 + b == m * (2 * q) + (r * 2 + b));
    lemma_mod_multiples_vanish(2 * q, r * 2 + b, m);
}

/// Sign extension of a `c`-bit value with its top bit set.
proof fn lemma_sign_extend(v: u32, c: u32)
    requires
        1 <= c < 32,
        v < (1u32 << c),
    ensures
        ((v | (!0u32 << c)) as i32) as int == v as int - (1u32 << c) as int,
{
    assert(((v | (!0u32 << c)) as i32) as int == v as int - (1u32 << c) as int) by (bit_vector)
        requires
            1 <= c < 32,
            v < (1u32 << c),
    ;
}

/// Aligning to a byte keeps the count of bytes consumed, puts the next
/// read at the first bit of the next byte, and aligning again changes
/// nothing.
pub proof fn lemma_align_keeps_bytes_consumed(p: int)
    requires
        p >= 0,
    ensures
        ({
            let a = 8 * ((p + 7) / 8);
            &&& a % 8 == 0
            &&& (a + 7) / 8 == (p + 7) / 8
            &&& 8 * ((a + 7) / 8) == a
        }),
{
}

/// Bit-level reader for DST frame parsing.
pub struct DstBitReader<'a> {
    data: &'a [u8],
    byte_pos: usize,
    /// Next bit to read in the current byte, 0-7, most significant first.
    bit_pos: u8,
}

impl<'a> DstBitReader<'a> {
    #[verifier::type_invariant]
    spec fn inv(self) -> bool {
        self.bit_pos < 8
    }

    /// The bytes being read.
    pub closed spec fn bytes(self) -> Seq<u8> {
        self.data@
    }

    /// The index of the next bit to read.
    pub closed spec fn pos(self) -> int {
        self.byte_pos * 8 + self.bit_pos
    }

    /// A reader at the first bit of `data`.
    pub fn new(data: &'a [u8]) -> (r: Self)
        ensures
            r.bytes() == data@,
            r.pos() == 0,
    {
        Self { data, byte_pos: 0, bit_pos: 0 }
    }

    /// Read `count` bits as a u32 (MSB first); of more than 32 bits, the last
    /// 32 remain.
    pub fn read_bits(&mut self, count: u8) -> (v: u32)
        requires
            old(self).pos() + count <= 8 * usize::MAX,
        ensures
            final(self).bytes() == old(self).bytes(),
            final(self).pos() == old(self).pos() + count,
            v as int == bits_value(old(self).bytes(), old(self).pos(), count as nat) % 0x1_0000_0000,
    {
        proof {
            use_type_invariant(&*self);
        }
        let ghost start = self.pos();
        let ghost data = self.bytes();
        let mut result: u32 = 0;
        let mut k: u8 = 0;
        while k < count
            invariant
                k <= count,
                self.bytes() == data,
                self.bit_pos < 8,
                self.pos() == start + k,
                start + count <= 8 * usize::MAX,
                result as int == bits_value(data, start, k as nat) % 0x1_0000_0000,
            decreases count - k,
        {
            let ghost i = self.pos();
            assert(i / 8 == self.byte_pos && i % 8 == self.bit_pos);
            let bit: u32 = if self.byte_pos < self.data.len() {
                ((self.data[self.byte_pos] >> (7 - self.bit_pos)) & 1) as u32
            } else {
                0
            };
            proof {
                if self.byte_pos < self.data.len() {
                    let b = self.data@[self.byte_pos as int];
                    let s = (7 - self.bit_pos) as u8;
                    assert(((b >> s) & 1u8) as u32 == (((b >> s) & 1u8) as nat) as u32);
                }
                assert(bit == bit_at(data, i));
                lemma_bit_at_bound(data, i);
                lemma_shift_in(result, bit, bits_value(data, start, k as nat));
                assert(start + (k + 1) - 1 == i);
            }
            result = (result << 1) | bit;
            let next = self.bit_pos + 1;
            if next >= 8 {
                self.bit_pos = 0;
                self.byte_pos = self.byte_pos + 1;
            } else {
                self.bit_pos = next;
            }
            k = k + 1;
        }
        result
    }

    /// Read `count` bits as a signed integer: sign-extended from the top bit
    /// of the field; a 32-bit field is its own two's-complement value.
    pub fn read_signed_bits(&mut self, count: u8) -> (v: i32)
        requires
            old(self).pos() + count <= 8 * usize::MAX,
            count <= 32,
        ensures
            final(self).bytes() == old(self).bytes(),
            final(self).pos() == old(self).pos() + count,
            v as int == signed_bits_value(old(self).bytes(), old(self).pos(), count as nat),
    {
        let ghost data = self.bytes();
        let ghost p = self.pos();
        let val = self.read_bits(count);
        proof {
            lemma_bits_value_split(data, p, count as nat);
            lemma_bit_at_bound(data, p);
            lemma2_to64();
            if count < 32 {
                lemma_pow2_strictly_increases(count as nat, 32);
            }
            vstd::arithmetic::div_mod::lemma_small_mod(
                bits_value(data, p, count as nat),
                0x1_0000_0000,
            );
            if count > 0 {
                lemma_top_bit(data, p, count as nat, val);
            }
        }
        if count == 32 {
            proof {
                assert((val >> 31u32) & 1u32 == 1u32 <==> val >= 0x8000_0000) by (bit_vector);
                assert((val as i32) as int == if val >= 0x8000_0000 {
                    val as int - 0x1_0000_0000
                } else {
                    val as int
                }) by (bit_vector);
                assert(pow2(32) == 0x1_0000_0000);
            }
            return (#[verifier::truncate] (val as i32));
        }
        if count > 0 && (val >> (count - 1)) & 1 != 0 {
            proof {
                let c = count as u32;
                assert(count < 32);
                vstd::bits::lemma_u32_shl_is_mul(1u32, c);
                lemma_sign_extend(val, c);
            }
            (#[verifier::truncate] ((val | (!0u32 << count)) as i32))
        } else {
            proof {
                if count > 0 {
                    assert(bit_at(data, p) == 0);
                    lemma_bits_value_split(data, p + 1, (count - 1) as nat);
                    if count < 32 {
                        lemma_pow2_strictly_increases((count - 1) as nat, 31);
                    }
                }
                assert(val < 0x8000_0000);
            }
            val as i32
        }
    }

    /// Read a u8 byte (8 bits, MSB first).
    pub fn read_byte(&mut self) -> (v: u8)
        requires
            old(self).pos() + 8 <= 8 * usize::MAX,
        ensures
            final(self).bytes() == old(self).bytes(),
            final(self).pos() == old(self).pos() + 8,
            v == bits_value(old(self).bytes(), old(self).pos(), 8),
    {
        let ghost data = self.bytes();
        let ghost p = self.pos();
        let v = self.read_bits(8);
        proof {
            lemma_bits_value_split(data, p, 8);
            assert(pow2(8) == 256) by {
                lemma2_to64();
            }
            vstd::arithmetic::div_mod::lemma_small_mod(bits_value(data, p, 8), 0x1_0000_0000);
        }
        v as u8
    }

    /// Skip to the next byte boundary.
    pub fn align_to_byte(&mut self)
        requires
            old(self).pos() % 8 != 0 ==> old(self).pos() / 8 < usize::MAX,
        ensures
            final(self).bytes() == old(self).bytes(),
            final(self).pos() == 8 * ((old(self).pos() + 7) / 8),
    {
        proof {
            use_type_invariant(&*self);
        }
        if self.bit_pos != 0 {
            self.bit_pos = 0;
            self.byte_pos = self.byte_pos + 1;
        }
    }

    /// The position of the next bit to read: its byte, and its bit within
    /// that byte (0 for the most significant).
    pub fn position(&self) -> (p: (usize, u8))
        ensures
            p.0 * 8 + p.1 == self.pos(),
            p.1 < 8,
    {
        proof {
            use_type_invariant(self);
        }
        (self.byte_pos, self.bit_pos)
    }

    /// Number of bits remaining.
    pub fn bits_remaining(&self) -> (n: usize)
        requires
            self.bytes().len() * 8 <= usize::MAX,
        ensures
            n == if self.pos() <= self.bytes().len() * 8 {
                self.bytes().len() * 8 - self.pos()
            } else {
                0
            },
    {
        proof {
            use_type_invariant(self);
        }
        (self.data.len().saturating_sub(self.byte_pos) * 8).saturating_sub(self.bit_pos as usize)
    }

    /// Number of bytes consumed so far: the started bytes.
    pub fn bytes_consumed(&self) -> (n: usize)
        requires
            self.pos() + 7 <= 8 * usize::MAX,
        ensures
            n == (self.pos() + 7) / 8,
    {
        proof {
            use_type_invariant(self);
        }
        self.byte_pos + if self.bit_pos > 0 {
            1
        } else {
            0
        }
    }
}

} // verus!
