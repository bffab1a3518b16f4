//! Bit streams: most significant bit first, packed into bytes.

use vstd::arithmetic::power2::{lemma_pow2_adds, lemma_pow2_unfold, lemma2_to64, pow2};
use vstd::prelude::*;

verus! {

/// The low `n` bits of `v`, most significant first.
pub open spec fn nat_bits(v: nat, n: nat) -> Seq<bool>
    decreases n,
{
    if n == 0 {
        seq![]
    } else {
        nat_bits(v / 2, (n - 1) as nat).push(v % 2 == 1)
    }
}

/// The number whose binary digits, most significant first, are `s`.
pub open spec fn bits_value(s: Seq<bool>) -> nat
    decreases s.len(),
{
    if s.len() == 0 {
        0
    } else {
        2 * bits_value(s.drop_last()) + if s.last() {
            1nat
        } else {
            0
        }
    }
}

/// The bits of a byte string, each byte most significant bit first.
pub open spec fn bytes_bits(bytes: Seq<u8>) -> Seq<bool>
    decreases bytes.len(),
{
    if bytes.len() == 0 {
        seq![]
    } else {
        bytes_bits(bytes.drop_last()) + nat_bits(bytes.last() as nat, 8)
    }
}

/// `n` zero bits.
pub open spec fn zeros(n: nat) -> Seq<bool> {
    Seq::new(n, |i: int| false)
}

/// How many zero bits fill `n` bits up to whole bytes.
pub open spec fn pad_len(n: nat) -> nat {
    ((8 - n % 8) % 8) as nat
}

/// The bytes that hold `bits`, the last one filled up with zero bits.
pub open spec fn pack_bits(bits: Seq<bool>) -> Seq<u8> {
    let padded = bits + zeros(pad_len(bits.len()));
    Seq::new(padded.len() / 8, |i: int| bits_value(padded.subrange(8 * i, 8 * i + 8)) as u8)
}

pub proof fn lemma_nat_bits_len(v: nat, n: nat)
    ensures
        nat_bits(v, n).len() == n,
    decreases n,
{
    if n > 0 {
        lemma_nat_bits_len(v / 2, (n - 1) as nat);
    }
}

/// A number that fits in `n` bits is the value of its `n` bits.
pub proof fn lemma_bits_value_of_nat_bits(v: nat, n: nat)
    requires
        v < pow2(n),
    ensures
        bits_value(nat_bits(v, n)) == v,
    decreases n,
{
    lemma_nat_bits_len(v, n);
    if n == 0 {
        lemma2_to64();
    } else {
        lemma_pow2_unfold(n);
        lemma_bits_value_of_nat_bits(v / 2, (n - 1) as nat);
        assert(nat_bits(v, n).drop_last() =~= nat_bits(v / 2, (n - 1) as nat));
    }
}

/// Bits written out of their value are the bits themselves.
pub proof fn lemma_nat_bits_of_bits_value(s: Seq<bool>)
    ensures
        nat_bits(bits_value(s), s.len()) == s,
        bits_value(s) < pow2(s.len()),
    decreases s.len(),
{
    if s.len() == 0 {
        lemma2_to64();
        assert(nat_bits(bits_value(s), 0) =~= s);
    } else {
        lemma_nat_bits_of_bits_value(s.drop_last());
        lemma_pow2_unfold(s.len());
        assert(nat_bits(bits_value(s), s.len()) =~= s);
    }
}

/// The bits of `a * 2^n + v` are those of `a` and then those of `v`.
pub proof fn lemma_nat_bits_concat(a: nat, m: nat, v: nat, n: nat)
    requires
        v < pow2(n),
    ensures
        nat_bits(a * pow2(n) + v, m + n) == nat_bits(a, m) + nat_bits(v, n),
    decreases n,
{
    if n == 0 {
        lemma2_to64();
        assert(a * pow2(0) + v == a) by (nonlinear_arith)
            requires
                pow2(0) == 1,
                v == 0,
        ;
        assert(nat_bits(a, m) + nat_bits(v, 0) =~= nat_bits(a, m));
    } else {
        lemma_pow2_unfold(n);
        let p = pow2((n - 1) as nat);
        assert(a * (2 * p) == 2 * (a * p)) by (nonlinear_arith);
        assert((a * pow2(n) + v) / 2 == a * p + v / 2);
        assert((a * pow2(n) + v) % 2 == v % 2);
        lemma_nat_bits_concat(a, m, v / 2, (n - 1) as nat);
        assert(nat_bits(a * pow2(n) + v, m + n) =~= nat_bits(a, m) + nat_bits(v, n));
    }
}

pub proof fn lemma_bytes_bits_len(bytes: Seq<u8>)
    ensures
        bytes_bits(bytes).len() == 8 * bytes.len(),
    decreases bytes.len(),
{
    if bytes.len() > 0 {
        lemma_bytes_bits_len(bytes.drop_last());
        lemma_nat_bits_len(bytes.last() as nat, 8);
    }
}

pub proof fn lemma_bytes_bits_concat(a: Seq<u8>, b: Seq<u8>)
    ensures
        bytes_bits(a + b) == bytes_bits(a) + bytes_bits(b),
    decreases b.len(),
{
    if b.len() == 0 {
        assert(a + b =~= a);
        assert(bytes_bits(a) + bytes_bits(b) =~= bytes_bits(a));
    } else {
        assert((a + b).drop_last() =~= a + b.drop_last());
        lemma_bytes_bits_concat(a, b.drop_last());
        assert(bytes_bits(a + b) =~= bytes_bits(a) + bytes_bits(b));
    }
}

/// The eight bits of byte `i` of a byte string.
pub proof fn lemma_bytes_bits_at(bytes: Seq<u8>, i: int)
    requires
        0 <= i < bytes.len(),
    ensures
        bytes_bits(bytes).len() == 8 * bytes.len(),
        bytes_bits(bytes).subrange(8 * i, 8 * i + 8) == nat_bits(bytes[i] as nat, 8),
    decreases bytes.len(),
{
    lemma_bytes_bits_len(bytes);
    lemma_bytes_bits_len(bytes.drop_last());
    lemma_nat_bits_len(bytes.last() as nat, 8);
    if i < bytes.len() - 1 {
        lemma_bytes_bits_at(bytes.drop_last(), i);
        assert(bytes_bits(bytes).subrange(8 * i, 8 * i + 8) =~= bytes_bits(
            bytes.drop_last(),
        ).subrange(8 * i, 8 * i + 8));
    } else {
        assert(bytes_bits(bytes).subrange(8 * i, 8 * i + 8) =~= nat_bits(bytes[i] as nat, 8));
    }
}

/// Byte strings with the same bits are the same.
pub proof fn lemma_bytes_bits_injective(a: Seq<u8>, b: Seq<u8>)
    requires
        bytes_bits(a) == bytes_bits(b),
    ensures
        a == b,
{
    lemma_bytes_bits_len(a);
    lemma_bytes_bits_len(b);
    lemma2_to64();
    assert forall|i: int| 0 <= i < a.len() implies a[i] == b[i] by {
        lemma_bytes_bits_at(a, i);
        lemma_bytes_bits_at(b, i);
        lemma_bits_value_of_nat_bits(a[i] as nat, 8);
        lemma_bits_value_of_nat_bits(b[i] as nat, 8);
    }
    assert(a =~= b);
}

/// Packed bits, unpacked, are the bits and the zero bits that fill the last byte.
pub proof fn lemma_bytes_bits_of_pack(bits: Seq<bool>)
    ensures
        bytes_bits(pack_bits(bits)) == bits + zeros(pad_len(bits.len())),
        pack_bits(bits).len() == (bits.len() + pad_len(bits.len())) / 8,
        (bits.len() + pad_len(bits.len())) % 8 == 0,
{
    let padded = bits + zeros(pad_len(bits.len()));
    let packed = pack_bits(bits);
    lemma_bytes_bits_len(packed);
    lemma2_to64();
    assert(padded.len() % 8 == 0);
    assert forall|j: int| 0 <= j < padded.len() implies bytes_bits(packed)[j] == padded[j] by {
        let i = j / 8;
        let byte = padded.subrange(8 * i, 8 * i + 8);
        lemma_bytes_bits_at(packed, i);
        lemma_nat_bits_of_bits_value(byte);
        assert(packed[i] as nat == bits_value(byte));
        assert(bytes_bits(packed)[j] == bytes_bits(packed).subrange(8 * i, 8 * i + 8)[j - 8 * i]);
        assert(byte[j - 8 * i] == padded[j]);
    }
    assert(bytes_bits(packed) =~= padded);
}

/// Collects bits into bytes, most significant bit first.
pub struct BitWriter {
    bytes: Vec<u8>,
    acc: u64,
    bits_in_acc: u32,
}

impl BitWriter {
    /// The pending bits are fewer than a byte, and nothing else is in the accumulator.
    pub closed spec fn wf(&self) -> bool {
        &&& self.bits_in_acc < 8
        &&& self.acc < pow2(self.bits_in_acc as nat)
    }

    /// The bits written so far.
    pub closed spec fn bits(&self) -> Seq<bool> {
        bytes_bits(self.bytes@) + nat_bits(self.acc as nat, self.bits_in_acc as nat)
    }

    /// An empty writer.
    pub fn with_capacity(cap: usize) -> (w: Self)
        ensures
            w.wf(),
            w.bits() == Seq::<bool>::empty(),
    {
        proof {
            lemma2_to64();
        }
        BitWriter { bytes: Vec::with_capacity(cap), acc: 0, bits_in_acc: 0 }
    }

    /// Appends the low `num_bits` bits of `value`.
    pub fn write_bits(&mut self, value: u32, num_bits: u8)
        requires
            old(self).wf(),
            num_bits <= 32,
            value < pow2(num_bits as nat),
        ensures
            final(self).wf(),
            final(self).bits() == old(self).bits() + nat_bits(value as nat, num_bits as nat),
    {
        let ghost before = self.bits();
        let n = num_bits as u32;
        proof {
            let a = self.acc as nat;
            let b = self.bits_in_acc as nat;
            let m = n as nat;
            lemma2_to64();
            vstd::arithmetic::power2::lemma2_to64_rest();
            vstd::arithmetic::power2::lemma_pow2_strictly_increases(b, 8);
            if m < 32 {
                vstd::arithmetic::power2::lemma_pow2_strictly_increases(m, 32);
            }
            lemma_pow2_adds(b, m);
            vstd::arithmetic::power2::lemma_pow2_pos(m);
            assert(a * pow2(m) + value < pow2(b) * pow2(m)) by (nonlinear_arith)
                requires
                    a + 1 <= pow2(b),
                    value < pow2(m),
            ;
            if b + m < 40 {
                vstd::arithmetic::power2::lemma_pow2_strictly_increases(b + m, 40);
            }
            vstd::bits::lemma_u64_shl_is_mul(self.acc, n as u64);
            lemma_nat_bits_concat(a, b, value as nat, m);
            assert(before + nat_bits(value as nat, m) =~= bytes_bits(self.bytes@) + (nat_bits(a, b)
                + nat_bits(value as nat, m)));
        }
        self.acc = (self.acc << n) + value as u64;
        self.bits_in_acc = self.bits_in_acc + n;
        while self.bits_in_acc >= 8
            invariant
                self.bits_in_acc < 40,
                self.acc < pow2(self.bits_in_acc as nat),
                self.bits() == before + nat_bits(value as nat, num_bits as nat),
            decreases self.bits_in_acc,
        {
            let ghost bytes0 = self.bytes@;
            let ghost acc0 = self.acc as nat;
            let ghost rest = (self.bits_in_acc - 8) as nat;
            self.bits_in_acc = self.bits_in_acc - 8;
            proof {
                lemma2_to64();
                vstd::arithmetic::power2::lemma_pow2_pos(rest);
                vstd::bits::lemma_u64_shr_is_div(self.acc, self.bits_in_acc as u64);
                lemma_pow2_adds(8, rest);
                vstd::arithmetic::power2::lemma_pow2_strictly_increases(rest, 64);
                vstd::arithmetic::div_mod::lemma_fundamental_div_mod(
                    acc0 as int,
                    pow2(rest) as int,
                );
                let q = acc0 / pow2(rest);
                assert(q < 256) by (nonlinear_arith)
                    requires
                        acc0 < 256 * pow2(rest),
                        q == acc0 / pow2(rest),
                        pow2(rest) > 0,
                ;
                assert(1u64 * pow2(rest) == pow2(rest));
                vstd::bits::lemma_u64_shl_is_mul(1, self.bits_in_acc as u64);
                assert(q * pow2(rest) == pow2(rest) * q) by (nonlinear_arith);
                lemma_nat_bits_concat(q, 8, acc0 % pow2(rest), rest);
            }
            self.bytes.push((self.acc >> self.bits_in_acc) as u8);
            self.acc = self.acc % (1u64 << self.bits_in_acc);
            proof {
                assert(self.bytes@.drop_last() =~= bytes0);
                assert(self.bits() =~= bytes_bits(bytes0) + nat_bits(acc0, rest + 8));
            }
        }
    }

    /// Appends the lowest bit of `bit`.
    pub fn write_bit(&mut self, bit: u8)
        requires
            old(self).wf(),
        ensures
            final(self).wf(),
            final(self).bits() == old(self).bits().push(bit % 2 == 1),
    {
        proof {
            lemma2_to64();
            lemma_nat_bits_len((bit % 2) as nat, 1);
            reveal_with_fuel(nat_bits, 2);
        }
        let ghost before = self.bits();
        self.write_bits((bit % 2) as u32, 1);
        assert(self.bits() =~= before.push(bit % 2 == 1));
    }

    /// The bytes written and how many zero bits fill the last one.
    pub fn finish(self) -> (r: (Vec<u8>, u8))
        requires
            self.wf(),
        ensures
            r.0@ == pack_bits(self.bits()),
            r.1 as nat == pad_len(self.bits().len()),
    {
        let ghost bits = self.bits();
        let BitWriter { bytes, acc, bits_in_acc } = self;
        let mut bytes = bytes;
        let ghost bytes0 = bytes@;
        proof {
            lemma_bytes_bits_len(bytes0);
            lemma_nat_bits_len(acc as nat, bits_in_acc as nat);
            lemma_bytes_bits_of_pack(bits);
        }
        if bits_in_acc > 0 {
            let pad: u32 = 8 - bits_in_acc;
            proof {
                lemma2_to64();
                lemma_pow2_adds(bits_in_acc as nat, pad as nat);
                vstd::arithmetic::power2::lemma_pow2_pos(pad as nat);
                assert(acc * pow2(pad as nat) < 256) by (nonlinear_arith)
                    requires
                        acc < pow2(bits_in_acc as nat),
                        pow2(bits_in_acc as nat) * pow2(pad as nat) == 256,
                        pow2(pad as nat) > 0,
                ;
                vstd::bits::lemma_u64_shl_is_mul(acc, pad as u64);
                lemma_nat_bits_concat(acc as nat, bits_in_acc as nat, 0, pad as nat);
                lemma_nat_bits_zero(pad as nat);
            }
            bytes.push((acc << pad) as u8);
            proof {
                assert(bytes@.drop_last() =~= bytes0);
                assert(bytes_bits(bytes@) =~= bits + zeros(pad_len(bits.len())));
                lemma_bytes_bits_injective(bytes@, pack_bits(bits));
            }
            (bytes, pad as u8)
        } else {
            proof {
                assert(bytes_bits(bytes@) =~= bits + zeros(pad_len(bits.len())));
                lemma_bytes_bits_injective(bytes@, pack_bits(bits));
            }
            (bytes, 0)
        }
    }
}

pub proof fn lemma_nat_bits_zero(n: nat)
    ensures
        nat_bits(0, n) == zeros(n),
    decreases n,
{
    if n > 0 {
        lemma_nat_bits_zero((n - 1) as nat);
    }
    assert(nat_bits(0, n) =~= zeros(n));
}

/// A stream ended before all the bits that were asked for.
#[derive(Clone, Copy, Debug, PartialEq, Eq, Structural)]
pub struct OutOfBits;

/// Takes bits out of bytes, most significant bit first.
pub struct BitReader<'a> {
    data: &'a [u8],
    byte_pos: usize,
    bit_pos: u8,
}

impl<'a> BitReader<'a> {
    /// The position is inside the data, or just behind it.
    pub closed spec fn wf(&self) -> bool {
        &&& self.bit_pos < 8
        &&& self.byte_pos <= self.data@.len()
        &&& self.byte_pos == self.data@.len() ==> self.bit_pos == 0
    }

    /// All bits of the data, those already read among them.
    pub closed spec fn stream(&self) -> Seq<bool> {
        bytes_bits(self.data@)
    }

    /// How many bits have been read.
    pub closed spec fn pos(&self) -> nat {
        8 * self.byte_pos as nat + self.bit_pos as nat
    }

    /// A reader at the start of `data`.
    pub fn new(data: &'a [u8]) -> (r: Self)
        ensures
            r.wf(),
            r.stream() == bytes_bits(data@),
            r.pos() == 0,
    {
        BitReader { data, byte_pos: 0, bit_pos: 0 }
    }

    pub proof fn lemma_pos_in_stream(&self)
        requires
            self.wf(),
        ensures
            self.pos() <= self.stream().len(),
    {
        lemma_bytes_bits_len(self.data@);
    }

    /// The next bit, or an error at the end of the data.
    pub fn read_bit(&mut self) -> (r: Result<u8, OutOfBits>)
        requires
            old(self).wf(),
        ensures
            final(self).wf(),
            final(self).stream() == old(self).stream(),
            r is Ok <==> old(self).pos() < old(self).stream().len(),
            r matches Ok(bit) ==> {
                &&& bit == if old(self).stream()[old(self).pos() as int] { 1u8 } else { 0u8 }
                &&& final(self).pos() == old(self).pos() + 1
            },
            r is Err ==> final(self).pos() == old(self).pos(),
    {
        proof {
            lemma_bytes_bits_len(self.data@);
        }
        if self.byte_pos >= self.data.len() {
            return Err(OutOfBits);
        }
        let byte = self.data[self.byte_pos];
        let bit = (byte >> (7 - self.bit_pos)) & 1;
        proof {
            lemma_bytes_bits_at(self.data@, self.byte_pos as int);
            lemma_bit_of_byte(byte, self.bit_pos);
            let i = self.byte_pos as int;
            assert(self.stream()[self.pos() as int] == self.stream().subrange(
                8 * i,
                8 * i + 8,
            )[self.bit_pos as int]);
        }
        self.bit_pos = self.bit_pos + 1;
        if self.bit_pos == 8 {
            self.byte_pos = self.byte_pos + 1;
            self.bit_pos = 0;
        }
        Ok(bit)
    }

    /// The next `num_bits` bits as a number, or an error if there are fewer. Of more than 32 bits
    /// the last 32 count.
    pub fn read_bits(&mut self, num_bits: u8) -> (r: Result<u32, OutOfBits>)
        requires
            old(self).wf(),
        ensures
            final(self).wf(),
            final(self).stream() == old(self).stream(),
            r is Ok <==> old(self).pos() + num_bits <= old(self).stream().len(),
            r matches Ok(value) ==> {
                &&& value as nat == bits_value(
                    old(self).stream().subrange(old(self).pos() as int, old(self).pos() + num_bits),
                ) % 0x1_0000_0000
                &&& final(self).pos() == old(self).pos() + num_bits
            },
            r is Err ==> final(self).pos() == old(self).stream().len(),
    {
        let ghost start = self.pos();
        let ghost stream = self.stream();
        let mut value: u32 = 0;
        let mut i: u8 = 0;
        proof {
            self.lemma_pos_in_stream();
            assert(stream.subrange(start as int, start as int) =~= seq![]);
        }
        while i < num_bits
            invariant
                i <= num_bits,
                self.wf(),
                self.stream() == stream,
                stream == old(self).stream(),
                start == old(self).pos(),
                self.pos() == start + i,
                start + i <= stream.len(),
                value as nat == bits_value(stream.subrange(start as int, start + i))
                    % 0x1_0000_0000,
            decreases num_bits - i,
        {
            match self.read_bit() {
                Ok(bit) => {
                    proof {
                        let s = stream.subrange(start as int, start + i + 1);
                        assert(s.drop_last() =~= stream.subrange(start as int, start + i));
                        lemma_shift_in(value, bit as u32, bits_value(s.drop_last()));
                    }
                    value = (value << 1) | bit as u32;
                },
                Err(e) => {
                    return Err(e);
                },
            }
            i += 1;
        }
        Ok(value)
    }

    /// How many bytes have been begun.
    pub fn bytes_consumed(&self) -> (n: usize)
        requires
            self.wf(),
        ensures
            n as nat == (self.pos() + 7) / 8,
            8 * n <= self.stream().len(),
    {
        proof {
            lemma_bytes_bits_len(self.data@);
        }
        if self.bit_pos > 0 {
            assert(self.byte_pos < self.data.len());
            self.byte_pos + 1
        } else {
            self.byte_pos
        }
    }
}

proof fn lemma_shift_in(value: u32, bit: u32, all: nat)
    requires
        bit <= 1,
        value as nat == all % 0x1_0000_0000,
    ensures
        ((value << 1) | bit) as nat == (2 * all + bit as nat) % 0x1_0000_0000,
{
    assert((value << 1) | bit == if value < 0x8000_0000 {
        2 * value + bit
    } else {
        2 * (value - 0x8000_0000) + bit
    }) by (bit_vector)
        requires
            bit <= 1,
    ;
}

proof fn lemma_bit_of_byte(byte: u8, j: u8)
    requires
        j < 8,
    ensures
        nat_bits(byte as nat, 8).len() == 8,
        (byte >> (7 - j)) & 1 == if nat_bits(byte as nat, 8)[j as int] {
            1u8
        } else {
            0u8
        },
{
    lemma_nat_bits_len(byte as nat, 8);
    reveal_with_fuel(nat_bits, 9);
    assert((byte >> 0u8) & 1 == byte % 2) by (bit_vector);
    assert((byte >> 1u8) & 1 == byte / 2 % 2) by (bit_vector);
    assert((byte >> 2u8) & 1 == byte / 2 / 2 % 2) by (bit_vector);
    assert((byte >> 3u8) & 1 == byte / 2 / 2 / 2 % 2) by (bit_vector);
    assert((byte >> 4u8) & 1 == byte / 2 / 2 / 2 / 2 % 2) by (bit_vector);
    assert((byte >> 5u8) & 1 == byte / 2 / 2 / 2 / 2 / 2 % 2) by (bit_vector);
    assert((byte >> 6u8) & 1 == byte / 2 / 2 / 2 / 2 / 2 / 2 % 2) by (bit_vector);
    assert((byte >> 7u8) & 1 == byte / 2 / 2 / 2 / 2 / 2 / 2 / 2 % 2) by (bit_vector);
}

/// Bit `i` of a number in `n` bits is worth a power of two, the highest of them first.
pub proof fn lemma_bit_order(v: nat, n: nat, i: nat)
    requires
        i < n,
    ensures
        nat_bits(v, n).len() == n,
        nat_bits(v, n)[i as int] <==> (v / pow2((n - 1 - i) as nat)) % 2 == 1,
    decreases n,
{
    lemma_nat_bits_len(v, n);
    lemma_nat_bits_len(v / 2, (n - 1) as nat);
    vstd::arithmetic::power2::lemma2_to64();
    if i == n - 1 {
        assert(v / 1 == v);
    } else {
        let k = (n - 2 - i) as nat;
        lemma_bit_order(v / 2, (n - 1) as nat, i);
        vstd::arithmetic::power2::lemma_pow2_pos(k);
        vstd::arithmetic::power2::lemma_pow2_unfold(k + 1);
        vstd::arithmetic::div_mod::lemma_div_denominator(v as int, 2, pow2(k) as int);
    }
}

} // verus!
