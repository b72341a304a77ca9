//! A linear feedback shift register and the stream cipher built on it:
//! every data byte is XOR-ed with the next eight output bits.
use vstd::arithmetic::power2::pow2;
use vstd::bits::{low_bits_mask, lemma_u64_low_bits_mask_is_mod, lemma_u64_shl_is_mul, lemma_u64_shr_is_div};
use vstd::prelude::*;

verus! {

/// A bit generator that produces a key stream.
pub trait Cipher: Sized {
    /// Whether the generator may produce its next bit.
    spec fn can_step(&self) -> bool;

    /// The next bit that the generator produces.
    spec fn output_bit(&self) -> i32;

    /// The generator after producing its next bit.
    spec fn stepped(&self) -> Self;

    /// Produces the next bit.
    fn next(&mut self) -> (bit: i32)
        requires
            old(self).can_step(),
        ensures
            bit == old(self).output_bit(),
            *final(self) == old(self).stepped(),
            final(self).can_step(),
    ;

    /// Produces the next byte from eight bits, the first bit most significant.
    fn next_byte(&mut self) -> (byte: u8)
        requires
            old(self).can_step(),
        ensures
            (byte, *final(self)) == bits_into_byte(
                *old(self),
                8,
                |s: Self| s.output_bit(),
                |s: Self| s.stepped(),
            ),
            final(self).can_step(),
    {
        let mut byte = 0u8;
        for k in 0..8u8
            invariant
                self.can_step(),
                (byte, *self) == bits_into_byte(
                    *old(self),
                    k as nat,
                    |s: Self| s.output_bit(),
                    |s: Self| s.stepped(),
                ),
        {
            let bit = self.next();
            byte = (byte << 1u8) | (bit as u8);
        }
        byte
    }
}

/// Shifting `n` bits of a generator into a byte, starting from zero, where
/// `bit` gives a state's next bit and `step` the state after it.
pub open spec fn bits_into_byte<C>(c: C, n: nat, bit: spec_fn(C) -> i32, step: spec_fn(C) -> C) -> (
    u8,
    C,
)
    decreases n,
{
    if n == 0 {
        (0u8, c)
    } else {
        let (acc, d) = bits_into_byte(c, (n - 1) as nat, bit, step);
        ((acc << 1u8) | (bit(d) as u8), step(d))
    }
}

/// The next byte of the key stream and the generator after it.
pub open spec fn next_byte_spec<C: Cipher>(c: C) -> (u8, C) {
    bits_into_byte(c, 8, |s: C| s.output_bit(), |s: C| s.stepped())
}

/// The first `n` bytes of the key stream and the generator after them.
pub open spec fn keystream<C: Cipher>(c: C, n: nat) -> (Seq<u8>, C)
    decreases n,
{
    if n == 0 {
        (Seq::empty(), c)
    } else {
        let (ks, d) = keystream(c, (n - 1) as nat);
        let (b, e) = next_byte_spec(d);
        (ks.push(b), e)
    }
}

/// The bytes XOR-ed position by position.
pub open spec fn xor_bytes(data: Seq<u8>, key: Seq<u8>) -> Seq<u8> {
    Seq::new(data.len(), |i: int| data[i] ^ key[i])
}

/// A Fibonacci linear feedback shift register of `size` bits. Bit `i` of
/// `mask` says whether bit `i` of the register feeds back; the output is the
/// top bit of the register.
pub struct LFSR {
    pub register: u64,
    pub mask: u64,
    pub size: i32,
}

/// The XOR of the register bits `0..n` that the mask selects.
pub open spec fn feedback(register: u64, mask: u64, n: i32) -> u64
    decreases n,
{
    if n <= 0 {
        0
    } else {
        let i = (n - 1) as i32;
        let f = feedback(register, mask, i);
        if (mask >> i) & 1 == 1 {
            f ^ ((register >> i) & 1)
        } else {
            f
        }
    }
}

impl LFSR {
    /// The register after one step: shifted left by one, the feedback bit
    /// entering at the bottom, cut to `size` bits.
    pub open spec fn next_register(&self) -> u64 {
        (((self.register & (u64::MAX >> 1u64)) << 1u64) | feedback(
            self.register,
            self.mask,
            self.size,
        )) & (((1u64 << self.size) - 1) as u64)
    }
}

impl Cipher for LFSR {
    /// The register has between 1 and 63 bits.
    open spec fn can_step(&self) -> bool {
        1 <= self.size <= 63
    }

    /// The top bit of the register.
    open spec fn output_bit(&self) -> i32 {
        ((self.register >> ((self.size - 1) as i32)) & 1) as i32
    }

    open spec fn stepped(&self) -> LFSR {
        LFSR { register: self.next_register(), mask: self.mask, size: self.size }
    }

    /// Outputs the top bit of the register, then shifts the feedback bit in.
    fn next(&mut self) -> (bit: i32) {
        let reg = self.register;
        let output_bit = ((reg >> (self.size - 1)) & 1) as i32;
        let mut feedback_bit: u64 = 0;
        for i in 0..self.size
            invariant
                1 <= self.size <= 63,
                reg == self.register,
                feedback_bit == feedback(reg, self.mask, i),
        {
            if (self.mask >> i) & 1 == 1 {
                feedback_bit ^= (reg >> i) & 1;
            }
        }
        let size = self.size;
        let s64 = size as u64;
        assert((1u64 << s64) >= 1u64) by (bit_vector)
            requires
                1 <= s64 <= 63,
        ;
        assert((1u64 << size) == (1u64 << s64));
        let shifted = (reg & (u64::MAX >> 1u64)) << 1u64;
        let new_reg = (shifted | feedback_bit) & ((1u64 << self.size) - 1);
        self.register = new_reg;
        output_bit
    }
}

impl Default for LFSR {
    /// A 30-bit register filled with ones and the feedback polynomial
    /// `x^30 + x^16 + x^15 + x + 1`.
    fn default() -> (r: LFSR)
        ensures
            r.register == 0x3FFF_FFFF,
            r.mask == 0x2000_C001,
            r.size == 30,
    {
        LFSR { register: 0b0011_1111_1111_1111_1111_1111_1111_1111, mask: 0b0010_0000_0000_0000_1100_0000_0000_0001, size: 30 }
    }
}

impl Clone for LFSR {
    /// A register with the same state.
    fn clone(&self) -> (r: LFSR)
        ensures
            r == *self,
    {
        LFSR { register: self.register, mask: self.mask, size: self.size }
    }
}

/// Encrypts (or, the same, decrypts) bytes with the key stream of `lfsr`:
/// returns the data XOR-ed with the key stream, and the key stream itself.
pub fn apply_keystream(lfsr: &mut LFSR, data: &[u8]) -> (res: (Vec<u8>, Vec<u8>))
    requires
        old(lfsr).can_step(),
    ensures
        (res.1@, *final(lfsr)) == keystream(*old(lfsr), data@.len()),
        res.0@ == xor_bytes(data@, res.1@),
        final(lfsr).can_step(),
        res.0@.len() == data@.len(),
        res.1@.len() == data@.len(),
        forall|i: int| 0 <= i < data@.len() ==> #[trigger] res.0@[i] == data@[i] ^ res.1@[i],
{
    let ghost start = *lfsr;
    let mut out: Vec<u8> = Vec::new();
    let mut key: Vec<u8> = Vec::new();
    for i in 0..data.len()
        invariant
            lfsr.can_step(),
            (key@, *lfsr) == keystream(start, i as nat),
            out@.len() == i,
            key@.len() == i,
            forall|j: int| 0 <= j < i ==> out@[j] == data@[j] ^ key@[j],
    {
        let k = lfsr.next_byte();
        key.push(k);
        out.push(data[i] ^ k);
    }
    proof {
        assert(out@ =~= xor_bytes(data@, key@));
    }
    (out, key)
}

/// The stream cipher works byte by byte: byte `i` of the output is byte `i`
/// of the data XOR-ed with byte `i` of the key stream, and nothing else.
pub proof fn lemma_xor_bytes_pointwise(data: Seq<u8>, key: Seq<u8>)
    ensures
        xor_bytes(data, key).len() == data.len(),
        forall|i: int| 0 <= i < data.len() ==> #[trigger] xor_bytes(data, key)[i] == data[i] ^ key[i],
{
}

/// The key stream has the requested length.
pub proof fn lemma_keystream_len<C: Cipher>(c: C, n: nat)
    ensures
        keystream(c, n).0.len() == n,
    decreases n,
{
    if n > 0 {
        lemma_keystream_len(c, (n - 1) as nat);
    }
}

/// Stream cipher involution: XOR-ing data twice with the key stream from the
/// same generator state gives the data back, so encrypting and decrypting are
/// the same operation.
pub proof fn lemma_keystream_involution<C: Cipher>(c: C, data: Seq<u8>)
    ensures
        xor_bytes(xor_bytes(data, keystream(c, data.len()).0), keystream(c, data.len()).0) == data,
{
    let ks = keystream(c, data.len()).0;
    lemma_keystream_len(c, data.len());
    assert forall|i: int| 0 <= i < data.len() implies xor_bytes(xor_bytes(data, ks), ks)[i]
        == data[i] by {
        let d = data[i];
        let k = ks[i];
        assert((d ^ k) ^ k == d) by (bit_vector);
    }
    assert(xor_bytes(xor_bytes(data, ks), ks) =~= data);
}

/// The key stream continues where it left off: `n + m` bytes are `n` bytes
/// followed by `m` bytes from the state after them. Processing data in
/// chunks with one register therefore gives the same result as in one go.
pub proof fn lemma_keystream_split<C: Cipher>(c: C, n: nat, m: nat)
    ensures
        keystream(c, n + m).0 == keystream(c, n).0 + keystream(keystream(c, n).1, m).0,
        keystream(c, n + m).1 == keystream(keystream(c, n).1, m).1,
    decreases m,
{
    if m > 0 {
        lemma_keystream_split(c, n, (m - 1) as nat);
        let a = keystream(c, n).0;
        let b = keystream(keystream(c, n).1, (m - 1) as nat).0;
        let (byte, _) = next_byte_spec(keystream(c, (n + m - 1) as nat).1);
        assert((a + b).push(byte) =~= a + b.push(byte));
    } else {
        assert(keystream(c, n).0 + Seq::<u8>::empty() =~= keystream(c, n).0);
    }
}

/// Every step keeps the register within `size` bits, and every output bit
/// is 0 or 1.
pub proof fn lemma_register_stays_in_size(l: LFSR)
    requires
        l.can_step(),
    ensures
        l.stepped().register <= ((1u64 << l.size) - 1) as u64,
        l.output_bit() == 0 || l.output_bit() == 1,
        l.stepped().size == l.size && l.stepped().mask == l.mask,
{
    let x = (((l.register & (u64::MAX >> 1u64)) << 1u64) | feedback(l.register, l.mask, l.size));
    let m = ((1u64 << l.size) - 1) as u64;
    assert(x & m <= m) by (bit_vector);
    let r = l.register;
    let s = (l.size - 1) as u64;
    assert((r >> s) & 1 <= 1) by (bit_vector);
    assert((r >> ((l.size - 1) as i32)) == (r >> s));
}

/// Bit `i` of `x`, 0 or 1.
pub open spec fn bit_of(x: u64, i: nat) -> nat {
    ((x as nat) / pow2(i)) % 2
}

/// How many of the bit positions `0..n` are set in both `register` and `mask`.
pub open spec fn tapped_count(register: u64, mask: u64, n: nat) -> nat
    decreases n,
{
    if n == 0 {
        0
    } else {
        tapped_count(register, mask, (n - 1) as nat) + if bit_of(register, (n - 1) as nat) == 1
            && bit_of(mask, (n - 1) as nat) == 1 {
            1nat
        } else {
            0nat
        }
    }
}

/// Shifting right by `i` and keeping the lowest bit gives bit `i`.
proof fn lemma_shifted_bit(x: u64, i: i32)
    requires
        0 <= i < 64,
    ensures
        (x >> i) & 1 == bit_of(x, i as nat),
        (x >> i) & 1 <= 1,
{
    let u = i as u64;
    assert((x >> i) == (x >> u));
    lemma_u64_shr_is_div(x, u);
    let w = x >> u;
    assert(w & 1 == w % 2) by (bit_vector);
}

/// The feedback of the first `n` bits is the parity of the tapped set bits.
proof fn lemma_feedback_parity(register: u64, mask: u64, n: i32)
    requires
        0 <= n <= 64,
    ensures
        feedback(register, mask, n) == tapped_count(register, mask, n as nat) % 2,
    decreases n,
{
    if n > 0 {
        let i = (n - 1) as i32;
        lemma_feedback_parity(register, mask, i);
        lemma_shifted_bit(register, i);
        lemma_shifted_bit(mask, i);
        let f = feedback(register, mask, i);
        let b = (register >> i) & 1;
        if (mask >> i) & 1 == 1 {
            assert(f ^ b == (f + b) % 2) by (bit_vector)
                requires
                    f <= 1,
                    b <= 1,
            ;
        }
    }
}

/// One step of the register, for every register of 1 to 63 bits: the output
/// is the top bit, and the new register holds the old low `size - 1` bits
/// moved up by one, with the parity of the tapped bits (the bits set in both
/// the register and the mask) entering at the bottom, whatever the top bit was.
pub proof fn lemma_lfsr_step(l: LFSR)
    requires
        1 <= l.size <= 63,
    ensures
        l.output_bit() == bit_of(l.register, (l.size - 1) as nat),
        l.stepped().register == 2 * ((l.register as nat) % pow2((l.size - 1) as nat)) + tapped_count(
            l.register,
            l.mask,
            l.size as nat,
        ) % 2,
        l.stepped().mask == l.mask,
        l.stepped().size == l.size,
{
    let r = l.register;
    let s = l.size as u64;
    lemma_feedback_parity(r, l.mask, l.size);
    lemma_shifted_bit(r, (l.size - 1) as i32);
    let f = feedback(r, l.mask, l.size);
    assert(f <= 1);
    assert((1u64 << l.size) == (1u64 << s));
    assert(((((r & (u64::MAX >> 1u64)) << 1u64) | f) & ((1u64 << s) - 1) as u64) == ((r & ((1u64
        << (s - 1) as u64) - 1) as u64) << 1u64) + f) by (bit_vector)
        requires
            f <= 1,
            1 <= s <= 63,
    ;
    let k = (s - 1) as u64;
    vstd::bits::lemma_u64_pow2_no_overflow(k as nat);
    lemma_u64_shl_is_mul(1, k);
    assert(((1u64 << k) - 1) as u64 == low_bits_mask(k as nat) as u64);
    lemma_u64_low_bits_mask_is_mod(r, k as nat);
    let z = r & (low_bits_mask(k as nat) as u64);
    assert(z < pow2(k as nat));
    vstd::arithmetic::power2::lemma2_to64();
    vstd::arithmetic::power2::lemma2_to64_rest();
    if k < 62 {
        vstd::arithmetic::power2::lemma_pow2_strictly_increases(k as nat, 62);
    }
    lemma_u64_shl_is_mul(z, 1);
}

/// The register after `k` steps.
pub open spec fn lfsr_steps(l: LFSR, k: nat) -> LFSR
    decreases k,
{
    if k == 0 {
        l
    } else {
        lfsr_steps(l, (k - 1) as nat).stepped()
    }
}

/// Stepping keeps the register able to step, and every output bit is 0 or 1.
proof fn lemma_lfsr_steps(l: LFSR, k: nat)
    requires
        l.can_step(),
    ensures
        lfsr_steps(l, k).can_step(),
        lfsr_steps(l, k).size == l.size,
        lfsr_steps(l, k).mask == l.mask,
        lfsr_steps(l, k).output_bit() == 0 || lfsr_steps(l, k).output_bit() == 1,
    decreases k,
{
    if k > 0 {
        lemma_lfsr_steps(l, (k - 1) as nat);
    }
    lemma_register_stays_in_size(lfsr_steps(l, k));
}

/// Shifting `n` output bits into a byte: the state after is `n` steps on,
/// and bit `n - 1 - k` of the byte is the `k`-th output bit.
proof fn lemma_bits_into_byte_lfsr(l: LFSR, n: nat)
    requires
        l.can_step(),
        n <= 8,
    ensures
        bits_into_byte(l, n, |s: LFSR| s.output_bit(), |s: LFSR| s.stepped()).1 == lfsr_steps(l, n),
        forall|k: int|
            0 <= k < n ==> ((bits_into_byte(
                l,
                n,
                |s: LFSR| s.output_bit(),
                |s: LFSR| s.stepped(),
            ).0 >> ((n - 1 - k) as u8)) & 1u8) as i32 == #[trigger] lfsr_steps(l, k as nat).output_bit(),
    decreases n,
{
    if n > 0 {
        let m = (n - 1) as nat;
        lemma_bits_into_byte_lfsr(l, m);
        let (acc, d) = bits_into_byte(l, m, |s: LFSR| s.output_bit(), |s: LFSR| s.stepped());
        lemma_lfsr_steps(l, m);
        let b = d.output_bit() as u8;
        assert(b <= 1);
        let acc2 = (acc << 1u8) | b;
        assert(acc2 & 1u8 == b) by (bit_vector)
            requires
                b <= 1,
                acc2 == (acc << 1u8) | b,
        ;
        assert forall|k: int| 0 <= k < n implies ((acc2 >> ((n - 1 - k) as u8)) & 1u8) as i32
            == #[trigger] lfsr_steps(l, k as nat).output_bit() by {
            lemma_lfsr_steps(l, k as nat);
            if k < m {
                let j = (m - 1 - k) as u8;
                assert(j < 7);
                assert(((acc2 >> ((j + 1) as u8)) & 1u8) == ((acc >> j) & 1u8)) by (bit_vector)
                    requires
                        j < 7,
                        b <= 1,
                        acc2 == (acc << 1u8) | b,
                ;
                assert((n - 1 - k) as u8 == (j + 1) as u8);
            } else {
                assert((n - 1 - k) as u8 == 0u8);
                assert(acc2 >> 0u8 == acc2) by (bit_vector);
            }
        }
    }
}

/// A key byte is eight output bits, the first one most significant: bit
/// `7 - k` of the byte is the output of the register after `k` steps, and
/// the register ends eight steps on.
pub proof fn lemma_key_byte_bits(l: LFSR)
    requires
        l.can_step(),
    ensures
        next_byte_spec(l).1 == lfsr_steps(l, 8),
        forall|k: int|
            0 <= k < 8 ==> ((next_byte_spec(l).0 >> ((7 - k) as u8)) & 1u8) as i32
                == #[trigger] lfsr_steps(l, k as nat).output_bit(),
{
    lemma_bits_into_byte_lfsr(l, 8);
}

/// `a` steps and then `b` steps are `a + b` steps.
proof fn lemma_lfsr_steps_add(l: LFSR, a: nat, b: nat)
    ensures
        lfsr_steps(lfsr_steps(l, a), b) == lfsr_steps(l, a + b),
    decreases b,
{
    if b > 0 {
        lemma_lfsr_steps_add(l, a, (b - 1) as nat);
    }
}

/// The key stream in order: byte `i` is the key byte of the register after
/// `8 * i` steps, and after `n` bytes the register is `8 * n` steps on.
pub proof fn lemma_keystream_bytes(l: LFSR, n: nat)
    requires
        l.can_step(),
    ensures
        keystream(l, n).0.len() == n,
        keystream(l, n).1 == lfsr_steps(l, 8 * n),
        forall|i: int|
            0 <= i < n ==> #[trigger] keystream(l, n).0[i] == next_byte_spec(
                lfsr_steps(l, (8 * i) as nat),
            ).0,
    decreases n,
{
    if n > 0 {
        let m = (n - 1) as nat;
        lemma_keystream_bytes(l, m);
        let d = keystream(l, m).1;
        lemma_lfsr_steps(l, 8 * m);
        lemma_key_byte_bits(d);
        lemma_lfsr_steps_add(l, 8 * m, 8);
        assert(8 * m + 8 == 8 * n);
        let ks = keystream(l, n).0;
        assert forall|i: int| 0 <= i < n implies #[trigger] ks[i] == next_byte_spec(
            lfsr_steps(l, (8 * i) as nat),
        ).0 by {
            if i < m {
                assert(ks[i] == keystream(l, m).0[i]);
            }
        }
    }
}

} // verus!
