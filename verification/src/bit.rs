//! Reading a byte source bit by bit.

use crate::error::Error;
use crate::source::ByteSource;
use vstd::arithmetic::div_mod::lemma_fundamental_div_mod_converse;
use vstd::arithmetic::power2::{lemma2_to64, lemma_pow2_pos, lemma_pow2_unfold, pow2};
use vstd::bits::{lemma_u16_shl_is_mul, lemma_u16_shr_is_div};
use vstd::prelude::*;

verus! {

/// The number of bits that `data` holds.
pub open spec fn bit_count(data: Seq<u8>) -> nat {
    8 * data.len()
}

/// Bit `i` of `data`, as 0 or 1. The bits of a byte are numbered from its least
/// significant bit, and the bits of byte `k` are those from `8 * k` on.
pub open spec fn bit_at(data: Seq<u8>, i: nat) -> nat {
    (data[(i / 8) as int] as nat / pow2(i % 8)) % 2
}

/// The integer that the `n` bits from `pos` on spell when the first of them is the least
/// significant.
pub open spec fn bits_value(data: Seq<u8>, pos: nat, n: nat) -> nat
    decreases n,
{
    if n == 0 {
        0
    } else {
        bit_at(data, pos) + 2 * bits_value(data, pos + 1, (n - 1) as nat)
    }
}

/// The integer that the `n` bits from `pos` on spell when the first of them is the most
/// significant: the order in which prefix codes are packed.
pub open spec fn code_value(data: Seq<u8>, pos: nat, n: nat) -> nat
    decreases n,
{
    if n == 0 {
        0
    } else {
        2 * code_value(data, pos, (n - 1) as nat) + bit_at(data, (pos + n - 1) as nat)
    }
}

/// `n` bits spell a number below `2^n`.
pub proof fn lemma_bits_value_bound(data: Seq<u8>, pos: nat, n: nat)
    ensures
        bits_value(data, pos, n) < pow2(n),
    decreases n,
{
    if n == 0 {
        lemma2_to64();
    } else {
        lemma_bits_value_bound(data, pos + 1, (n - 1) as nat);
        lemma_pow2_unfold(n);
    }
}

/// `n` bits taken as a code spell a number below `2^n`.
pub proof fn lemma_code_value_bound(data: Seq<u8>, pos: nat, n: nat)
    ensures
        code_value(data, pos, n) < pow2(n),
    decreases n,
{
    if n == 0 {
        lemma2_to64();
    } else {
        lemma_code_value_bound(data, pos, (n - 1) as nat);
        lemma_pow2_unfold(n);
    }
}

/// The value of `a + b` bits is the value of the first `a` plus `2^a` times the value of
/// the `b` that follow.
pub proof fn lemma_bits_value_split(data: Seq<u8>, pos: nat, a: nat, b: nat)
    ensures
        bits_value(data, pos, a + b) == bits_value(data, pos, a) + pow2(a) * bits_value(
            data,
            pos + a,
            b,
        ),
    decreases a,
{
    if a == 0 {
        lemma2_to64();
    } else {
        lemma_bits_value_split(data, pos + 1, (a - 1) as nat, b);
        lemma_pow2_unfold(a);
        let x = bits_value(data, pos + 1, (a - 1) as nat);
        let y = bits_value(data, pos + a, b);
        let p = pow2((a - 1) as nat);
        assert(2 * (x + p * y) == 2 * x + (2 * p) * y) by (nonlinear_arith);
        assert((a - 1 + b) as nat == (a + b - 1) as nat);
    }
}

/// The eight bits of a byte spell the byte.
pub proof fn lemma_bits_value_byte(data: Seq<u8>, k: nat)
    requires
        k < data.len(),
    ensures
        bits_value(data, 8 * k, 8) == data[k as int],
{
    reveal_with_fuel(bits_value, 9);
    lemma2_to64();
    let x: u32 = data[k as int] as u32;
    assert(x == (x / 1) % 2 + 2 * ((x / 2) % 2) + 4 * ((x / 4) % 2) + 8 * ((x / 8) % 2) + 16 * ((x
        / 16) % 2) + 32 * ((x / 32) % 2) + 64 * ((x / 64) % 2) + 128 * ((x / 128) % 2))
        by (bit_vector)
        requires
            x < 256,
    ;
    assert forall|j: nat| j < 8 implies #[trigger] bit_at(data, 8 * k + j) == (x as nat / pow2(j))
        % 2 by {
        assert((8 * k + j) / 8 == k);
        assert((8 * k + j) % 8 == j);
    }
    assert(bit_at(data, 8 * k + 0) == (x as nat / 1) % 2);
    assert(bit_at(data, 8 * k + 1) == (x as nat / 2) % 2);
    assert(bit_at(data, 8 * k + 2) == (x as nat / 4) % 2);
    assert(bit_at(data, 8 * k + 3) == (x as nat / 8) % 2);
    assert(bit_at(data, 8 * k + 4) == (x as nat / 16) % 2);
    assert(bit_at(data, 8 * k + 5) == (x as nat / 32) % 2);
    assert(bit_at(data, 8 * k + 6) == (x as nat / 64) % 2);
    assert(bit_at(data, 8 * k + 7) == (x as nat / 128) % 2);
}

/// One more bit at the end of a code doubles its value and adds the bit.
pub proof fn lemma_code_value_step(data: Seq<u8>, pos: nat, n: nat)
    ensures
        code_value(data, pos, n + 1) == 2 * code_value(data, pos, n) + bits_value(
            data,
            pos + n,
            1,
        ),
{
    reveal_with_fuel(bits_value, 2);
    assert((n + 1 - 1) as nat == n);
}

/// Bits that lie within `data` have the same value when more bytes follow `data`.
pub proof fn lemma_bits_value_prefix(data: Seq<u8>, more: Seq<u8>, pos: nat, n: nat)
    requires
        pos + n <= bit_count(data),
    ensures
        bits_value(data + more, pos, n) == bits_value(data, pos, n),
    decreases n,
{
    if n > 0 {
        lemma_bits_value_prefix(data, more, pos + 1, (n - 1) as nat);
        assert((data + more)[(pos / 8) as int] == data[(pos / 8) as int]);
    }
}

/// A code that lies within `data` has the same value when more bytes follow `data`.
pub proof fn lemma_code_value_prefix(data: Seq<u8>, more: Seq<u8>, pos: nat, n: nat)
    requires
        pos + n <= bit_count(data),
    ensures
        code_value(data + more, pos, n) == code_value(data, pos, n),
    decreases n,
{
    if n > 0 {
        lemma_code_value_prefix(data, more, pos, (n - 1) as nat);
        let last = (pos + n - 1) as nat;
        assert((data + more)[(last / 8) as int] == data[(last / 8) as int]);
    }
}

/// The first `short` bits of a code spell its value without the bits behind them.
pub proof fn lemma_code_value_front(data: Seq<u8>, pos: nat, short: nat, long: nat)
    requires
        short <= long,
    ensures
        code_value(data, pos, short) == code_value(data, pos, long) / pow2((long - short) as nat),
    decreases long - short,
{
    lemma2_to64();
    if short < long {
        let gap = (long - 1 - short) as nat;
        lemma_code_value_front(data, pos, short, (long - 1) as nat);
        assert((long - short) as nat == gap + 1);
        lemma_pow2_unfold(gap + 1);
        let p = pow2(gap);
        lemma_pow2_pos(gap);
        let whole = code_value(data, pos, long);
        let less = code_value(data, pos, (long - 1) as nat);
        let bit = bit_at(data, (pos + long - 1) as nat);
        assert(whole == 2 * less + bit);
        assert(bit <= 1);
        assert(whole / 2 == less);
        assert(pow2(gap + 1) == 2 * p);
        assert(whole / (2 * p) == (whole / 2) / p) by (nonlinear_arith)
            requires
                p > 0,
        ;
        assert(code_value(data, pos, short) == less / p);
    } else {
        assert(pow2((long - short) as nat) == 1);
    }
}

/// A place in a stream, to which a bit reader can go back.
#[derive(Clone, Copy)]
pub struct BitMark {
    /// Where the byte source stood.
    offset: usize,
    /// The bits that the reader held.
    data: u16,
    /// How many they were.
    bits: u8,
    /// The bit position of the place.
    at: Ghost<nat>,
}

impl BitMark {
    /// The bit position of the place.
    pub closed spec fn bit_position(self) -> nat {
        self.at@
    }

    /// The mark was taken in the stream of which `bytes` have arrived and all but
    /// `origin` are kept.
    pub closed spec fn taken_in(self, bytes: Seq<u8>, origin: nat) -> bool {
        &&& self.bits <= 7
        &&& origin + self.offset <= bytes.len()
        &&& self.bits <= 8 * (origin + self.offset)
        &&& self.at@ == 8 * (origin + self.offset) - self.bits
        &&& self.data as nat == bits_value(bytes, self.at@, self.bits as nat)
    }
}

/// Reads some data bit per bit.
pub struct BitRead {
    /// The source that the bytes are read from.
    inner: ByteSource,
    /// The bits that were taken from the source and not handed out yet, the next one lowest.
    data: u16,
    /// Number of bits held in `data`.
    bits: u8,
}

impl BitRead {
    /// All the bytes of the underlying source.
    pub closed spec fn bytes(&self) -> Seq<u8> {
        self.inner.bytes()
    }

    /// The number of bits already handed out.
    pub closed spec fn bit_position(&self) -> nat {
        (8 * self.inner.position() - self.bits) as nat
    }

    /// The number of bits taken from the source and not handed out yet.
    pub closed spec fn buffered(&self) -> nat {
        self.bits as nat
    }

    /// Whether the whole stream has arrived.
    pub closed spec fn complete(&self) -> bool {
        self.inner.complete()
    }

    /// The number of bytes at the front of the stream that are not kept any more.
    pub closed spec fn origin(&self) -> nat {
        self.inner.origin()
    }

    /// Both read the same stream, of which the same bytes have arrived and are kept.
    pub open spec fn same_stream(self, other: BitRead) -> bool {
        &&& self.bytes() == other.bytes()
        &&& self.origin() == other.origin()
        &&& self.complete() == other.complete()
    }

    /// The buffer holds the bits between the bit position and the source's position.
    pub closed spec fn loaded(&self) -> bool {
        &&& self.inner.wf()
        &&& self.bits <= 15
        &&& self.bits <= 8 * self.inner.position()
        &&& self.data as nat == bits_value(self.bytes(), self.bit_position(), self.bits as nat)
    }

    /// Between two calls the buffer holds less than a byte.
    pub open spec fn wf(&self) -> bool {
        &&& self.loaded()
        &&& self.buffered() <= 7
    }

    /// The bit position never passes the end of the data, and what is buffered reaches to
    /// the next byte boundary.
    pub proof fn lemma_position(&self)
        requires
            self.loaded(),
        ensures
            self.bit_position() <= bit_count(self.bytes()),
            (self.bit_position() + self.buffered()) % 8 == 0,
            self.bit_position() + self.buffered() <= bit_count(self.bytes()),
    {
    }

    /// A bit reader that starts at the read position of `inner`.
    pub fn new(inner: ByteSource) -> (reader: BitRead)
        requires
            inner.wf(),
        ensures
            reader.wf(),
            reader.buffered() == 0,
            reader.bytes() == inner.bytes(),
            reader.origin() == inner.origin(),
            reader.complete() == inner.complete(),
            reader.bit_position() == 8 * inner.position(),
    {
        BitRead { inner: inner, data: 0, bits: 0 }
    }

    /// Whether the whole stream has arrived.
    pub fn is_complete(&self) -> (complete: bool)
        ensures
            complete == self.complete(),
    {
        self.inner.is_complete()
    }

    /// Says that the whole stream has arrived.
    pub fn finish(&mut self)
        requires
            old(self).wf(),
        ensures
            final(self).wf(),
            final(self).complete(),
            final(self).bytes() == old(self).bytes(),
            final(self).bit_position() == old(self).bit_position(),
    {
        self.inner.finish();
    }

    /// Takes the next bytes of the stream as they arrive.
    pub fn feed(&mut self, more: &[u8])
        requires
            old(self).wf(),
        ensures
            final(self).wf(),
            final(self).bytes() == old(self).bytes() + more@,
            final(self).bit_position() == old(self).bit_position(),
            final(self).complete() == old(self).complete(),
    {
        proof {
            lemma_bits_value_prefix(
                self.bytes(),
                more@,
                self.bit_position(),
                self.bits as nat,
            );
        }
        self.inner.push(more);
    }

    /// Marks the place where the reader stands.
    pub fn mark(&self) -> (mark: BitMark)
        requires
            self.wf(),
        ensures
            mark.taken_in(self.bytes(), self.origin()),
            mark.bit_position() == self.bit_position(),
    {
        BitMark {
            offset: self.inner.offset(),
            data: self.data,
            bits: self.bits,
            at: Ghost(self.bit_position()),
        }
    }

    /// Goes back to a place that was marked in the same stream.
    pub fn rewind(&mut self, mark: BitMark)
        requires
            mark.taken_in(old(self).bytes(), old(self).origin()),
        ensures
            final(self).wf(),
            final(self).same_stream(*old(self)),
            final(self).bit_position() == mark.bit_position(),
    {
        self.inner.seek(mark.offset);
        self.data = mark.data;
        self.bits = mark.bits;
    }

    /// Reads some bits.
    ///
    /// The result holds the next `bits` bits, the first of them lowest. If the source ends
    /// before that many bits, the error is `UnexpectedEofInBits`.
    ///
    /// **Warning**: reading two bits can be different from reading one bit then one bit.
    /// For example, if the data is `0b10`, then reading one bit then one bit would give `0`
    /// then `1`, while reading two bits would give `0b10`.
    pub fn read(&mut self, bits: u8) -> (result: Result<u8, Error>)
        requires
            old(self).wf(),
            bits <= 8,
        ensures
            final(self).wf(),
            final(self).same_stream(*old(self)),
            match result {
                Ok(value) => {
                    &&& old(self).bit_position() + bits <= bit_count(old(self).bytes())
                    &&& value == bits_value(
                        old(self).bytes(),
                        old(self).bit_position(),
                        bits as nat,
                    )
                    &&& final(self).bit_position() == old(self).bit_position() + bits
                },
                Err(e) => {
                    &&& e == Error::UnexpectedEofInBits
                    &&& old(self).bit_position() + bits > bit_count(old(self).bytes())
                    &&& final(self).bit_position() == old(self).bit_position()
                },
            },
    {
        if bits > self.bits {
            // making sure that there is enough data in `data`
            match self.inner.next_byte() {
                None => {
                    return Err(Error::UnexpectedEofInBits);
                },
                Some(byte) => {
                    let ghost pos = old(self).bit_position();
                    let ghost held = old(self).bits as nat;
                    let held_bits = self.bits;
                    let data = self.data;
                    proof {
                        let k = old(self).inner.position();
                        lemma_bits_value_split(self.bytes(), pos, held, 8);
                        lemma_bits_value_byte(self.bytes(), k);
                        lemma_bits_value_bound(self.bytes(), pos, held);
                        lemma2_to64();
                        assert(byte as nat * pow2(held) <= 255 * 128) by (nonlinear_arith)
                            requires
                                byte <= 255,
                                pow2(held) <= 128,
                        ;
                        lemma_u16_shl_is_mul(byte as u16, held_bits as u16);
                        lemma_u16_shl_is_mul(1u16, held_bits as u16);
                        let shifted = (byte as u16) << (held_bits as u16);
                        let limit = 1u16 << (held_bits as u16);
                        assert(data | shifted == data + shifted) by (bit_vector)
                            requires
                                held_bits <= 7,
                                data < limit,
                                limit == 1u16 << (held_bits as u16),
                                shifted == (byte as u16) << (held_bits as u16),
                        ;
                        assert(pow2(held) * (byte as nat) == (byte as nat) * pow2(held))
                            by (nonlinear_arith);
                    }
                    self.data = self.data | ((byte as u16) << (self.bits as u16));
                    self.bits = self.bits + 8;
                },
            }
        }
        Ok(self.read_from_cache(bits))
    }

    /// Aligns to the next byte and returns the wrapper reader.
    ///
    /// The bits of the current byte that were not read are dropped: the source stands at
    /// the first byte boundary at or after the bit position.
    pub fn byte_align_unwrap(self) -> (inner: ByteSource)
        requires
            self.wf(),
        ensures
            inner.wf(),
            inner.bytes() == self.bytes(),
            inner.origin() == self.origin(),
            inner.complete() == self.complete(),
            inner.position() == (self.bit_position() + 7) / 8,
    {
        self.inner
    }

    /// Reads a number of bits from the buffer.
    ///
    /// `bits` may not be more than what the buffer holds.
    pub fn read_from_cache(&mut self, bits: u8) -> (value: u8)
        requires
            old(self).loaded(),
            bits <= 8,
            bits <= old(self).buffered(),
            old(self).buffered() - bits <= 7,
        ensures
            final(self).wf(),
            final(self).same_stream(*old(self)),
            final(self).bit_position() == old(self).bit_position() + bits,
            final(self).buffered() == old(self).buffered() - bits,
            value == bits_value(old(self).bytes(), old(self).bit_position(), bits as nat),
    {
        let data = self.data;
        let held = self.bits;
        assert((1u16 << (bits as u16)) >= 1) by (bit_vector)
            requires
                bits <= 8,
        ;
        let result = data & ((1u16 << (bits as u16)) - 1);
        proof {
            let pos = self.bit_position();
            let n = bits as nat;
            let lo = bits_value(self.bytes(), pos, n);
            let hi = bits_value(self.bytes(), pos + n, (held - bits) as nat);
            lemma_bits_value_split(self.bytes(), pos, n, (held - bits) as nat);
            lemma_bits_value_bound(self.bytes(), pos, n);
            lemma2_to64();
            lemma_pow2_pos(n);
            lemma_u16_shl_is_mul(1u16, bits as u16);
            lemma_u16_shr_is_div(data, bits as u16);
            let p = 1u16 << (bits as u16);
            assert(data & ((p - 1) as u16) == data % p) by (bit_vector)
                requires
                    bits <= 8,
                    p == 1u16 << (bits as u16),
            ;
            assert(data as int == hi * pow2(n) + lo) by (nonlinear_arith)
                requires
                    data as int == lo + pow2(n) * hi,
            ;
            lemma_fundamental_div_mod_converse(data as int, pow2(n) as int, hi as int, lo as int);
        }
        self.data = self.data >> (bits as u16);
        self.bits = self.bits - bits;
        result as u8
    }
}

} // verus!
