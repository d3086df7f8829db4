use crate::bits::{align_pad, 
    signed_seq, unary_seq, BitError,
    byte_seq, bytes_seq, field_seq, lemma_bytes_len, lemma_bytes_push, lemma_set_bit, lemma_zero_byte,
    nat_bit, BitOrder,
};
use vstd::arithmetic::power2::{lemma2_to64, lemma_pow2_adds, lemma_pow2_strictly_increases, pow2};
use vstd::prelude::*;

verus! {

/// Accumulates bits into bytes under one bit order; completed bytes are kept
/// in `out`, the bits of the byte in progress in `buffer`.
pub struct BitSink {
    out: Vec<u8>,
    buffer: u8,
    bits: u32,
    order: BitOrder,
}

impl BitSink {
    /// Each bit that was accepted since construction, in order.
    pub closed spec fn emitted(&self) -> Seq<bool> {
        bytes_seq(self.out@, self.order) + byte_seq(self.buffer, self.order).take(self.bits as int)
    }

    /// The bytes that were completed.
    pub closed spec fn flushed(&self) -> Seq<u8> {
        self.out@
    }

    pub closed spec fn bit_order(&self) -> BitOrder {
        self.order
    }

    /// The byte in progress holds fewer than eight bits, and no bit beyond them.
    pub closed spec fn wf(&self) -> bool {
        &&& self.bits < 8
        &&& forall|i: int| self.bits <= i < 8 ==> !#[trigger] byte_seq(self.buffer, self.order)[i]
    }

    /// Every completed byte holds eight emitted bits, the byte in progress the rest.
    pub proof fn lemma_flushed(&self)
        requires
            self.wf(),
        ensures
            bytes_seq(self.flushed(), self.bit_order()) == self.emitted().take(8 * self.flushed().len() as int),
            self.emitted().len() == 8 * self.flushed().len() + (self.emitted().len() % 8),
            self.emitted().len() % 8 < 8,
    {
        lemma_bytes_len(self.out@, self.order);
        assert(bytes_seq(self.out@, self.order) =~= self.emitted().take(8 * self.out@.len() as int));
        assert(self.emitted().len() == 8 * self.out@.len() + self.bits);
        assert((8 * self.out@.len() + self.bits) % 8 == self.bits) by (nonlinear_arith)
            requires
                self.bits < 8,
        ;
    }

    pub fn new(order: BitOrder) -> (r: Self)
        ensures
            r.wf(),
            r.emitted() == Seq::<bool>::empty(),
            r.flushed() == Seq::<u8>::empty(),
            r.bit_order() == order,
    {
        let r = BitSink { out: Vec::new(), buffer: 0, bits: 0, order };
        proof {
            lemma_zero_byte(order);
            assert(bytes_seq(r.out@, order) =~= Seq::<bool>::empty());
            assert(r.emitted() =~= Seq::<bool>::empty());
        }
        r
    }

    /// The completed bytes.
    pub fn bytes(&self) -> (r: &[u8])
        ensures
            r@ == self.flushed(),
    {
        self.out.as_slice()
    }

    pub fn byte_aligned(&self) -> (r: bool)
        requires
            self.wf(),
        ensures
            r == (self.emitted().len() % 8 == 0),
    {
        proof {
            self.lemma_flushed();
        }
        self.bits == 0
    }

    /// Appends one bit, completing a byte when it is the eighth.
    pub fn write_bit(&mut self, bit: bool)
        requires
            old(self).wf(),
        ensures
            final(self).wf(),
            final(self).bit_order() == old(self).bit_order(),
            final(self).emitted() == old(self).emitted().push(bit),
            final(self).flushed().len() >= old(self).flushed().len(),
            final(self).flushed().len() <= old(self).flushed().len() + 1,
            old(self).flushed() == final(self).flushed().take(old(self).flushed().len() as int),
    {
        let ghost old_buffer = self.buffer;
        let p: u8 = if self.order == BitOrder::MsbFirst { (7 - self.bits) as u8 } else { self.bits as u8 };
        if bit {
            self.buffer = self.buffer | (1u8 << p);
        }
        proof {
            assert forall|i: int| 0 <= i < 8 implies #[trigger] byte_seq(self.buffer, self.order)[i]
                == if i == old(self).bits { bit } else { byte_seq(old_buffer, self.order)[i] } by {
                if bit {
                    let j: u8 = (if self.order == BitOrder::MsbFirst { 7 - i } else { i }) as u8;
                    lemma_set_bit(old_buffer, p, j);
                }
            }
            assert(byte_seq(self.buffer, self.order).take(old(self).bits + 1) =~= byte_seq(
                old_buffer,
                self.order,
            ).take(old(self).bits as int).push(bit));
        }
        self.bits = self.bits + 1;
        if self.bits == 8 {
            let ghost full = self.buffer;
            let ghost old_out = self.out@;
            self.out.push(self.buffer);
            self.buffer = 0;
            self.bits = 0;
            proof {
                lemma_bytes_push(old_out, full, self.order);
                lemma_zero_byte(self.order);
                assert(byte_seq(full, self.order).take(8) =~= byte_seq(full, self.order));
                assert(byte_seq(0u8, self.order).take(0) =~= Seq::<bool>::empty());
                assert(self.emitted() =~= old(self).emitted().push(bit));
                assert(old_out =~= self.out@.take(old_out.len() as int));
            }
        } else {
            proof {
                assert(self.emitted() =~= old(self).emitted().push(bit));
                assert(self.out@ =~= self.out@.take(self.out@.len() as int));
            }
        }
    }

    /// Appends the low `bits` bits of `value`, in the order of this sink.
    fn write_field(&mut self, bits: u32, value: u64)
        requires
            old(self).wf(),
            bits <= 64,
        ensures
            final(self).wf(),
            final(self).bit_order() == old(self).bit_order(),
            final(self).emitted() == old(self).emitted() + field_seq(old(self).bit_order(), bits as nat, value as nat),
            old(self).flushed() == final(self).flushed().take(old(self).flushed().len() as int),
            final(self).flushed().len() >= old(self).flushed().len(),
    {
        let ghost field = field_seq(self.order, bits as nat, value as nat);
        let mut i: u32 = 0;
        while i < bits
            invariant
                self.wf(),
                self.bit_order() == old(self).bit_order(),
                i <= bits <= 64,
                field == field_seq(self.order, bits as nat, value as nat),
                self.emitted() == old(self).emitted() + field.take(i as int),
                old(self).flushed() == self.flushed().take(old(self).flushed().len() as int),
                self.flushed().len() >= old(self).flushed().len(),
            decreases bits - i,
        {
            let k: u32 = if self.order == BitOrder::MsbFirst { bits - 1 - i } else { i };
            let bit = (value >> k) % 2 == 1;
            proof {
                vstd::bits::lemma_u64_shr_is_div(value, k as u64);
                assert(bit == nat_bit(value as nat, k as nat));
                assert(bit == field[i as int]);
            }
            self.write_bit(bit);
            proof {
                assert(field.take(i + 1) =~= field.take(i as int).push(bit));
                assert(old(self).flushed() =~= self.flushed().take(old(self).flushed().len() as int));
            }
            i = i + 1;
        }
        proof {
            assert(field.take(bits as int) =~= field);
        }
    }

    /// Appends zero bits until the byte in progress is complete.
    pub fn byte_align(&mut self)
        requires
            old(self).wf(),
        ensures
            final(self).wf(),
            final(self).bit_order() == old(self).bit_order(),
            final(self).emitted().len() % 8 == 0,
            final(self).emitted() == old(self).emitted() + Seq::new(
                align_pad(old(self).emitted().len() as int) as nat,
                |i: int| false,
            ),
            old(self).flushed() == final(self).flushed().take(old(self).flushed().len() as int),
            bytes_seq(final(self).flushed(), final(self).bit_order()) == final(self).emitted(),
    {
        proof {
            self.lemma_flushed();
        }
        let ghost pad = align_pad(old(self).emitted().len() as int) as nat;
        let ghost start = self.emitted();
        proof {
            lemma_bytes_len(self.out@, self.order);
        }
        while self.bits != 0
            invariant
                old(self).wf(),
                self.wf(),
                self.bit_order() == old(self).bit_order(),
                start == old(self).emitted(),
                pad == align_pad(old(self).emitted().len() as int) as nat,
                old(self).bits == 0 ==> self.bits == 0 && self.emitted() == start,
                self.emitted().len() == 8 * self.flushed().len() + self.bits,
                old(self).bits != 0 ==> {
                    ||| self.bits == 0 && self.flushed().len() == old(self).flushed().len() + 1
                    ||| self.bits >= old(self).bits && self.flushed().len() == old(self).flushed().len()
                },
                self.emitted().len() >= start.len(),
                self.emitted().take(start.len() as int) == start,
                forall|j: int| start.len() <= j < self.emitted().len() ==> !#[trigger] self.emitted()[j],
                start.len() == 8 * old(self).flushed().len() + old(self).bits,
                old(self).flushed() == self.flushed().take(old(self).flushed().len() as int),
                self.flushed().len() >= old(self).flushed().len(),
            decreases 8 * (old(self).flushed().len() + 1) - self.emitted().len(),
        {
            let ghost prev = self.emitted();
            self.write_bit(false);
            proof {
                assert(self.emitted().take(start.len() as int) =~= prev.take(start.len() as int));
                lemma_bytes_len(self.out@, self.order);
            }
        }
        proof {
            self.lemma_flushed();
            assert(self.emitted().len() == start.len() + pad) by {
                let n = old(self).flushed().len();
                let b = old(self).bits;
                assert((8 * n + b) % 8 == b) by (nonlinear_arith)
                    requires
                        b < 8,
                ;
            }
            assert(self.emitted() =~= start + Seq::new(pad, |i: int| false));
            assert(self.emitted().take(8 * self.flushed().len() as int) =~= self.emitted());
            assert(self.flushed() =~= self.flushed().take(self.flushed().len() as int));
        }
    }

    /// Appends the low `bits` bits of `value`; more than 64 bits are refused.
    pub fn write(&mut self, bits: u32, value: u64) -> (r: Result<(), BitError>)
        requires
            old(self).wf(),
        ensures
            final(self).wf(),
            final(self).bit_order() == old(self).bit_order(),
            r.is_err() <==> bits > 64,
            r.is_err() ==> r == Err::<(), BitError>(BitError::InvalidArgument) && *final(self) == *old(self),
            r.is_ok() ==> final(self).emitted() == old(self).emitted() + field_seq(
                old(self).bit_order(),
                bits as nat,
                value as nat,
            ),
            old(self).flushed() == final(self).flushed().take(old(self).flushed().len() as int),
    {
        if bits > 64 {
            return Err(BitError::InvalidArgument);
        }
        self.write_field(bits, value);
        Ok(())
    }

    /// Appends a sign flag, then the magnitude of `value` in `bits - 1` bits:
    /// `value` itself when it is not negative, `value + 2^(bits - 1)` when it is.
    pub fn write_signed(&mut self, bits: u32, value: i64) -> (r: Result<(), BitError>)
        requires
            old(self).wf(),
        ensures
            final(self).wf(),
            final(self).bit_order() == old(self).bit_order(),
            r.is_err() <==> !(2 <= bits <= 64 && -pow2((bits - 1) as nat) <= value < pow2((bits - 1) as nat)),
            r.is_err() ==> r == Err::<(), BitError>(BitError::InvalidArgument) && *final(self) == *old(self),
            r.is_ok() ==> final(self).emitted() == old(self).emitted() + signed_seq(
                old(self).bit_order(),
                bits as nat,
                value as int,
            ),
            old(self).flushed() == final(self).flushed().take(old(self).flushed().len() as int),
    {
        if bits < 2 || bits > 64 {
            return Err(BitError::InvalidArgument);
        }
        proof {
            vstd::bits::lemma_u64_pow2_no_overflow((bits - 1) as nat);
            vstd::bits::lemma_u64_shl_is_mul(1, (bits - 1) as u64);
            lemma_pow2_adds((bits - 1) as nat, 1);
            lemma2_to64();
            if bits < 64 {
                lemma_pow2_strictly_increases(bits as nat, 64);
            }
        }
        let half: u64 = 1u64 << (bits - 1) as u64;
        let negative = value < 0;
        let magnitude: u64;
        if negative {
            if (value as i128) < -(half as i128) {
                return Err(BitError::InvalidArgument);
            }
            magnitude = (value as i128 + half as i128) as u64;
        } else {
            if value as u64 >= half {
                return Err(BitError::InvalidArgument);
            }
            magnitude = value as u64;
        }
        let ghost start = self.emitted();
        self.write_bit(negative);
        self.write_field(bits - 1, magnitude);
        proof {
            assert(self.emitted() =~= start + signed_seq(self.order, bits as nat, value as int));
            assert(old(self).flushed() =~= self.flushed().take(old(self).flushed().len() as int));
        }
        Ok(())
    }

    /// Appends `n` copies of `b` and one `!b`.
    fn write_unary(&mut self, n: u32, b: bool)
        requires
            old(self).wf(),
        ensures
            final(self).wf(),
            final(self).bit_order() == old(self).bit_order(),
            final(self).emitted() == old(self).emitted() + unary_seq(n as nat, b),
            old(self).flushed() == final(self).flushed().take(old(self).flushed().len() as int),
    {
        let mut i: u32 = 0;
        while i < n
            invariant
                self.wf(),
                self.bit_order() == old(self).bit_order(),
                i <= n,
                self.emitted() == old(self).emitted() + unary_seq(n as nat, b).take(i as int),
                old(self).flushed() == self.flushed().take(old(self).flushed().len() as int),
                self.flushed().len() >= old(self).flushed().len(),
            decreases n - i,
        {
            self.write_bit(b);
            proof {
                assert(unary_seq(n as nat, b).take(i + 1) =~= unary_seq(n as nat, b).take(i as int).push(b));
                assert(old(self).flushed() =~= self.flushed().take(old(self).flushed().len() as int));
            }
            i = i + 1;
        }
        self.write_bit(!b);
        proof {
            assert(unary_seq(n as nat, b) =~= unary_seq(n as nat, b).take(n as int).push(!b));
            assert(old(self).flushed() =~= self.flushed().take(old(self).flushed().len() as int));
        }
    }

    /// Appends `n` 1 bits and a 0 bit that ends them.
    pub fn write_unary0(&mut self, n: u32)
        requires
            old(self).wf(),
        ensures
            final(self).wf(),
            final(self).bit_order() == old(self).bit_order(),
            final(self).emitted() == old(self).emitted() + unary_seq(n as nat, true),
            old(self).flushed() == final(self).flushed().take(old(self).flushed().len() as int),
    {
        self.write_unary(n, true);
    }

    /// Appends `n` 0 bits and a 1 bit that ends them.
    pub fn write_unary1(&mut self, n: u32)
        requires
            old(self).wf(),
        ensures
            final(self).wf(),
            final(self).bit_order() == old(self).bit_order(),
            final(self).emitted() == old(self).emitted() + unary_seq(n as nat, false),
            old(self).flushed() == final(self).flushed().take(old(self).flushed().len() as int),
    {
        self.write_unary(n, false);
    }

    /// Appends the eight bits of `byte` in this sink's order.
    fn write_byte(&mut self, byte: u8)
        requires
            old(self).wf(),
        ensures
            final(self).wf(),
            final(self).bit_order() == old(self).bit_order(),
            final(self).emitted() == old(self).emitted() + byte_seq(byte, old(self).bit_order()),
            old(self).flushed() == final(self).flushed().take(old(self).flushed().len() as int),
            final(self).flushed().len() >= old(self).flushed().len(),
    {
        if self.bits == 0 {
            let ghost old_out = self.out@;
            self.out.push(byte);
            proof {
                lemma_bytes_push(old_out, byte, self.order);
                assert(byte_seq(self.buffer, self.order).take(0) =~= Seq::<bool>::empty());
                assert(self.emitted() =~= old(self).emitted() + byte_seq(byte, self.order));
                assert(old_out =~= self.out@.take(old_out.len() as int));
            }
            return;
        }
        let ghost bs = byte_seq(byte, self.order);
        let mut j: u8 = 0;
        while j < 8
            invariant
                self.wf(),
                self.bit_order() == old(self).bit_order(),
                j <= 8,
                bs == byte_seq(byte, self.order),
                self.emitted() == old(self).emitted() + bs.take(j as int),
                old(self).flushed() == self.flushed().take(old(self).flushed().len() as int),
                self.flushed().len() >= old(self).flushed().len(),
            decreases 8 - j,
        {
            let p: u8 = if self.order == BitOrder::MsbFirst { 7 - j } else { j };
            let bit = (byte >> p) & 1u8 == 1u8;
            assert(bit == bs[j as int]);
            self.write_bit(bit);
            proof {
                assert(bs.take(j + 1) =~= bs.take(j as int).push(bit));
                assert(old(self).flushed() =~= self.flushed().take(old(self).flushed().len() as int));
            }
            j = j + 1;
        }
        proof {
            assert(bs.take(8) =~= bs);
        }
    }

    /// Appends the bits of each byte of `buf`, byte after byte.
    pub fn write_bytes(&mut self, buf: &[u8])
        requires
            old(self).wf(),
        ensures
            final(self).wf(),
            final(self).bit_order() == old(self).bit_order(),
            final(self).emitted() == old(self).emitted() + bytes_seq(buf@, old(self).bit_order()),
            old(self).flushed() == final(self).flushed().take(old(self).flushed().len() as int),
    {
        let mut k: usize = 0;
        proof {
            assert(buf@.take(0) =~= Seq::<u8>::empty());
            assert(bytes_seq(Seq::<u8>::empty(), self.order) =~= Seq::<bool>::empty());
            assert(self.emitted() =~= old(self).emitted() + Seq::<bool>::empty());
            assert(self.out@ =~= self.out@.take(self.out@.len() as int));
        }
        while k < buf.len()
            invariant
                self.wf(),
                self.bit_order() == old(self).bit_order(),
                k <= buf@.len(),
                self.emitted() == old(self).emitted() + bytes_seq(buf@.take(k as int), self.order),
                old(self).flushed() == self.flushed().take(old(self).flushed().len() as int),
                self.flushed().len() >= old(self).flushed().len(),
            decreases buf@.len() - k,
        {
            self.write_byte(buf[k]);
            proof {
                assert(buf@.take(k + 1) =~= buf@.take(k as int).push(buf@[k as int]));
                lemma_bytes_push(buf@.take(k as int), buf@[k as int], self.order);
                assert(old(self).flushed() =~= self.flushed().take(old(self).flushed().len() as int));
            }
            k = k + 1;
        }
        proof {
            assert(buf@.take(buf@.len() as int) =~= buf@);
        }
    }
}

} // verus!
