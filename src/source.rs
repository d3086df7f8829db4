use crate::bits::{align_pad, 
    byte_seq, bytes_seq, field_value, lemma_bytes_len, lemma_field_value_bound, lemma_set_bit,
    lemma_bytes_push, lemma_zero_byte, signed_value, unary_seq, BitError, BitOrder,
};
use vstd::arithmetic::power2::{lemma2_to64, lemma_pow2_adds, lemma_pow2_strictly_increases, pow2};
use vstd::prelude::*;

verus! {

/// A byte source of `n` bytes has a bit count that fits in a `u64`.
pub open spec fn source_fits(n: int) -> bool {
    n <= 0x1FFF_FFFF_FFFF_FFFF
}

/// Pulls bits out of a byte slice under one bit order. The byte in progress
/// sits in `buffer`, of which the last `bits` bits in reading order are unread.
pub struct BitSource<'a> {
    data: &'a [u8],
    pos: usize,
    buffer: u8,
    bits: u32,
    order: BitOrder,
}

impl<'a> BitSource<'a> {
    /// The bits that are still to be read, in order.
    pub closed spec fn remaining(&self) -> Seq<bool> {
        byte_seq(self.buffer, self.order).skip(8 - self.bits) + bytes_seq(
            self.data@.skip(self.pos as int),
            self.order,
        )
    }

    /// The number of bits read since construction.
    pub closed spec fn consumed(&self) -> int {
        8 * self.pos - self.bits
    }

    pub closed spec fn bit_order(&self) -> BitOrder {
        self.order
    }

    pub closed spec fn wf(&self) -> bool {
        &&& self.bits < 8
        &&& self.pos <= self.data@.len()
        &&& source_fits(self.data@.len() as int)
        &&& self.bits > 0 ==> self.pos > 0
    }

    proof fn lemma_remaining_len(&self)
        requires
            self.wf(),
        ensures
            self.remaining().len() == self.bits + 8 * (self.data@.len() - self.pos),
            self.consumed() >= 0,
    {
        lemma_bytes_len(self.data@.skip(self.pos as int), self.order);
    }

    pub fn new(data: &'a [u8], order: BitOrder) -> (r: Self)
        requires
            source_fits(data@.len() as int),
        ensures
            r.wf(),
            r.remaining() == bytes_seq(data@, order),
            r.consumed() == 0,
            r.bit_order() == order,
    {
        let r = BitSource { data, pos: 0, buffer: 0, bits: 0, order };
        proof {
            assert(data@.skip(0) =~= data@);
            assert(r.remaining() =~= bytes_seq(data@, order));
        }
        r
    }

    /// The number of bits that are still to be read.
    pub fn available(&self) -> (r: u64)
        requires
            self.wf(),
        ensures
            r == self.remaining().len(),
    {
        proof {
            self.lemma_remaining_len();
        }
        self.bits as u64 + 8 * (self.data.len() - self.pos) as u64
    }

    pub fn byte_aligned(&self) -> (r: bool)
        requires
            self.wf(),
        ensures
            r == (self.consumed() % 8 == 0),
    {
        proof {
            let p = self.pos as int;
            let b = self.bits as int;
            assert(b > 0 ==> (8 * p - b) % 8 != 0) by (nonlinear_arith)
                requires
                    0 <= b < 8,
                    b > 0 ==> p > 0,
            ;
            assert((8 * p) % 8 == 0) by (nonlinear_arith);
        }
        self.bits == 0
    }

    /// Reads one bit.
    fn read_bit(&mut self) -> (r: bool)
        requires
            old(self).wf(),
            old(self).remaining().len() > 0,
        ensures
            final(self).wf(),
            final(self).bit_order() == old(self).bit_order(),
            r == old(self).remaining()[0],
            final(self).data == old(self).data,
            final(self).remaining() == old(self).remaining().skip(1),
            final(self).consumed() == old(self).consumed() + 1,
    {
        proof {
            self.lemma_remaining_len();
        }
        if self.bits == 0 {
            let ghost rest = self.data@.skip(self.pos as int);
            self.buffer = self.data[self.pos];
            self.pos = self.pos + 1;
            self.bits = 8;
            proof {
                assert(rest.skip(1) =~= self.data@.skip(self.pos as int));
                assert(byte_seq(self.buffer, self.order).skip(0) =~= byte_seq(self.buffer, self.order));
                assert(byte_seq(self.buffer, self.order).skip(8) =~= Seq::<bool>::empty());
                assert(old(self).remaining() =~= byte_seq(self.buffer, self.order) + bytes_seq(
                    self.data@.skip(self.pos as int),
                    self.order,
                ));
            }
        }
        let ghost cur = byte_seq(self.buffer, self.order).skip(8 - self.bits) + bytes_seq(
            self.data@.skip(self.pos as int),
            self.order,
        );
        let p: u8 = if self.order == BitOrder::MsbFirst { (self.bits - 1) as u8 } else { (8 - self.bits) as u8 };
        let bit = (self.buffer >> p) & 1u8 == 1u8;
        self.bits = self.bits - 1;
        proof {
            assert(bit == byte_seq(self.buffer, self.order)[7 - self.bits]);
            assert(cur[0] == bit);
            assert(self.remaining() =~= cur.skip(1));
        }
        bit
    }

    /// Reads the next `bits` bits as a number under this source's order.
    pub fn read(&mut self, bits: u32) -> (r: Result<u64, BitError>)
        requires
            old(self).wf(),
        ensures
            final(self).wf(),
            final(self).bit_order() == old(self).bit_order(),
            bits > 64 ==> r == Err::<u64, BitError>(BitError::InvalidArgument),
            bits <= 64 && bits > old(self).remaining().len() ==> r == Err::<u64, BitError>(
                BitError::EndOfStream,
            ),
            r.is_err() ==> *final(self) == *old(self),
            r.is_ok() <==> bits <= 64 && bits <= old(self).remaining().len(),
            r.is_ok() ==> {
                &&& r.unwrap() == field_value(old(self).bit_order(), old(self).remaining().take(bits as int))
                &&& final(self).remaining() == old(self).remaining().skip(bits as int)
                &&& final(self).consumed() == old(self).consumed() + bits
            },
    {
        if bits > 64 {
            return Err(BitError::InvalidArgument);
        }
        if bits as u64 > self.available() {
            return Err(BitError::EndOfStream);
        }
        let ghost rem = self.remaining();
        let mut acc: u64 = 0;
        let mut weight: u64 = 1;
        let mut i: u32 = 0;
        proof {
            lemma2_to64();
        }
        while i < bits
            invariant
                self.wf(),
                self.bit_order() == old(self).bit_order(),
                rem == old(self).remaining(),
                i <= bits <= 64,
                bits <= rem.len(),
                self.remaining() == rem.skip(i as int),
                self.consumed() == old(self).consumed() + i,
                acc == field_value(self.order, rem.take(i as int)),
                acc < pow2(i as nat),
                i < bits ==> weight == pow2(i as nat),
                pow2(64) == 0x1_0000_0000_0000_0000,
            decreases bits - i,
        {
            let ghost prefix = rem.take(i as int);
            let bit = self.read_bit();
            proof {
                assert(rem.skip(i as int)[0] == rem[i as int]);
                assert(self.remaining() =~= rem.skip(i + 1));
                assert(rem.take(i + 1).drop_last() =~= prefix);
                assert(rem.take(i + 1).last() == bit);
                lemma_pow2_adds(i as nat, 1);
                if i + 1 < 64 {
                    lemma_pow2_strictly_increases((i + 1) as nat, 64);
                }
                lemma2_to64();
            }
            let b: u64 = if bit { 1 } else { 0 };
            if self.order == BitOrder::MsbFirst {
                acc = acc * 2 + b;
            } else {
                acc = acc + b * weight;
            }
            if i + 1 < bits {
                weight = weight * 2;
            }
            proof {
                lemma_field_value_bound(self.order, rem.take(i + 1));
            }
            i = i + 1;
        }
        Ok(acc)
    }

    /// Discards the next `bits` bits.
    pub fn skip(&mut self, bits: u32) -> (r: Result<(), BitError>)
        requires
            old(self).wf(),
        ensures
            final(self).wf(),
            final(self).bit_order() == old(self).bit_order(),
            r.is_err() <==> bits > old(self).remaining().len(),
            r.is_err() ==> r == Err::<(), BitError>(BitError::EndOfStream) && *final(self) == *old(self),
            r.is_ok() ==> final(self).remaining() == old(self).remaining().skip(bits as int)
                && final(self).consumed() == old(self).consumed() + bits,
    {
        if bits as u64 > self.available() {
            return Err(BitError::EndOfStream);
        }
        let ghost rem = self.remaining();
        let mut i: u32 = 0;
        while i < bits
            invariant
                self.wf(),
                self.bit_order() == old(self).bit_order(),
                rem == old(self).remaining(),
                i <= bits <= rem.len(),
                self.remaining() == rem.skip(i as int),
                self.consumed() == old(self).consumed() + i,
            decreases bits - i,
        {
            self.read_bit();
            proof {
                assert(self.remaining() =~= rem.skip(i + 1));
            }
            i = i + 1;
        }
        Ok(())
    }

    /// Reads a sign flag, then a magnitude of `bits - 1` bits.
    pub fn read_signed(&mut self, bits: u32) -> (r: Result<i64, BitError>)
        requires
            old(self).wf(),
        ensures
            final(self).wf(),
            final(self).bit_order() == old(self).bit_order(),
            (bits < 2 || bits > 64) ==> r == Err::<i64, BitError>(BitError::InvalidArgument),
            2 <= bits <= 64 && bits > old(self).remaining().len() ==> r == Err::<i64, BitError>(
                BitError::EndOfStream,
            ),
            r.is_err() ==> *final(self) == *old(self),
            r.is_ok() <==> 2 <= bits <= 64 && bits <= old(self).remaining().len(),
            r.is_ok() ==> {
                &&& r.unwrap() == signed_value(
                    bits as nat,
                    old(self).remaining()[0],
                    field_value(old(self).bit_order(), old(self).remaining().subrange(1, bits as int)),
                )
                &&& final(self).remaining() == old(self).remaining().skip(bits as int)
                &&& final(self).consumed() == old(self).consumed() + bits
            },
    {
        if bits < 2 || bits > 64 {
            return Err(BitError::InvalidArgument);
        }
        if bits as u64 > self.available() {
            return Err(BitError::EndOfStream);
        }
        let ghost rem = self.remaining();
        let sign = self.read_bit();
        let magnitude = self.read(bits - 1).unwrap();
        proof {
            lemma_pow2_adds((bits - 1) as nat, 1);
            lemma2_to64();
            if bits < 64 {
                lemma_pow2_strictly_increases(bits as nat, 64);
            }
            assert(rem.skip(1).take(bits - 1) =~= rem.subrange(1, bits as int));
            assert(rem.skip(1).skip(bits - 1) =~= rem.skip(bits as int));
            lemma_field_value_bound(self.order, rem.subrange(1, bits as int));
            vstd::bits::lemma_u64_pow2_no_overflow((bits - 1) as nat);
            vstd::bits::lemma_u64_shl_is_mul(1, (bits - 1) as u64);
        }
        let half: u64 = 1u64 << (bits - 1) as u64;
        if sign {
            Ok((magnitude as i128 - half as i128) as i64)
        } else {
            Ok(magnitude as i64)
        }
    }

    /// Counts the bits equal to `b` up to the first one that differs, and
    /// consumes that one too.
    fn read_unary(&mut self, b: bool) -> (r: Result<u64, BitError>)
        requires
            old(self).wf(),
        ensures
            final(self).wf(),
            final(self).bit_order() == old(self).bit_order(),
            r.is_err() <==> (forall|i: int| 0 <= i < old(self).remaining().len() ==> old(self).remaining()[i] == b),
            r.is_err() ==> r == Err::<u64, BitError>(BitError::EndOfStream) && *final(self) == *old(self),
            r.is_ok() ==> {
                let n = r.unwrap() as int;
                &&& n < old(self).remaining().len()
                &&& old(self).remaining()[n] != b
                &&& forall|i: int| 0 <= i < n ==> old(self).remaining()[i] == b
                &&& final(self).remaining() == old(self).remaining().skip(n + 1)
                &&& final(self).consumed() == old(self).consumed() + n + 1
            },
    {
        let saved_pos = self.pos;
        let saved_buffer = self.buffer;
        let saved_bits = self.bits;
        let ghost rem = self.remaining();
        let avail = self.available();
        let mut count: u64 = 0;
        while count < avail
            invariant
                self.wf(),
                self.bit_order() == old(self).bit_order(),
                self.data == old(self).data,
                self.order == old(self).order,
                rem == old(self).remaining(),
                avail == rem.len(),
                count <= avail,
                self.remaining() == rem.skip(count as int),
                self.consumed() == old(self).consumed() + count,
                forall|i: int| 0 <= i < count ==> rem[i] == b,
                saved_pos == old(self).pos && saved_buffer == old(self).buffer && saved_bits == old(self).bits,
            decreases avail - count,
        {
            let bit = self.read_bit();
            proof {
                assert(rem.skip(count as int)[0] == rem[count as int]);
                assert(self.remaining() =~= rem.skip(count + 1));
            }
            if bit != b {
                return Ok(count);
            }
            count = count + 1;
        }
        self.pos = saved_pos;
        self.buffer = saved_buffer;
        self.bits = saved_bits;
        Err(BitError::EndOfStream)
    }

    /// Counts 1 bits up to a 0 bit, which ends the code.
    pub fn read_unary0(&mut self) -> (r: Result<u64, BitError>)
        requires
            old(self).wf(),
        ensures
            final(self).wf(),
            final(self).bit_order() == old(self).bit_order(),
            r.is_err() <==> (forall|i: int| 0 <= i < old(self).remaining().len() ==> old(self).remaining()[i]),
            r.is_err() ==> r == Err::<u64, BitError>(BitError::EndOfStream) && *final(self) == *old(self),
            r.is_ok() ==> {
                let n = r.unwrap() as int;
                &&& n < old(self).remaining().len()
                &&& old(self).remaining().take(n + 1) == unary_seq(n as nat, true)
                &&& final(self).remaining() == old(self).remaining().skip(n + 1)
                &&& final(self).consumed() == old(self).consumed() + n + 1
            },
    {
        let r = self.read_unary(true);
        proof {
            if r.is_ok() {
                assert(old(self).remaining().take(r.unwrap() + 1) =~= unary_seq(r.unwrap() as nat, true));
            }
        }
        r
    }

    /// Counts 0 bits up to a 1 bit, which ends the code.
    pub fn read_unary1(&mut self) -> (r: Result<u64, BitError>)
        requires
            old(self).wf(),
        ensures
            final(self).wf(),
            final(self).bit_order() == old(self).bit_order(),
            r.is_err() <==> (forall|i: int| 0 <= i < old(self).remaining().len() ==> !old(self).remaining()[i]),
            r.is_err() ==> r == Err::<u64, BitError>(BitError::EndOfStream) && *final(self) == *old(self),
            r.is_ok() ==> {
                let n = r.unwrap() as int;
                &&& n < old(self).remaining().len()
                &&& old(self).remaining().take(n + 1) == unary_seq(n as nat, false)
                &&& final(self).remaining() == old(self).remaining().skip(n + 1)
                &&& final(self).consumed() == old(self).consumed() + n + 1
            },
    {
        let r = self.read_unary(false);
        proof {
            if r.is_ok() {
                assert(old(self).remaining().take(r.unwrap() + 1) =~= unary_seq(r.unwrap() as nat, false));
            }
        }
        r
    }

    /// Discards the unread bits of the byte in progress.
    pub fn byte_align(&mut self)
        requires
            old(self).wf(),
        ensures
            final(self).wf(),
            final(self).bit_order() == old(self).bit_order(),
            final(self).consumed() % 8 == 0,
            final(self).consumed() == old(self).consumed() + align_pad(old(self).consumed()),
            final(self).remaining() == old(self).remaining().skip(align_pad(old(self).consumed())),
    {
        proof {
            self.lemma_remaining_len();
            let p = self.pos as int;
            let b = self.bits as int;
            assert((8 - (8 * p - b) % 8) % 8 == b) by (nonlinear_arith)
                requires
                    0 <= b < 8,
                    b > 0 ==> p > 0,
            ;
            assert((8 * p) % 8 == 0) by (nonlinear_arith);
        }
        let ghost rem = self.remaining();
        let ghost skipped = self.bits as int;
        self.bits = 0;
        proof {
            assert(byte_seq(self.buffer, self.order).skip(8) =~= Seq::<bool>::empty());
            assert(self.remaining() =~= rem.skip(skipped));
        }
    }

    /// Reads one byte whose bits, in this source's order, are the next eight.
    fn read_byte(&mut self) -> (r: u8)
        requires
            old(self).wf(),
            old(self).remaining().len() >= 8,
        ensures
            final(self).wf(),
            final(self).bit_order() == old(self).bit_order(),
            byte_seq(r, old(self).bit_order()) == old(self).remaining().take(8),
            final(self).remaining() == old(self).remaining().skip(8),
            final(self).consumed() == old(self).consumed() + 8,
    {
        proof {
            self.lemma_remaining_len();
        }
        let ghost rem = self.remaining();
        if self.bits == 0 {
            let byte = self.data[self.pos];
            let ghost rest = self.data@.skip(self.pos as int);
            self.pos = self.pos + 1;
            proof {
                assert(rest.skip(1) =~= self.data@.skip(self.pos as int));
                assert(byte_seq(self.buffer, self.order).skip(8) =~= Seq::<bool>::empty());
                assert(rem =~= byte_seq(byte, self.order) + bytes_seq(self.data@.skip(self.pos as int), self.order));
                assert(rem.take(8) =~= byte_seq(byte, self.order));
                assert(self.remaining() =~= rem.skip(8));
            }
            return byte;
        }
        let mut byte: u8 = 0;
        let mut j: u8 = 0;
        proof {
            lemma_zero_byte(self.order);
        }
        while j < 8
            invariant
                self.wf(),
                self.bit_order() == old(self).bit_order(),
                rem == old(self).remaining(),
                rem.len() >= 8,
                j <= 8,
                self.remaining() == rem.skip(j as int),
                self.consumed() == old(self).consumed() + j,
                forall|i: int| 0 <= i < j ==> #[trigger] byte_seq(byte, self.order)[i] == rem[i],
                forall|i: int| j <= i < 8 ==> !#[trigger] byte_seq(byte, self.order)[i],
            decreases 8 - j,
        {
            let bit = self.read_bit();
            proof {
                assert(rem.skip(j as int)[0] == rem[j as int]);
                assert(self.remaining() =~= rem.skip(j + 1));
            }
            let ghost before = byte;
            let p: u8 = if self.order == BitOrder::MsbFirst { 7 - j } else { j };
            if bit {
                byte = byte | (1u8 << p);
            }
            proof {
                assert forall|i: int| 0 <= i < 8 implies #[trigger] byte_seq(byte, self.order)[i]
                    == if i == j { bit } else { byte_seq(before, self.order)[i] } by {
                    if bit {
                        let k: u8 = (if self.order == BitOrder::MsbFirst { 7 - i } else { i }) as u8;
                        lemma_set_bit(before, p, k);
                    }
                }
            }
            j = j + 1;
        }
        proof {
            assert(byte_seq(byte, self.order) =~= rem.take(8));
        }
        byte
    }

    /// Fills `buf` with the next `8 * buf.len()` bits, one byte per eight bits
    /// in this source's order.
    pub fn read_bytes(&mut self, buf: &mut [u8]) -> (r: Result<(), BitError>)
        requires
            old(self).wf(),
        ensures
            final(self).wf(),
            final(self).bit_order() == old(self).bit_order(),
            final(buf)@.len() == old(buf)@.len(),
            r.is_err() <==> 8 * old(buf)@.len() > old(self).remaining().len(),
            r.is_err() ==> r == Err::<(), BitError>(BitError::EndOfStream) && *final(self) == *old(self)
                && final(buf)@ == old(buf)@,
            r.is_ok() ==> {
                &&& bytes_seq(final(buf)@, old(self).bit_order()) == old(self).remaining().take(
                    8 * old(buf)@.len() as int,
                )
                &&& final(self).remaining() == old(self).remaining().skip(8 * old(buf)@.len() as int)
                &&& final(self).consumed() == old(self).consumed() + 8 * old(buf)@.len()
            },
    {
        proof {
            self.lemma_remaining_len();
        }
        let n = buf.len();
        if n as u64 > self.available() / 8 {
            return Err(BitError::EndOfStream);
        }
        let ghost rem = self.remaining();
        let mut k: usize = 0;
        proof {
            assert(buf@.take(0) =~= Seq::<u8>::empty());
            assert(bytes_seq(Seq::<u8>::empty(), self.order) =~= Seq::<bool>::empty());
        }
        while k < n
            invariant
                self.wf(),
                self.bit_order() == old(self).bit_order(),
                rem == old(self).remaining(),
                n == buf@.len(),
                n == old(buf)@.len(),
                8 * n <= rem.len(),
                k <= n,
                self.remaining() == rem.skip(8 * k),
                self.consumed() == old(self).consumed() + 8 * k,
                bytes_seq(buf@.take(k as int), self.order) == rem.take(8 * k),
            decreases n - k,
        {
            let byte = self.read_byte();
            let ghost prev = buf@;
            buf[k] = byte;
            proof {
                assert(self.remaining() =~= rem.skip(8 * (k + 1)));
                assert(buf@.take(k + 1) =~= prev.take(k as int).push(byte));
                lemma_bytes_push(prev.take(k as int), byte, self.order);
                assert(rem.take(8 * (k + 1)) =~= rem.take(8 * k) + rem.skip(8 * k).take(8));
            }
            k = k + 1;
        }
        proof {
            assert(buf@.take(n as int) =~= buf@);
        }
        Ok(())
    }
}

} // verus!
