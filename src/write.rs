use crate::bits::{align_pad, bytes_seq, field_seq, signed_seq, unary_seq, BitError, BitOrder};
use crate::numeric::{Numeric, SignedNumeric};
use crate::sink::BitSink;
use vstd::arithmetic::power2::pow2;
use vstd::prelude::*;

verus! {

/// A writer of bit fields. Completed bytes are kept in order; the bits of a
/// byte in progress are not flushed until it is complete.
pub trait BitWrite: Sized {
    /// The bit order, fixed for the type.
    spec fn order() -> BitOrder;

    spec fn wf(&self) -> bool;

    /// Each bit written since construction, in order.
    spec fn emitted(&self) -> Seq<bool>;

    /// The completed bytes.
    spec fn flushed(&self) -> Seq<u8>;

    /// The completed bytes hold the bits written first, eight to a byte; fewer
    /// than eight bits wait in the byte in progress.
    proof fn lemma_flushed(&self)
        requires
            self.wf(),
        ensures
            bytes_seq(self.flushed(), Self::order()) == self.emitted().take(8 * self.flushed().len() as int),
            self.emitted().len() == 8 * self.flushed().len() + (self.emitted().len() % 8),
    ;

    /// Writes the low `bits` bits of the raw bits of `value`.
    fn write<U: Numeric>(&mut self, bits: u32, value: U) -> (r: Result<(), BitError>)
        requires
            old(self).wf(),
        ensures
            final(self).wf(),
            r.is_err() <==> bits > U::width(),
            r.is_err() ==> r == Err::<(), BitError>(BitError::InvalidArgument) && final(self).emitted() == old(self).emitted(),
            r.is_ok() ==> final(self).emitted() == old(self).emitted() + field_seq(Self::order(), bits as nat, value.raw()),
            old(self).flushed() == final(self).flushed().take(old(self).flushed().len() as int),
    ;

    /// Writes a sign flag, then a magnitude of `bits - 1` bits: `value` when it is
    /// not negative, `value + 2^(bits - 1)` when it is.
    fn write_signed<S: SignedNumeric>(&mut self, bits: u32, value: S) -> (r: Result<(), BitError>)
        requires
            old(self).wf(),
        ensures
            final(self).wf(),
            r.is_err() <==> !(2 <= bits <= S::width() && -pow2((bits - 1) as nat) <= value.value() < pow2((bits - 1) as nat)),
            r.is_err() ==> r == Err::<(), BitError>(BitError::InvalidArgument) && final(self).emitted() == old(self).emitted(),
            r.is_ok() ==> final(self).emitted() == old(self).emitted() + signed_seq(Self::order(), bits as nat, value.value()),
            old(self).flushed() == final(self).flushed().take(old(self).flushed().len() as int),
    ;

    /// Writes the bits of each byte of `buf`, byte after byte.
    fn write_bytes(&mut self, buf: &[u8])
        requires
            old(self).wf(),
        ensures
            final(self).wf(),
            final(self).emitted() == old(self).emitted() + bytes_seq(buf@, Self::order()),
            old(self).flushed() == final(self).flushed().take(old(self).flushed().len() as int),
    ;

    /// Writes `value` 1 bits and a 0 bit that ends them.
    fn write_unary0(&mut self, value: u32)
        requires
            old(self).wf(),
        ensures
            final(self).wf(),
            final(self).emitted() == old(self).emitted() + unary_seq(value as nat, true),
            old(self).flushed() == final(self).flushed().take(old(self).flushed().len() as int),
    ;

    /// Writes `value` 0 bits and a 1 bit that ends them.
    fn write_unary1(&mut self, value: u32)
        requires
            old(self).wf(),
        ensures
            final(self).wf(),
            final(self).emitted() == old(self).emitted() + unary_seq(value as nat, false),
            old(self).flushed() == final(self).flushed().take(old(self).flushed().len() as int),
    ;

    /// Pads the byte in progress with 0 bits and completes it.
    fn byte_align(&mut self)
        requires
            old(self).wf(),
        ensures
            final(self).wf(),
            final(self).emitted().len() % 8 == 0,
            final(self).emitted() == old(self).emitted() + Seq::new(
                align_pad(old(self).emitted().len() as int) as nat,
                |i: int| false,
            ),
            bytes_seq(final(self).flushed(), Self::order()) == final(self).emitted(),
            old(self).flushed() == final(self).flushed().take(old(self).flushed().len() as int),
    ;

    /// Whether the bits written so far fill whole bytes.
    fn byte_aligned(&self) -> (r: bool)
        requires
            self.wf(),
        ensures
            r == (self.emitted().len() % 8 == 0),
    ;

    /// The completed bytes.
    fn bytes(&self) -> (r: &[u8])
        ensures
            r@ == self.flushed(),
    ;
}

/// A bit writer that fills each byte from its most significant bit down.
pub struct BitWriterBE {
    sink: BitSink,
}

impl BitWriterBE {
    pub fn new() -> (r: BitWriterBE)
        ensures
            r.wf(),
            r.emitted() == Seq::<bool>::empty(),
            r.flushed() == Seq::<u8>::empty(),
    {
        BitWriterBE { sink: BitSink::new(BitOrder::MsbFirst) }
    }

    /// Writes one bit.
    pub fn write_bit(&mut self, bit: bool)
        requires
            old(self).wf(),
        ensures
            final(self).wf(),
            final(self).emitted() == old(self).emitted().push(bit),
            old(self).flushed() == final(self).flushed().take(old(self).flushed().len() as int),
    {
        self.sink.write_bit(bit)
    }
}

impl BitWrite for BitWriterBE {
    open spec fn order() -> BitOrder {
        BitOrder::MsbFirst
    }

    closed spec fn wf(&self) -> bool {
        self.sink.wf() && self.sink.bit_order() == BitOrder::MsbFirst
    }

    closed spec fn emitted(&self) -> Seq<bool> {
        self.sink.emitted()
    }

    closed spec fn flushed(&self) -> Seq<u8> {
        self.sink.flushed()
    }

    proof fn lemma_flushed(&self) {
        self.sink.lemma_flushed();
    }

    fn write<U: Numeric>(&mut self, bits: u32, value: U) -> (r: Result<(), BitError>) {
        proof {
            U::lemma_width();
        }
        if bits > U::bit_width() {
            return Err(BitError::InvalidArgument);
        }
        self.sink.write(bits, value.to_raw())
    }

    fn write_signed<S: SignedNumeric>(&mut self, bits: u32, value: S) -> (r: Result<(), BitError>) {
        proof {
            S::lemma_width();
        }
        if bits > S::bit_width() {
            return Err(BitError::InvalidArgument);
        }
        self.sink.write_signed(bits, value.to_i64())
    }

    fn write_bytes(&mut self, buf: &[u8]) {
        self.sink.write_bytes(buf)
    }

    fn write_unary0(&mut self, value: u32) {
        self.sink.write_unary0(value)
    }

    fn write_unary1(&mut self, value: u32) {
        self.sink.write_unary1(value)
    }

    fn byte_align(&mut self) {
        self.sink.byte_align()
    }

    fn byte_aligned(&self) -> (r: bool) {
        self.sink.byte_aligned()
    }

    fn bytes(&self) -> (r: &[u8]) {
        self.sink.bytes()
    }
}

/// A bit writer that fills each byte from its least significant bit up.
pub struct BitWriterLE {
    sink: BitSink,
}

impl BitWriterLE {
    pub fn new() -> (r: BitWriterLE)
        ensures
            r.wf(),
            r.emitted() == Seq::<bool>::empty(),
            r.flushed() == Seq::<u8>::empty(),
    {
        BitWriterLE { sink: BitSink::new(BitOrder::LsbFirst) }
    }

    /// Writes one bit.
    pub fn write_bit(&mut self, bit: bool)
        requires
            old(self).wf(),
        ensures
            final(self).wf(),
            final(self).emitted() == old(self).emitted().push(bit),
            old(self).flushed() == final(self).flushed().take(old(self).flushed().len() as int),
    {
        self.sink.write_bit(bit)
    }
}

impl BitWrite for BitWriterLE {
    open spec fn order() -> BitOrder {
        BitOrder::LsbFirst
    }

    closed spec fn wf(&self) -> bool {
        self.sink.wf() && self.sink.bit_order() == BitOrder::LsbFirst
    }

    closed spec fn emitted(&self) -> Seq<bool> {
        self.sink.emitted()
    }

    closed spec fn flushed(&self) -> Seq<u8> {
        self.sink.flushed()
    }

    proof fn lemma_flushed(&self) {
        self.sink.lemma_flushed();
    }

    fn write<U: Numeric>(&mut self, bits: u32, value: U) -> (r: Result<(), BitError>) {
        proof {
            U::lemma_width();
        }
        if bits > U::bit_width() {
            return Err(BitError::InvalidArgument);
        }
        self.sink.write(bits, value.to_raw())
    }

    fn write_signed<S: SignedNumeric>(&mut self, bits: u32, value: S) -> (r: Result<(), BitError>) {
        proof {
            S::lemma_width();
        }
        if bits > S::bit_width() {
            return Err(BitError::InvalidArgument);
        }
        self.sink.write_signed(bits, value.to_i64())
    }

    fn write_bytes(&mut self, buf: &[u8]) {
        self.sink.write_bytes(buf)
    }

    fn write_unary0(&mut self, value: u32) {
        self.sink.write_unary0(value)
    }

    fn write_unary1(&mut self, value: u32) {
        self.sink.write_unary1(value)
    }

    fn byte_align(&mut self) {
        self.sink.byte_align()
    }

    fn byte_aligned(&self) -> (r: bool) {
        self.sink.byte_aligned()
    }

    fn bytes(&self) -> (r: &[u8]) {
        self.sink.bytes()
    }
}

} // verus!
