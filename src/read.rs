use crate::bits::{align_pad, bytes_seq, field_value, lemma_field_value_bound, signed_value, unary_seq, BitError, BitOrder};
use crate::numeric::{Numeric, SignedNumeric};
use crate::source::{source_fits, BitSource};
use vstd::arithmetic::power2::lemma_pow2_strictly_increases;
use vstd::prelude::*;

verus! {

/// A reader of bit fields. A failed operation consumes nothing.
pub trait BitRead: Sized {
    /// The bit order, fixed for the type.
    spec fn order() -> BitOrder;

    spec fn wf(&self) -> bool;

    /// The bits that are still to be read, in order.
    spec fn remaining(&self) -> Seq<bool>;

    /// The number of bits read since construction.
    spec fn consumed(&self) -> int;

    /// Reads the next `bits` bits as a number; the result's raw bits are that
    /// number.
    fn read<U: Numeric>(&mut self, bits: u32) -> (r: Result<U, BitError>)
        requires
            old(self).wf(),
        ensures
            final(self).wf(),
            bits > U::width() ==> r == Err::<U, BitError>(BitError::InvalidArgument),
            bits <= U::width() && bits > old(self).remaining().len() ==> r == Err::<U, BitError>(BitError::EndOfStream),
            r.is_err() ==> final(self).remaining() == old(self).remaining() && final(self).consumed() == old(self).consumed(),
            r.is_ok() <==> bits <= U::width() && bits <= old(self).remaining().len(),
            r.is_ok() ==> {
                &&& r.unwrap().raw() == field_value(Self::order(), old(self).remaining().take(bits as int))
                &&& final(self).remaining() == old(self).remaining().skip(bits as int)
                &&& final(self).consumed() == old(self).consumed() + bits
            },
    ;

    /// Reads a sign flag and a magnitude of `bits - 1` bits; a set flag
    /// stands for the magnitude less `2^(bits - 1)`.
    fn read_signed<S: SignedNumeric>(&mut self, bits: u32) -> (r: Result<S, BitError>)
        requires
            old(self).wf(),
        ensures
            final(self).wf(),
            (bits < 2 || bits > S::width()) ==> r == Err::<S, BitError>(BitError::InvalidArgument),
            2 <= bits <= S::width() && bits > old(self).remaining().len() ==> r == Err::<S, BitError>(BitError::EndOfStream),
            r.is_err() ==> final(self).remaining() == old(self).remaining() && final(self).consumed() == old(self).consumed(),
            r.is_ok() <==> 2 <= bits <= S::width() && bits <= old(self).remaining().len(),
            r.is_ok() ==> {
                &&& r.unwrap().value() == signed_value(
                    bits as nat,
                    old(self).remaining()[0],
                    field_value(Self::order(), old(self).remaining().subrange(1, bits as int)),
                )
                &&& final(self).remaining() == old(self).remaining().skip(bits as int)
                &&& final(self).consumed() == old(self).consumed() + bits
            },
    ;

    /// Discards the next `bits` bits.
    fn skip(&mut self, bits: u32) -> (r: Result<(), BitError>)
        requires
            old(self).wf(),
        ensures
            final(self).wf(),
            r.is_err() <==> bits > old(self).remaining().len(),
            r.is_err() ==> r == Err::<(), BitError>(BitError::EndOfStream) && final(self).remaining() == old(self).remaining()
                && final(self).consumed() == old(self).consumed(),
            r.is_ok() ==> final(self).remaining() == old(self).remaining().skip(bits as int)
                && final(self).consumed() == old(self).consumed() + bits,
    ;

    /// Counts 1 bits up to the 0 bit that ends them.
    fn read_unary0(&mut self) -> (r: Result<u64, BitError>)
        requires
            old(self).wf(),
        ensures
            final(self).wf(),
            r.is_err() <==> (forall|i: int| 0 <= i < old(self).remaining().len() ==> old(self).remaining()[i]),
            r.is_err() ==> r == Err::<u64, BitError>(BitError::EndOfStream) && final(self).remaining() == old(self).remaining()
                && final(self).consumed() == old(self).consumed(),
            r.is_ok() ==> {
                let n = r.unwrap() as int;
                &&& n < old(self).remaining().len()
                &&& old(self).remaining().take(n + 1) == unary_seq(n as nat, true)
                &&& final(self).remaining() == old(self).remaining().skip(n + 1)
                &&& final(self).consumed() == old(self).consumed() + n + 1
            },
    ;

    /// Counts 0 bits up to the 1 bit that ends them.
    fn read_unary1(&mut self) -> (r: Result<u64, BitError>)
        requires
            old(self).wf(),
        ensures
            final(self).wf(),
            r.is_err() <==> (forall|i: int| 0 <= i < old(self).remaining().len() ==> !old(self).remaining()[i]),
            r.is_err() ==> r == Err::<u64, BitError>(BitError::EndOfStream) && final(self).remaining() == old(self).remaining()
                && final(self).consumed() == old(self).consumed(),
            r.is_ok() ==> {
                let n = r.unwrap() as int;
                &&& n < old(self).remaining().len()
                &&& old(self).remaining().take(n + 1) == unary_seq(n as nat, false)
                &&& final(self).remaining() == old(self).remaining().skip(n + 1)
                &&& final(self).consumed() == old(self).consumed() + n + 1
            },
    ;

    /// Fills `buf` with the next `8 * buf.len()` bits, one byte for each eight
    /// bits in this reader's order.
    fn read_bytes(&mut self, buf: &mut [u8]) -> (r: Result<(), BitError>)
        requires
            old(self).wf(),
        ensures
            final(self).wf(),
            final(buf)@.len() == old(buf)@.len(),
            r.is_err() <==> 8 * old(buf)@.len() > old(self).remaining().len(),
            r.is_err() ==> r == Err::<(), BitError>(BitError::EndOfStream) && final(self).remaining() == old(self).remaining()
                && final(self).consumed() == old(self).consumed() && final(buf)@ == old(buf)@,
            r.is_ok() ==> {
                &&& bytes_seq(final(buf)@, Self::order()) == old(self).remaining().take(8 * old(buf)@.len() as int)
                &&& final(self).remaining() == old(self).remaining().skip(8 * old(buf)@.len() as int)
                &&& final(self).consumed() == old(self).consumed() + 8 * old(buf)@.len()
            },
    ;

    /// Discards the unread bits of the byte in progress.
    fn byte_align(&mut self)
        requires
            old(self).wf(),
        ensures
            final(self).wf(),
            final(self).consumed() % 8 == 0,
            final(self).consumed() == old(self).consumed() + align_pad(old(self).consumed()),
            final(self).remaining() == old(self).remaining().skip(align_pad(old(self).consumed())),
    ;

    /// Whether the bits read so far fill whole bytes.
    fn byte_aligned(&self) -> (r: bool)
        requires
            self.wf(),
        ensures
            r == (self.consumed() % 8 == 0),
    ;
}

/// A bit reader over a byte slice that takes each byte most significant bit first.
pub struct BitReaderBE<'a> {
    source: BitSource<'a>,
}

impl<'a> BitReaderBE<'a> {
    pub fn new(data: &'a [u8]) -> (r: BitReaderBE<'a>)
        requires
            source_fits(data@.len() as int),
        ensures
            r.wf(),
            r.remaining() == bytes_seq(data@, BitOrder::MsbFirst),
            r.consumed() == 0,
    {
        BitReaderBE { source: BitSource::new(data, BitOrder::MsbFirst) }
    }
}

impl<'a> BitRead for BitReaderBE<'a> {
    open spec fn order() -> BitOrder {
        BitOrder::MsbFirst
    }

    closed spec fn wf(&self) -> bool {
        self.source.wf() && self.source.bit_order() == BitOrder::MsbFirst
    }

    closed spec fn remaining(&self) -> Seq<bool> {
        self.source.remaining()
    }

    closed spec fn consumed(&self) -> int {
        self.source.consumed()
    }

    fn read<U: Numeric>(&mut self, bits: u32) -> (r: Result<U, BitError>) {
        proof {
            U::lemma_width();
        }
        if bits > U::bit_width() {
            return Err(BitError::InvalidArgument);
        }
        let ghost rem = self.source.remaining();
        match self.source.read(bits) {
            Ok(v) => {
                proof {
                    lemma_field_value_bound(Self::order(), rem.take(bits as int));
                    if bits < U::width() {
                        lemma_pow2_strictly_increases(bits as nat, U::width());
                    }
                }
                Ok(U::from_raw(v))
            },
            Err(e) => Err(e),
        }
    }

    fn read_signed<S: SignedNumeric>(&mut self, bits: u32) -> (r: Result<S, BitError>) {
        proof {
            S::lemma_width();
        }
        if bits > S::bit_width() {
            return Err(BitError::InvalidArgument);
        }
        let ghost rem = self.source.remaining();
        match self.source.read_signed(bits) {
            Ok(v) => {
                proof {
                    lemma_field_value_bound(Self::order(), rem.subrange(1, bits as int));
                    if bits < S::width() {
                        lemma_pow2_strictly_increases((bits - 1) as nat, (S::width() - 1) as nat);
                    }
                }
                Ok(S::from_i64(v))
            },
            Err(e) => Err(e),
        }
    }

    fn skip(&mut self, bits: u32) -> (r: Result<(), BitError>) {
        self.source.skip(bits)
    }

    fn read_unary0(&mut self) -> (r: Result<u64, BitError>) {
        let ghost rem = self.source.remaining();
        let r = self.source.read_unary0();
        proof {
            assert(old(self).remaining() == rem);
        }
        r
    }

    fn read_unary1(&mut self) -> (r: Result<u64, BitError>) {
        let ghost rem = self.source.remaining();
        let r = self.source.read_unary1();
        proof {
            assert(old(self).remaining() == rem);
        }
        r
    }

    fn read_bytes(&mut self, buf: &mut [u8]) -> (r: Result<(), BitError>) {
        self.source.read_bytes(buf)
    }

    fn byte_align(&mut self) {
        self.source.byte_align()
    }

    fn byte_aligned(&self) -> (r: bool) {
        self.source.byte_aligned()
    }
}

/// A bit reader over a byte slice that takes each byte least significant bit first.
pub struct BitReaderLE<'a> {
    source: BitSource<'a>,
}

impl<'a> BitReaderLE<'a> {
    pub fn new(data: &'a [u8]) -> (r: BitReaderLE<'a>)
        requires
            source_fits(data@.len() as int),
        ensures
            r.wf(),
            r.remaining() == bytes_seq(data@, BitOrder::LsbFirst),
            r.consumed() == 0,
    {
        BitReaderLE { source: BitSource::new(data, BitOrder::LsbFirst) }
    }
}

impl<'a> BitRead for BitReaderLE<'a> {
    open spec fn order() -> BitOrder {
        BitOrder::LsbFirst
    }

    closed spec fn wf(&self) -> bool {
        self.source.wf() && self.source.bit_order() == BitOrder::LsbFirst
    }

    closed spec fn remaining(&self) -> Seq<bool> {
        self.source.remaining()
    }

    closed spec fn consumed(&self) -> int {
        self.source.consumed()
    }

    fn read<U: Numeric>(&mut self, bits: u32) -> (r: Result<U, BitError>) {
        proof {
            U::lemma_width();
        }
        if bits > U::bit_width() {
            return Err(BitError::InvalidArgument);
        }
        let ghost rem = self.source.remaining();
        match self.source.read(bits) {
            Ok(v) => {
                proof {
                    lemma_field_value_bound(Self::order(), rem.take(bits as int));
                    if bits < U::width() {
                        lemma_pow2_strictly_increases(bits as nat, U::width());
                    }
                }
                Ok(U::from_raw(v))
            },
            Err(e) => Err(e),
        }
    }

    fn read_signed<S: SignedNumeric>(&mut self, bits: u32) -> (r: Result<S, BitError>) {
        proof {
            S::lemma_width();
        }
        if bits > S::bit_width() {
            return Err(BitError::InvalidArgument);
        }
        let ghost rem = self.source.remaining();
        match self.source.read_signed(bits) {
            Ok(v) => {
                proof {
                    lemma_field_value_bound(Self::order(), rem.subrange(1, bits as int));
                    if bits < S::width() {
                        lemma_pow2_strictly_increases((bits - 1) as nat, (S::width() - 1) as nat);
                    }
                }
                Ok(S::from_i64(v))
            },
            Err(e) => Err(e),
        }
    }

    fn skip(&mut self, bits: u32) -> (r: Result<(), BitError>) {
        self.source.skip(bits)
    }

    fn read_unary0(&mut self) -> (r: Result<u64, BitError>) {
        let ghost rem = self.source.remaining();
        let r = self.source.read_unary0();
        proof {
            assert(old(self).remaining() == rem);
        }
        r
    }

    fn read_unary1(&mut self) -> (r: Result<u64, BitError>) {
        let ghost rem = self.source.remaining();
        let r = self.source.read_unary1();
        proof {
            assert(old(self).remaining() == rem);
        }
        r
    }

    fn read_bytes(&mut self, buf: &mut [u8]) -> (r: Result<(), BitError>) {
        self.source.read_bytes(buf)
    }

    fn byte_align(&mut self) {
        self.source.byte_align()
    }

    fn byte_aligned(&self) -> (r: bool) {
        self.source.byte_aligned()
    }
}

} // verus!
