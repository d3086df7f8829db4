use vstd::arithmetic::power2::{lemma2_to64, lemma_pow2_adds, pow2};
use vstd::prelude::*;

verus! {

/// A fixed-width integer type that can be a field's payload. A value is moved
/// through its raw bits: the number itself for an unsigned type, its two's
/// complement for a signed one.
pub trait Numeric: Sized {
    /// The number of bits of the type.
    spec fn width() -> nat;

    /// The value's bits, read as an unsigned number.
    spec fn raw(&self) -> nat;

    proof fn lemma_width()
        ensures
            8 <= Self::width() <= 64,
    ;

    fn bit_width() -> (r: u32)
        ensures
            r == Self::width(),
    ;

    fn to_raw(&self) -> (r: u64)
        ensures
            r == self.raw(),
            r < pow2(Self::width()),
    ;

    fn from_raw(r: u64) -> (v: Self)
        requires
            r < pow2(Self::width()),
        ensures
            v.raw() == r,
    ;
}

impl Numeric for u8 {
    open spec fn width() -> nat {
        8
    }

    open spec fn raw(&self) -> nat {
        *self as nat
    }

    proof fn lemma_width() {
    }

    fn bit_width() -> (r: u32) {
        8
    }

    fn to_raw(&self) -> (r: u64) {
        proof {
            lemma2_to64();
        }
        *self as u64
    }

    fn from_raw(r: u64) -> (v: Self) {
        proof {
            lemma2_to64();
        }
        r as u8
    }
}

impl Numeric for i8 {
    open spec fn width() -> nat {
        8
    }

    open spec fn raw(&self) -> nat {
        if *self < 0 {
            (*self + 0x100) as nat
        } else {
            *self as nat
        }
    }

    proof fn lemma_width() {
    }

    fn bit_width() -> (r: u32) {
        8
    }

    fn to_raw(&self) -> (r: u64) {
        proof {
            lemma2_to64();
        }
        if *self < 0 {
            (*self as i128 + 0x100) as u64
        } else {
            *self as u64
        }
    }

    fn from_raw(r: u64) -> (v: Self) {
        proof {
            lemma2_to64();
        }
        if r < 0x80 {
            r as i8
        } else {
            (r as i128 - 0x100) as i8
        }
    }
}

impl Numeric for u16 {
    open spec fn width() -> nat {
        16
    }

    open spec fn raw(&self) -> nat {
        *self as nat
    }

    proof fn lemma_width() {
    }

    fn bit_width() -> (r: u32) {
        16
    }

    fn to_raw(&self) -> (r: u64) {
        proof {
            lemma2_to64();
        }
        *self as u64
    }

    fn from_raw(r: u64) -> (v: Self) {
        proof {
            lemma2_to64();
        }
        r as u16
    }
}

impl Numeric for i16 {
    open spec fn width() -> nat {
        16
    }

    open spec fn raw(&self) -> nat {
        if *self < 0 {
            (*self + 0x10000) as nat
        } else {
            *self as nat
        }
    }

    proof fn lemma_width() {
    }

    fn bit_width() -> (r: u32) {
        16
    }

    fn to_raw(&self) -> (r: u64) {
        proof {
            lemma2_to64();
        }
        if *self < 0 {
            (*self as i128 + 0x10000) as u64
        } else {
            *self as u64
        }
    }

    fn from_raw(r: u64) -> (v: Self) {
        proof {
            lemma2_to64();
        }
        if r < 0x8000 {
            r as i16
        } else {
            (r as i128 - 0x10000) as i16
        }
    }
}

impl Numeric for u32 {
    open spec fn width() -> nat {
        32
    }

    open spec fn raw(&self) -> nat {
        *self as nat
    }

    proof fn lemma_width() {
    }

    fn bit_width() -> (r: u32) {
        32
    }

    fn to_raw(&self) -> (r: u64) {
        proof {
            lemma2_to64();
        }
        *self as u64
    }

    fn from_raw(r: u64) -> (v: Self) {
        proof {
            lemma2_to64();
        }
        r as u32
    }
}

impl Numeric for i32 {
    open spec fn width() -> nat {
        32
    }

    open spec fn raw(&self) -> nat {
        if *self < 0 {
            (*self + 0x100000000) as nat
        } else {
            *self as nat
        }
    }

    proof fn lemma_width() {
    }

    fn bit_width() -> (r: u32) {
        32
    }

    fn to_raw(&self) -> (r: u64) {
        proof {
            lemma2_to64();
        }
        if *self < 0 {
            (*self as i128 + 0x100000000) as u64
        } else {
            *self as u64
        }
    }

    fn from_raw(r: u64) -> (v: Self) {
        proof {
            lemma2_to64();
        }
        if r < 0x80000000 {
            r as i32
        } else {
            (r as i128 - 0x100000000) as i32
        }
    }
}

impl Numeric for u64 {
    open spec fn width() -> nat {
        64
    }

    open spec fn raw(&self) -> nat {
        *self as nat
    }

    proof fn lemma_width() {
    }

    fn bit_width() -> (r: u32) {
        64
    }

    fn to_raw(&self) -> (r: u64) {
        proof {
            lemma2_to64();
        }
        *self as u64
    }

    fn from_raw(r: u64) -> (v: Self) {
        proof {
            lemma2_to64();
        }
        r as u64
    }
}

impl Numeric for i64 {
    open spec fn width() -> nat {
        64
    }

    open spec fn raw(&self) -> nat {
        if *self < 0 {
            (*self + 0x10000000000000000) as nat
        } else {
            *self as nat
        }
    }

    proof fn lemma_width() {
    }

    fn bit_width() -> (r: u32) {
        64
    }

    fn to_raw(&self) -> (r: u64) {
        proof {
            lemma2_to64();
        }
        if *self < 0 {
            (*self as i128 + 0x10000000000000000) as u64
        } else {
            *self as u64
        }
    }

    fn from_raw(r: u64) -> (v: Self) {
        proof {
            lemma2_to64();
        }
        if r < 0x8000000000000000 {
            r as i64
        } else {
            (r as i128 - 0x10000000000000000) as i64
        }
    }
}

/// A signed integer type that can be a signed field's payload.
pub trait SignedNumeric: Numeric {
    /// The value as an integer.
    spec fn value(&self) -> int;

    fn to_i64(&self) -> (r: i64)
        ensures
            r == self.value(),
            -pow2((Self::width() - 1) as nat) <= r < pow2((Self::width() - 1) as nat),
    ;

    fn from_i64(v: i64) -> (r: Self)
        requires
            -pow2((Self::width() - 1) as nat) <= v < pow2((Self::width() - 1) as nat),
        ensures
            r.value() == v,
    ;
}

impl SignedNumeric for i8 {
    open spec fn value(&self) -> int {
        *self as int
    }

    fn to_i64(&self) -> (r: i64) {
        proof {
            lemma2_to64();
        }
        *self as i64
    }

    fn from_i64(v: i64) -> (r: Self) {
        proof {
            lemma2_to64();
        }
        v as i8
    }
}

impl SignedNumeric for i16 {
    open spec fn value(&self) -> int {
        *self as int
    }

    fn to_i64(&self) -> (r: i64) {
        proof {
            lemma2_to64();
        }
        *self as i64
    }

    fn from_i64(v: i64) -> (r: Self) {
        proof {
            lemma2_to64();
        }
        v as i16
    }
}

impl SignedNumeric for i32 {
    open spec fn value(&self) -> int {
        *self as int
    }

    fn to_i64(&self) -> (r: i64) {
        proof {
            lemma2_to64();
        }
        *self as i64
    }

    fn from_i64(v: i64) -> (r: Self) {
        proof {
            lemma2_to64();
        }
        v as i32
    }
}

impl SignedNumeric for i64 {
    open spec fn value(&self) -> int {
        *self as int
    }

    fn to_i64(&self) -> (r: i64) {
        proof {
            lemma2_to64();
            lemma_pow2_adds(63, 1);
        }
        *self as i64
    }

    fn from_i64(v: i64) -> (r: Self) {
        proof {
            lemma2_to64();
            lemma_pow2_adds(63, 1);
        }
        v as i64
    }
}

} // verus!
