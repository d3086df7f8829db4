use crate::bits::{
    align_pad, field_seq, field_value, lemma_field_value, signed_seq, signed_value, unary_seq, BitOrder,
};
use vstd::arithmetic::power2::pow2;
use vstd::prelude::*;

verus! {

/// A field of `w` bits holding `v < 2^w`, written under an order, reads back
/// under the same order as `v`, whatever bits follow it.
pub proof fn lemma_round_trip_unsigned(order: BitOrder, w: nat, v: nat, rest: Seq<bool>)
    requires
        1 <= w <= 64,
        v < pow2(w),
    ensures
        (field_seq(order, w, v) + rest).len() >= w,
        field_value(order, (field_seq(order, w, v) + rest).take(w as int)) == v,
{
    assert((field_seq(order, w, v) + rest).take(w as int) =~= field_seq(order, w, v));
    lemma_field_value(order, w, v);
    vstd::arithmetic::div_mod::lemma_small_mod(v, pow2(w));
}

/// A signed field of `w` bits holding `-2^(w-1) <= v < 2^(w-1)`, written
/// under an order, reads back under the same order as `v`, whatever bits
/// follow it.
pub proof fn lemma_round_trip_signed(order: BitOrder, w: nat, v: int, rest: Seq<bool>)
    requires
        2 <= w <= 64,
        -pow2((w - 1) as nat) <= v < pow2((w - 1) as nat),
    ensures
        ({
            let s = signed_seq(order, w, v) + rest;
            &&& s.len() >= w
            &&& signed_value(w, s[0], field_value(order, s.subrange(1, w as int))) == v
        }),
{
    let s = signed_seq(order, w, v) + rest;
    let m: nat = if v >= 0 { v as nat } else { (v + pow2((w - 1) as nat)) as nat };
    assert(s.subrange(1, w as int) =~= field_seq(order, (w - 1) as nat, m));
    lemma_field_value(order, (w - 1) as nat, m);
    vstd::arithmetic::div_mod::lemma_small_mod(m, pow2((w - 1) as nat));
}

/// A unary code of `n` read back counts `n`: a reader that stops at the first
/// bit that differs from `b` finds that bit at index `n` and not before.
pub proof fn lemma_round_trip_unary(n: nat, b: bool, rest: Seq<bool>)
    ensures
        ({
            let s = unary_seq(n, b) + rest;
            &&& n < s.len()
            &&& s[n as int] != b
            &&& forall|i: int| 0 <= i < n ==> s[i] == b
            &&& s.take(n + 1int) == unary_seq(n, b)
        }),
{
    let s = unary_seq(n, b) + rest;
    assert(s.take(n + 1int) =~= unary_seq(n, b));
}

/// A unary reader's result is the only count that the code it read allows.
pub proof fn lemma_unary_unique(n: nat, m: nat, b: bool, rest: Seq<bool>)
    requires
        m < (unary_seq(n, b) + rest).len(),
        (unary_seq(n, b) + rest).take(m + 1int) == unary_seq(m, b),
    ensures
        m == n,
{
    let s = unary_seq(n, b) + rest;
    if m < n {
        assert(s.take(m + 1int)[m as int] == unary_seq(m, b)[m as int]);
    } else if m > n {
        assert(s.take(m + 1int)[n as int] == unary_seq(m, b)[n as int]);
    }
}

/// Aligning a count of bits that is already aligned moves it no further, so a
/// second alignment does nothing.
pub proof fn lemma_align_idempotent(n: int)
    requires
        n >= 0,
    ensures
        (n + align_pad(n)) % 8 == 0,
        align_pad(n + align_pad(n)) == 0,
{
}

} // verus!
