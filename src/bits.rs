use vstd::arithmetic::div_mod::{lemma_div_denominator, lemma_mod_breakdown};
use vstd::arithmetic::power2::{lemma_pow2_adds, lemma_pow2_pos, pow2};
use vstd::prelude::*;

verus! {

/// Where within a byte the next bit is placed or read.
#[derive(PartialEq, Eq, Structural, Clone, Copy, Debug)]
pub enum BitOrder {
    /// The first bit of a byte is its most significant one.
    MsbFirst,
    /// The first bit of a byte is its least significant one.
    LsbFirst,
}

/// The failures of a bit-level operation.
#[derive(PartialEq, Eq, Structural, Clone, Copy, Debug)]
pub enum BitError {
    /// The source holds fewer bits than the operation needs.
    EndOfStream,
    /// A bit count is out of the legal range for the operation.
    InvalidArgument,
}

/// Bit `j` (0 is the least significant) of a byte.
pub open spec fn byte_bit(b: u8, j: int) -> bool {
    ((b >> (j as u8)) & 1u8) == 1u8
}

/// The eight bits of a byte in the order in which they are emitted or read.
pub open spec fn byte_seq(b: u8, order: BitOrder) -> Seq<bool> {
    Seq::new(8, |i: int| byte_bit(b, if order == BitOrder::MsbFirst { 7 - i } else { i }))
}

/// The bits of a byte sequence, byte after byte.
pub open spec fn bytes_seq(s: Seq<u8>, order: BitOrder) -> Seq<bool>
    decreases s.len(),
{
    if s.len() == 0 {
        Seq::empty()
    } else {
        byte_seq(s[0], order) + bytes_seq(s.skip(1), order)
    }
}

/// Bit `k` (0 is the least significant) of a natural number.
pub open spec fn nat_bit(v: nat, k: nat) -> bool {
    (v / pow2(k)) % 2 == 1
}

/// The low `n` bits of `v` in emission order: from bit `n - 1` down to bit 0
/// for `MsbFirst`, from bit 0 up to bit `n - 1` for `LsbFirst`.
pub open spec fn field_seq(order: BitOrder, n: nat, v: nat) -> Seq<bool> {
    Seq::new(n, |i: int| nat_bit(v, if order == BitOrder::MsbFirst { (n - 1 - i) as nat } else { i as nat }))
}

/// The number whose bits are `s`, the first bit being the most significant.
pub open spec fn msb_value(s: Seq<bool>) -> nat
    decreases s.len(),
{
    if s.len() == 0 {
        0
    } else {
        2 * msb_value(s.drop_last()) + if s.last() { 1nat } else { 0nat }
    }
}

/// The number whose bits are `s`, the first bit being the least significant.
pub open spec fn lsb_value(s: Seq<bool>) -> nat
    decreases s.len(),
{
    if s.len() == 0 {
        0
    } else {
        lsb_value(s.drop_last()) + if s.last() { pow2((s.len() - 1) as nat) } else { 0nat }
    }
}

/// The number that a field of bits `s` holds under `order`.
pub open spec fn field_value(order: BitOrder, s: Seq<bool>) -> nat {
    if order == BitOrder::MsbFirst {
        msb_value(s)
    } else {
        lsb_value(s)
    }
}

/// The value of a signed field: a sign flag and a magnitude of `n - 1` bits.
pub open spec fn signed_value(n: nat, sign: bool, magnitude: nat) -> int {
    if sign {
        magnitude - pow2((n - 1) as nat)
    } else {
        magnitude as int
    }
}

/// The sign flag and the magnitude that encode `v` in a signed field of `n` bits.
pub open spec fn signed_seq(order: BitOrder, n: nat, v: int) -> Seq<bool> {
    if v >= 0 {
        seq![false] + field_seq(order, (n - 1) as nat, v as nat)
    } else {
        seq![true] + field_seq(order, (n - 1) as nat, (v + pow2((n - 1) as nat)) as nat)
    }
}

/// A unary code: `n` copies of `b` and one `!b` that ends them.
pub open spec fn unary_seq(n: nat, b: bool) -> Seq<bool> {
    Seq::new(n + 1, |i: int| if i < n { b } else { !b })
}

/// The number of bits from a count of `n` bits to the next byte boundary.
pub open spec fn align_pad(n: int) -> int {
    (8 - n % 8) % 8
}

/// Setting bit `p` of a byte changes bit `p` alone.
pub proof fn lemma_set_bit(b: u8, p: u8, j: u8)
    requires
        p < 8,
        j < 8,
    ensures
        ((b | (1u8 << p)) >> j) & 1u8 == if j == p { 1u8 } else { (b >> j) & 1u8 },
{
    assert(((b | (1u8 << p)) >> j) & 1u8 == if j == p { 1u8 } else { (b >> j) & 1u8 }) by (bit_vector)
        requires
            p < 8,
            j < 8,
    ;
}

/// The zero byte has no bit set.
pub proof fn lemma_zero_byte(order: BitOrder)
    ensures
        forall|i: int| 0 <= i < 8 ==> !#[trigger] byte_seq(0u8, order)[i],
{
    assert forall|i: int| 0 <= i < 8 implies !#[trigger] byte_seq(0u8, order)[i] by {
        let j: u8 = (if order == BitOrder::MsbFirst { 7 - i } else { i }) as u8;
        assert(((0u8 >> j) & 1u8) == 0u8) by (bit_vector);
    }
}

/// Appending a byte appends its eight bits.
pub proof fn lemma_bytes_push(s: Seq<u8>, b: u8, order: BitOrder)
    ensures
        bytes_seq(s.push(b), order) == bytes_seq(s, order) + byte_seq(b, order),
    decreases s.len(),
{
    if s.len() == 0 {
        assert(s.push(b).skip(1) =~= Seq::<u8>::empty());
        assert(bytes_seq(s.push(b).skip(1), order) =~= Seq::<bool>::empty());
        assert(bytes_seq(s.push(b), order) =~= byte_seq(b, order));
        assert(bytes_seq(s, order) =~= Seq::<bool>::empty());
    } else {
        assert(s.push(b).skip(1) =~= s.skip(1).push(b));
        lemma_bytes_push(s.skip(1), b, order);
        assert(bytes_seq(s.push(b), order) =~= bytes_seq(s, order) + byte_seq(b, order));
    }
}

/// The bits of a sequence of bytes are eight for each byte.
pub proof fn lemma_bytes_len(s: Seq<u8>, order: BitOrder)
    ensures
        bytes_seq(s, order).len() == 8 * s.len(),
    decreases s.len(),
{
    if s.len() > 0 {
        lemma_bytes_len(s.skip(1), order);
    }
}

/// The bits of `v` above bit 0 are those of `v / 2`.
proof fn lemma_nat_bit_half(v: nat, k: nat)
    ensures
        nat_bit(v, k + 1) == nat_bit(v / 2, k),
{
    lemma_pow2_adds(1, k);
    lemma_pow2_pos(k);
    assert(pow2(1) == 2) by {
        vstd::arithmetic::power2::lemma2_to64();
    }
    lemma_div_denominator(v as int, 2, pow2(k) as int);
    assert(pow2(k + 1) == 2 * pow2(k));
}

/// An `MsbFirst` field of `n` bits of `v` holds `v` modulo `2^n`.
proof fn lemma_msb_field(v: nat, n: nat)
    ensures
        msb_value(field_seq(BitOrder::MsbFirst, n, v)) == v % pow2(n),
    decreases n,
{
    vstd::arithmetic::power2::lemma2_to64();
    if n == 0 {
        assert(v % 1 == 0);
    } else {
        let s = field_seq(BitOrder::MsbFirst, n, v);
        let t = field_seq(BitOrder::MsbFirst, (n - 1) as nat, v / 2);
        assert forall|i: int| 0 <= i < n - 1 implies #[trigger] s.drop_last()[i] == t[i] by {
            lemma_nat_bit_half(v, (n - 2 - i) as nat);
        }
        assert(s.drop_last() =~= t);
        lemma_msb_field(v / 2, (n - 1) as nat);
        assert(nat_bit(v, 0) == (v % 2 == 1));
        lemma_pow2_adds(1, (n - 1) as nat);
        lemma_pow2_pos((n - 1) as nat);
        lemma_mod_breakdown(v as int, 2, pow2((n - 1) as nat) as int);
    }
}

/// An `LsbFirst` field of `n` bits of `v` holds `v` modulo `2^n`.
proof fn lemma_lsb_field(v: nat, n: nat)
    ensures
        lsb_value(field_seq(BitOrder::LsbFirst, n, v)) == v % pow2(n),
    decreases n,
{
    vstd::arithmetic::power2::lemma2_to64();
    if n == 0 {
        assert(v % 1 == 0);
    } else {
        let s = field_seq(BitOrder::LsbFirst, n, v);
        assert(s.drop_last() =~= field_seq(BitOrder::LsbFirst, (n - 1) as nat, v));
        lemma_lsb_field(v, (n - 1) as nat);
        let p = pow2((n - 1) as nat);
        lemma_pow2_adds((n - 1) as nat, 1);
        lemma_pow2_pos((n - 1) as nat);
        lemma_mod_breakdown(v as int, p as int, 2);
        assert((v / p) % 2 == 0 || (v / p) % 2 == 1);
    }
}

/// A field of `n` bits of `v` holds `v` modulo `2^n`, whatever the order.
pub proof fn lemma_field_value(order: BitOrder, n: nat, v: nat)
    ensures
        field_value(order, field_seq(order, n, v)) == v % pow2(n),
{
    if order == BitOrder::MsbFirst {
        lemma_msb_field(v, n);
    } else {
        lemma_lsb_field(v, n);
    }
}

/// A field of `n` bits holds a number below `2^n`.
pub proof fn lemma_field_value_bound(order: BitOrder, s: Seq<bool>)
    ensures
        field_value(order, s) < pow2(s.len()),
    decreases s.len(),
{
    vstd::arithmetic::power2::lemma2_to64();
    if s.len() > 0 {
        lemma_field_value_bound(order, s.drop_last());
        lemma_pow2_adds((s.len() - 1) as nat, 1);
        if order == BitOrder::LsbFirst {
            lemma_lsb_bound(s);
        }
    }
}

proof fn lemma_lsb_bound(s: Seq<bool>)
    ensures
        lsb_value(s) < pow2(s.len()),
    decreases s.len(),
{
    vstd::arithmetic::power2::lemma2_to64();
    if s.len() > 0 {
        lemma_lsb_bound(s.drop_last());
        lemma_pow2_adds((s.len() - 1) as nat, 1);
    }
}

} // verus!
