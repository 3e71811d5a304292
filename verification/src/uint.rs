//! What the codec asks of an unsigned integer type, and the five fixed
//! widths that supply it.

use vstd::prelude::*;
use vstd::arithmetic::power2::{
    lemma2_to64, lemma2_to64_rest, lemma_pow2_adds, lemma_pow2_pos,
    lemma_pow2_strictly_increases, pow2,
};
use vstd::bits::lemma_u128_shr_is_div;

verus! {

/// An unsigned integer type that the codec can write and read.
///
/// The codec is one algorithm over these operations; a width takes part by
/// supplying them. Every contract speaks of the number a value stands for,
/// `value()`, so that nothing in the codec depends on the width.
pub trait UInt: Copy {
    /// The width of the type in bits.
    spec fn bits() -> u32;

    /// The number that `self` stands for.
    spec fn value(self) -> nat;

    /// The type has room for a number.
    proof fn lemma_bits_positive()
        ensures
            Self::bits() > 0,
    ;

    /// Every value stands for a number below `2^bits`.
    proof fn lemma_value_in_range(self)
        ensures
            self.value() < pow2(Self::bits() as nat),
    ;

    /// No two values stand for the same number.
    proof fn lemma_value_is_injective(self, other: Self)
        requires
            self.value() == other.value(),
        ensures
            self == other,
    ;

    /// The value that stands for zero.
    fn zero() -> (z: Self)
        ensures
            z.value() == 0,
    ;

    /// Whether `self` stands for zero.
    fn is_zero(self) -> (b: bool)
        ensures
            b <==> self.value() == 0,
    ;

    /// The low eight bits of `self`.
    fn low_byte(self) -> (b: u8)
        ensures
            b == self.value() % 256,
    ;

    /// `self` shifted right by seven bits.
    fn shr7(self) -> (r: Self)
        ensures
            r.value() == self.value() / 128,
    ;

    /// `self` less one.
    fn minus_one(self) -> (r: Self)
        requires
            self.value() > 0,
        ensures
            r.value() == self.value() - 1,
    ;

    /// `self` plus `byte` shifted left by `shift` bits, or `None` where the
    /// sum is too large for the type.
    fn add_shifted(self, byte: u8, shift: u32) -> (r: Option<Self>)
        ensures
            match r {
                Some(sum) => sum.value() == self.value() + byte * pow2(shift as nat),
                None => self.value() + byte * pow2(shift as nat) >= pow2(Self::bits() as nat),
            },
    ;
}

impl UInt for u8 {
    open spec fn bits() -> u32 {
        8
    }

    open spec fn value(self) -> nat {
        self as nat
    }

    proof fn lemma_bits_positive() {
    }

    proof fn lemma_value_in_range(self) {
        lemma2_to64();
    }

    proof fn lemma_value_is_injective(self, other: Self) {
    }

    fn zero() -> (z: Self) {
        0
    }

    fn is_zero(self) -> (b: bool) {
        self == 0
    }

    fn low_byte(self) -> (b: u8) {
        self
    }

    fn shr7(self) -> (r: Self) {
        assert(self >> 7 == self / 128) by (bit_vector);
        self >> 7
    }

    fn minus_one(self) -> (r: Self) {
        self - 1
    }

    fn add_shifted(self, byte: u8, shift: u32) -> (r: Option<Self>) {
        proof {
            lemma2_to64();
        }
        match add_shifted_wide(self as u128, byte, shift, 0xff) {
            Some(sum) => Some(sum as u8),
            None => None,
        }
    }
}

impl UInt for u16 {
    open spec fn bits() -> u32 {
        16
    }

    open spec fn value(self) -> nat {
        self as nat
    }

    proof fn lemma_bits_positive() {
    }

    proof fn lemma_value_in_range(self) {
        lemma2_to64();
    }

    proof fn lemma_value_is_injective(self, other: Self) {
    }

    fn zero() -> (z: Self) {
        0
    }

    fn is_zero(self) -> (b: bool) {
        self == 0
    }

    fn low_byte(self) -> (b: u8) {
        assert(self & 0xff == self % 256) by (bit_vector);
        (self & 0xff) as u8
    }

    fn shr7(self) -> (r: Self) {
        assert(self >> 7 == self / 128) by (bit_vector);
        self >> 7
    }

    fn minus_one(self) -> (r: Self) {
        self - 1
    }

    fn add_shifted(self, byte: u8, shift: u32) -> (r: Option<Self>) {
        proof {
            lemma2_to64();
        }
        match add_shifted_wide(self as u128, byte, shift, 0xffff) {
            Some(sum) => Some(sum as u16),
            None => None,
        }
    }
}

impl UInt for u32 {
    open spec fn bits() -> u32 {
        32
    }

    open spec fn value(self) -> nat {
        self as nat
    }

    proof fn lemma_bits_positive() {
    }

    proof fn lemma_value_in_range(self) {
        lemma2_to64();
    }

    proof fn lemma_value_is_injective(self, other: Self) {
    }

    fn zero() -> (z: Self) {
        0
    }

    fn is_zero(self) -> (b: bool) {
        self == 0
    }

    fn low_byte(self) -> (b: u8) {
        assert(self & 0xff == self % 256) by (bit_vector);
        (self & 0xff) as u8
    }

    fn shr7(self) -> (r: Self) {
        assert(self >> 7 == self / 128) by (bit_vector);
        self >> 7
    }

    fn minus_one(self) -> (r: Self) {
        self - 1
    }

    fn add_shifted(self, byte: u8, shift: u32) -> (r: Option<Self>) {
        proof {
            lemma2_to64();
        }
        match add_shifted_wide(self as u128, byte, shift, 0xffff_ffff) {
            Some(sum) => Some(sum as u32),
            None => None,
        }
    }
}

impl UInt for u64 {
    open spec fn bits() -> u32 {
        64
    }

    open spec fn value(self) -> nat {
        self as nat
    }

    proof fn lemma_bits_positive() {
    }

    proof fn lemma_value_in_range(self) {
        lemma2_to64_rest();
    }

    proof fn lemma_value_is_injective(self, other: Self) {
    }

    fn zero() -> (z: Self) {
        0
    }

    fn is_zero(self) -> (b: bool) {
        self == 0
    }

    fn low_byte(self) -> (b: u8) {
        assert(self & 0xff == self % 256) by (bit_vector);
        (self & 0xff) as u8
    }

    fn shr7(self) -> (r: Self) {
        assert(self >> 7 == self / 128) by (bit_vector);
        self >> 7
    }

    fn minus_one(self) -> (r: Self) {
        self - 1
    }

    fn add_shifted(self, byte: u8, shift: u32) -> (r: Option<Self>) {
        proof {
            lemma2_to64_rest();
        }
        match add_shifted_wide(self as u128, byte, shift, 0xffff_ffff_ffff_ffff) {
            Some(sum) => Some(sum as u64),
            None => None,
        }
    }
}

impl UInt for u128 {
    open spec fn bits() -> u32 {
        128
    }

    open spec fn value(self) -> nat {
        self as nat
    }

    proof fn lemma_bits_positive() {
    }

    proof fn lemma_value_in_range(self) {
        lemma_pow2_fits(128);
    }

    proof fn lemma_value_is_injective(self, other: Self) {
    }

    fn zero() -> (z: Self) {
        0
    }

    fn is_zero(self) -> (b: bool) {
        self == 0
    }

    fn low_byte(self) -> (b: u8) {
        assert(self & 0xff == self % 256) by (bit_vector);
        (self & 0xff) as u8
    }

    fn shr7(self) -> (r: Self) {
        assert(self >> 7 == self / 128) by (bit_vector);
        self >> 7
    }

    fn minus_one(self) -> (r: Self) {
        self - 1
    }

    fn add_shifted(self, byte: u8, shift: u32) -> (r: Option<Self>) {
        proof {
            lemma_pow2_fits(128);
        }
        match add_shifted_wide(self, byte, shift, u128::MAX) {
            Some(sum) => Some(sum),
            None => None,
        }
    }
}

/// `2^n` is within a `u128` for `n` up to 127, and above it from 128 on.
proof fn lemma_pow2_fits(n: nat)
    ensures
        n < 128 ==> pow2(n) <= 0x8000_0000_0000_0000_0000_0000_0000_0000,
        n >= 128 ==> pow2(n) > u128::MAX,
        n == 128 ==> pow2(n) == u128::MAX + 1,
{
    lemma2_to64();
    lemma2_to64_rest();
    lemma_pow2_adds(64, 63);
    lemma_pow2_adds(64, 64);
    assert(pow2(127) == 0x8000_0000_0000_0000_0000_0000_0000_0000);
    assert(pow2(128) == 0x1_0000_0000_0000_0000_0000_0000_0000_0000);
    if n < 127 {
        lemma_pow2_strictly_increases(n, 127);
    }
    if n > 128 {
        lemma_pow2_strictly_increases(128, n);
    }
}

/// Shifting left by `shift` bits multiplies by `2^shift`, as long as the
/// product is within the type.
proof fn lemma_shl_is_mul(x: u128, shift: u32)
    requires
        shift < 128,
        x * pow2(shift as nat) <= u128::MAX,
    ensures
        x << shift == x * pow2(shift as nat),
    decreases shift,
{
    lemma2_to64();
    if shift == 0 {
        assert(x << 0u32 == x) by (bit_vector);
        assert(x * pow2(0) == x);
    } else {
        let less: u32 = (shift - 1) as u32;
        lemma_pow2_adds(less as nat, 1);
        lemma_pow2_pos(less as nat);
        assert(x * pow2(shift as nat) == 2 * (x * pow2(less as nat))) by (nonlinear_arith)
            requires
                pow2(shift as nat) == pow2(less as nat) * 2,
        ;
        lemma_shl_is_mul(x, less);
        let half: u128 = x << less;
        assert(x << shift == half * 2) by (bit_vector)
            requires
                0 < shift < 128,
                less == shift - 1,
                half == x << less,
                half <= 0x7fff_ffff_ffff_ffff_ffff_ffff_ffff_ffffu128,
        ;
    }
}

/// `acc` plus `byte` shifted left by `shift` bits, or `None` where the sum is
/// above `max`.
fn add_shifted_wide(acc: u128, byte: u8, shift: u32, max: u128) -> (r: Option<u128>)
    requires
        acc <= max,
    ensures
        match r {
            Some(sum) => sum == acc + byte * pow2(shift as nat) && sum <= max,
            None => acc + byte * pow2(shift as nat) > max,
        },
{
    if byte == 0 {
        assert(byte * pow2(shift as nat) == 0) by (nonlinear_arith)
            requires
                byte == 0,
        ;
        return Some(acc);
    }
    if shift >= 128 {
        proof {
            lemma_pow2_fits(shift as nat);
            assert(byte * pow2(shift as nat) >= pow2(shift as nat)) by (nonlinear_arith)
                requires
                    byte >= 1,
            ;
        }
        return None;
    }
    let wide: u128 = byte as u128;
    let room: u128 = u128::MAX >> shift;
    proof {
        lemma_pow2_pos(shift as nat);
        lemma_pow2_fits(shift as nat);
        let p: u128 = pow2(shift as nat) as u128;
        assert(u128::MAX >> shift == u128::MAX / p) by {
            lemma_u128_shr_is_div(u128::MAX, shift as u128);
            assert(u128::MAX >> shift == u128::MAX >> (shift as u128)) by (bit_vector)
                requires
                    shift < 128,
            ;
        }
        assert(wide <= room <==> wide * p <= u128::MAX) by (nonlinear_arith)
            requires
                room == u128::MAX / p,
                p > 0,
        ;
    }
    if wide > room {
        return None;
    }
    proof {
        lemma_shl_is_mul(wide, shift);
    }
    let term: u128 = wide << shift;
    match acc.checked_add(term) {
        Some(sum) => if sum <= max {
            Some(sum)
        } else {
            None
        },
        None => None,
    }
}

} // verus!
