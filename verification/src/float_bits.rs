//! Bit patterns of IEEE 754 numbers.
//!
//! Numbers are carried as their bit patterns: sign, then exponent, then fraction. What matters here
//! can be read off the pattern: whether a number is finite, whether it is zero, which of two is less.
use vstd::arithmetic::power2::{lemma_pow2_adds, lemma_pow2_pos, pow2};
use vstd::prelude::*;

verus! {

/// Whether a single-precision pattern stands for a finite number.
pub open spec fn finite_f32(bits: u32) -> bool {
    bits / 0x80_0000 % 256 != 255
}

/// Whether a single-precision pattern stands for zero, of either sign.
pub open spec fn zero_f32(bits: u32) -> bool {
    bits % 0x8000_0000 == 0
}

/// Whether a double-precision pattern stands for no number.
pub open spec fn nan_f64(bits: u64) -> bool {
    bits % 0x8000_0000_0000_0000 > 0x7ff0_0000_0000_0000
}

/// The exponent field of a double-precision pattern.
pub open spec fn exponent_f64(bits: u64) -> nat {
    (bits % 0x8000_0000_0000_0000 / 0x10_0000_0000_0000) as nat
}

/// The fraction field of a double-precision pattern.
pub open spec fn fraction_f64(bits: u64) -> nat {
    (bits % 0x10_0000_0000_0000) as nat
}

/// The magnitude that a double-precision pattern stands for, in units of the smallest positive number
/// halved. An infinity stands above every finite number.
pub open spec fn magnitude_f64(bits: u64) -> nat {
    if exponent_f64(bits) == 0 {
        fraction_f64(bits) * pow2(1)
    } else {
        (0x10_0000_0000_0000 + fraction_f64(bits)) * pow2(exponent_f64(bits))
    }
}

/// The number that a double-precision pattern stands for, in the same units.
pub open spec fn value_f64(bits: u64) -> int {
    if bits < 0x8000_0000_0000_0000 {
        magnitude_f64(bits) as int
    } else {
        -(magnitude_f64(bits) as int)
    }
}

/// A small number that orders double-precision patterns as their values do.
pub open spec fn order_key(bits: u64) -> int {
    if bits < 0x8000_0000_0000_0000 {
        bits as int
    } else {
        -(bits - 0x8000_0000_0000_0000)
    }
}

/// Whether a single-precision pattern stands for a finite number.
pub fn is_finite_f32(bits: u32) -> (r: bool)
    ensures
        r == finite_f32(bits),
{
    bits / 0x80_0000 % 256 != 255
}

/// Whether a single-precision pattern stands for zero.
pub fn is_zero_f32(bits: u32) -> (r: bool)
    ensures
        r == zero_f32(bits),
{
    bits % 0x8000_0000 == 0
}

/// Whether a double-precision pattern stands for no number.
pub fn is_nan_f64(bits: u64) -> (r: bool)
    ensures
        r == nan_f64(bits),
{
    bits % 0x8000_0000_0000_0000 > 0x7ff0_0000_0000_0000
}

/// Whether every pattern stands for a finite number, and which is the first that does not.
pub open spec fn all_finite(values: Seq<u32>) -> bool {
    forall|i: int| 0 <= i < values.len() ==> finite_f32(#[trigger] values[i])
}

/// The first position whose number is not finite.
pub open spec fn first_infinite(values: Seq<u32>) -> Option<int>
    decreases values.len(),
{
    if values.len() == 0 {
        None
    } else {
        match first_infinite(values.drop_last()) {
            Some(i) => Some(i),
            None => if finite_f32(values.last()) {
                None
            } else {
                Some(values.len() - 1)
            },
        }
    }
}

/// The first position whose number is not finite.
pub fn find_infinite(values: &[u32]) -> (r: Option<usize>)
    ensures
        match first_infinite(values@) {
            Some(i) => r == Some(i as usize) && r->0 == i && 0 <= i < values@.len() && !finite_f32(
                values@[i],
            ),
            None => r is None && all_finite(values@),
        },
{
    let mut i: usize = 0;
    while i < values.len()
        invariant
            i <= values@.len(),
            first_infinite(values@.take(i as int)) is None,
            all_finite(values@.take(i as int)),
        decreases values@.len() - i,
    {
        proof {
            assert(values@.take(i + 1).drop_last() =~= values@.take(i as int));
            assert(values@.take(i + 1).last() == values@[i as int]);
        }
        if !is_finite_f32(values[i]) {
            proof {
                lemma_first_infinite_prefix(values@, (i + 1) as nat);
            }
            return Some(i);
        }
        proof {
            assert forall|j: int| 0 <= j < i + 1 implies finite_f32(
                #[trigger] values@.take(i + 1)[j],
            ) by {
                if j < i {
                    assert(values@.take(i as int)[j] == values@[j]);
                }
            }
        }
        i += 1;
    }
    assert(values@.take(i as int) =~= values@);
    None
}

proof fn lemma_first_infinite_prefix(values: Seq<u32>, k: nat)
    requires
        k <= values.len(),
        first_infinite(values.take(k as int)) is Some,
    ensures
        first_infinite(values) == first_infinite(values.take(k as int)),
    decreases values.len(),
{
    if k < values.len() {
        assert(values.drop_last().take(k as int) =~= values.take(k as int));
        lemma_first_infinite_prefix(values.drop_last(), k);
    } else {
        assert(values.take(k as int) =~= values);
    }
}

proof fn lemma_magnitude_order(a: u64, b: u64)
    requires
        a < b < 0x8000_0000_0000_0000,
    ensures
        magnitude_f64(a) < magnitude_f64(b),
{
    let ea = exponent_f64(a);
    let eb = exponent_f64(b);
    let fa = fraction_f64(a);
    let fb = fraction_f64(b);
    assert(a == ea * 0x10_0000_0000_0000 + fa);
    assert(b == eb * 0x10_0000_0000_0000 + fb);
    assert(ea <= eb);
    lemma_pow2_pos(1);
    lemma_pow2_pos(ea);
    lemma_pow2_pos(eb);
    if ea == eb {
        if ea == 0 {
            assert(fa * pow2(1) < fb * pow2(1)) by (nonlinear_arith)
                requires
                    fa < fb,
                    pow2(1) > 0,
            ;
        } else {
            let x = 0x10_0000_0000_0000 + fa;
            let y = 0x10_0000_0000_0000 + fb;
            assert(x * pow2(ea) < y * pow2(ea)) by (nonlinear_arith)
                requires
                    x < y,
                    pow2(ea) > 0,
            ;
        }
    } else {
        let y = 0x10_0000_0000_0000 + fb;
        if ea == 0 {
            lemma_pow2_adds(1, (eb - 1) as nat);
            lemma_pow2_pos((eb - 1) as nat);
            let p = pow2(1);
            let q = pow2((eb - 1) as nat);
            assert(fa * p < y * (p * q)) by (nonlinear_arith)
                requires
                    fa < y,
                    p > 0,
                    q > 0,
                    fa >= 0,
            ;
        } else {
            let x = 0x10_0000_0000_0000 + fa;
            lemma_pow2_adds(ea, (eb - ea) as nat);
            lemma_pow2_adds(1, (eb - ea - 1) as nat);
            lemma_pow2_pos((eb - ea - 1) as nat);
            vstd::arithmetic::power2::lemma2_to64();
            let p = pow2(ea);
            let q = pow2((eb - ea) as nat);
            let r = pow2((eb - ea - 1) as nat);
            assert(q == 2 * r);
            assert(q >= 2);
            assert(x * p < y * (p * q)) by (nonlinear_arith)
                requires
                    x < 2 * y,
                    p > 0,
                    q >= 2,
                    y > 0,
            ;
        }
    }
}

/// The keys order patterns exactly as the numbers that they stand for, and patterns of the same number,
/// such as the two zeros, have the same key.
pub proof fn keys_order_as_values(a: u64, b: u64)
    ensures
        order_key(a) < order_key(b) <==> value_f64(a) < value_f64(b),
        order_key(a) == order_key(b) <==> value_f64(a) == value_f64(b),
{
    let x = (a % 0x8000_0000_0000_0000) as u64;
    let y = (b % 0x8000_0000_0000_0000) as u64;
    assert(magnitude_f64(a) == magnitude_f64(x));
    assert(magnitude_f64(b) == magnitude_f64(y));
    if x < y {
        lemma_magnitude_order(x, y);
    } else if y < x {
        lemma_magnitude_order(y, x);
    }
    lemma_zero_magnitude(x);
    lemma_zero_magnitude(y);
}

proof fn lemma_zero_magnitude(x: u64)
    requires
        x < 0x8000_0000_0000_0000,
    ensures
        (magnitude_f64(x) == 0) == (x == 0),
{
    assert(magnitude_f64(0) == 0) by {
        assert(exponent_f64(0) == 0 && fraction_f64(0) == 0);
        assert(0 * pow2(1) == 0) by (nonlinear_arith);
    }
    if x > 0 {
        lemma_magnitude_order(0, x);
    }
}

/// Only two patterns stand for zero: all bits clear, and the sign bit alone.
pub proof fn two_patterns_are_zero(bits: u32, r: bool)
    requires
        call_ensures(is_zero_f32, (bits,), r),
    ensures
        r <==> bits == 0 || bits == 0x8000_0000,
        zero_f32(bits) <==> bits == 0 || bits == 0x8000_0000,
{
}

/// The finite patterns are those below the infinity of their sign.
pub proof fn patterns_below_infinity_are_finite(bits: u32, r: bool)
    requires
        call_ensures(is_finite_f32, (bits,), r),
    ensures
        r <==> bits < 0x7f80_0000 || 0x8000_0000 <= bits < 0xff80_0000,
        finite_f32(bits) <==> bits < 0x7f80_0000 || 0x8000_0000 <= bits < 0xff80_0000,
{
    lemma_finite(bits);
}

/// The finite patterns are those below the infinity of their sign.
pub proof fn lemma_finite(bits: u32)
    ensures
        finite_f32(bits) <==> bits < 0x7f80_0000 || 0x8000_0000 <= bits < 0xff80_0000,
        finite_f32(bits) <==> bits % 0x8000_0000 < 0x7f80_0000,
{
    let e = bits / 0x80_0000;
    assert(e < 512);
    assert(e % 256 == 255 <==> e == 255 || e == 511);
    assert(e == 255 <==> 0x7f80_0000 <= bits < 0x8000_0000);
    assert(e == 511 <==> 0xff80_0000 <= bits);
}

/// The patterns of no number are those above the infinity of their sign.
pub proof fn patterns_above_infinity_are_no_numbers(bits: u64, r: bool)
    requires
        call_ensures(is_nan_f64, (bits,), r),
    ensures
        r <==> 0x7ff0_0000_0000_0000 < bits < 0x8000_0000_0000_0000 || bits > 0xfff0_0000_0000_0000,
        nan_f64(bits) <==> 0x7ff0_0000_0000_0000 < bits < 0x8000_0000_0000_0000 || bits
            > 0xfff0_0000_0000_0000,
{
}

/// The position that is found is the first at or above an infinity, and none is found only where there
/// is none.
pub proof fn the_first_infinity_is_found(values: &[u32], r: Option<usize>)
    requires
        call_ensures(find_infinite, (values,), r),
    ensures
        r matches Some(i) ==> {
            &&& i < values@.len()
            &&& values@[i as int] % 0x8000_0000 >= 0x7f80_0000
            &&& forall|j: int| 0 <= j < i ==> #[trigger] values@[j] % 0x8000_0000 < 0x7f80_0000
        },
        r is None ==> forall|j: int|
            0 <= j < values@.len() ==> #[trigger] values@[j] % 0x8000_0000 < 0x7f80_0000,
{
    lemma_first_infinite(values@);
    assert forall|j: int| 0 <= j < values@.len() implies (#[trigger] finite_f32(values@[j])
        <==> values@[j] % 0x8000_0000 < 0x7f80_0000) by {
        lemma_finite(values@[j]);
    }
    if let Some(i) = r {
        assert(first_infinite(values@) is Some);
        assert(first_infinite(values@)->0 == i);
        lemma_finite(values@[i as int]);
        assert(values@[i as int] % 0x8000_0000 >= 0x7f80_0000);
        assert forall|j: int| 0 <= j < i implies #[trigger] values@[j] % 0x8000_0000
            < 0x7f80_0000 by {
            assert(finite_f32(values@[j]));
        }
    } else {
        assert forall|j: int| 0 <= j < values@.len() implies #[trigger] values@[j] % 0x8000_0000
            < 0x7f80_0000 by {
            assert(finite_f32(values@[j]));
        }
    }
}

/// A first position that is not finite is not finite, and all positions before it are.
pub proof fn lemma_first_infinite(values: Seq<u32>)
    ensures
        match first_infinite(values) {
            Some(i) => 0 <= i < values.len() && !finite_f32(values[i]) && forall|j: int|
                0 <= j < i ==> finite_f32(#[trigger] values[j]),
            None => all_finite(values),
        },
    decreases values.len(),
{
    if values.len() > 0 {
        let head = values.drop_last();
        lemma_first_infinite(head);
        if let Some(i) = first_infinite(head) {
            assert(head[i] == values[i]);
            assert forall|j: int| 0 <= j < i implies finite_f32(#[trigger] values[j]) by {
                assert(finite_f32(head[j]));
            }
        } else {
            assert forall|j: int| 0 <= j < head.len() implies finite_f32(#[trigger] values[j]) by {
                assert(finite_f32(head[j]));
            }
        }
    }
}

/// The numbers that patterns stand for: without the sign bit a larger pattern is a larger number, the
/// sign bit turns a number into its opposite, no bit is zero, and one more in the exponent doubles a
/// normal number.
pub proof fn patterns_stand_for_signed_numbers(a: u64, b: u64)
    requires
        a < 0x8000_0000_0000_0000,
        b < 0x8000_0000_0000_0000,
    ensures
        a < b <==> value_f64(a) < value_f64(b),
        value_f64((a + 0x8000_0000_0000_0000) as u64) == -value_f64(a),
        value_f64(0) == 0,
        0x10_0000_0000_0000 <= a < 0x7fe0_0000_0000_0000 ==> value_f64(
            (a + 0x10_0000_0000_0000) as u64,
        ) == 2 * value_f64(a),
{
    if a < b {
        lemma_magnitude_order(a, b);
    } else if b < a {
        lemma_magnitude_order(b, a);
    }
    lemma_zero_magnitude(0);
    let c = (a + 0x8000_0000_0000_0000) as u64;
    assert(c % 0x8000_0000_0000_0000 == a);
    assert(exponent_f64(c) == exponent_f64(a));
    assert(fraction_f64(c) == fraction_f64(a));
    if 0x10_0000_0000_0000 <= a < 0x7fe0_0000_0000_0000 {
        let d = (a + 0x10_0000_0000_0000) as u64;
        let e = exponent_f64(a);
        assert(exponent_f64(d) == e + 1);
        assert(fraction_f64(d) == fraction_f64(a));
        lemma_pow2_adds(e, 1);
        vstd::arithmetic::power2::lemma2_to64();
        let x = 0x10_0000_0000_0000 + fraction_f64(a);
        assert(x * (pow2(e) * 2) == 2 * (x * pow2(e))) by (nonlinear_arith);
    }
}

} // verus!
