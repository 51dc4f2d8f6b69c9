//! Multiplication by shifts and adds.

use vstd::prelude::*;
use vstd::arithmetic::div_mod::{
    lemma_fundamental_div_mod,
    lemma_fundamental_div_mod_converse,
    lemma_mod_multiples_vanish,
};
use vstd::arithmetic::power2::{pow2, lemma_pow2_unfold, lemma2_to64};

verus! {

/// Two's-complement reduction of an integer to the range of `i64`.
pub open spec fn wrap_i64(v: int) -> int {
    (v + 0x8000_0000_0000_0000) % 0x1_0000_0000_0000_0000 - 0x8000_0000_0000_0000
}

/// The product computed by `multiply`: the low 32 bits of `x`, as an unsigned number,
/// times `y`, reduced to the range of `i64`.
pub open spec fn shift_add_product(x: i64, y: i64) -> int {
    wrap_i64((x as int % 0x1_0000_0000) * (y as int))
}

proof fn lemma_wrap_add(a: int, b: int)
    ensures
        wrap_i64(wrap_i64(a) + wrap_i64(b)) == wrap_i64(a + b),
{
    let m: int = 0x1_0000_0000_0000_0000;
    let k: int = 0x8000_0000_0000_0000;
    let aa = a + k;
    let bb = b + k;
    lemma_fundamental_div_mod(aa, m);
    lemma_fundamental_div_mod(bb, m);
    let x = aa % m + bb % m - k;
    let y = aa + bb - k;
    assert(x == m * (-(aa / m) - (bb / m)) + y) by (nonlinear_arith)
        requires
            aa == m * (aa / m) + aa % m,
            bb == m * (bb / m) + bb % m,
            x == aa % m + bb % m - k,
            y == aa + bb - k,
    ;
    lemma_mod_multiples_vanish(-(aa / m) - (bb / m), y, m);
}

proof fn lemma_wrap_in_range(v: int)
    requires
        i64::MIN <= v <= i64::MAX,
    ensures
        wrap_i64(v) == v,
{
}

proof fn lemma_wrapping_add(x: i64, y: i64)
    ensures
        x.wrapping_add(y) as int == wrap_i64(x + y),
{
    let m: int = 0x1_0000_0000_0000_0000;
    let k: int = 0x8000_0000_0000_0000;
    if x + y > i64::MAX {
        lemma_mod_multiples_vanish(1, x + y - m + k, m);
        lemma_wrap_in_range(x + y - m);
    } else if x + y < i64::MIN {
        lemma_mod_multiples_vanish(-1, x + y + m + k, m);
        lemma_wrap_in_range(x + y + m);
    }
}

/// Multiplies by shifting and adding over the 32 low bits of `x`: for each bit of `x`,
/// from the lowest, `y` (shifted left by the bit's position) is added to the result when
/// the bit is set. The arithmetic wraps in two's complement.
pub fn multiply(x: i64, y: i64) -> (result: i64)
    ensures
        result as int == shift_add_product(x, y),
{
    let ghost x0 = x as int;
    let ghost y0 = y as int;
    let mut x = x;
    let mut y = y;
    let mut result: i64 = 0;
    let ghost mut lo: int = 0;
    proof {
        lemma2_to64();
    }
    for i in 0..32u32
        invariant
            x0 == (x as int) * pow2(i as nat) + lo,
            0 <= lo < pow2(i as nat),
            y as int == wrap_i64(pow2(i as nat) * y0),
            result as int == wrap_i64(lo * y0),
            y0 == wrap_i64(y0),
    {
        let ghost p = pow2(i as nat) as int;
        proof {
            lemma_pow2_unfold((i + 1) as nat);
        }
        let bit = (x & 0x1) == 1;
        proof {
            assert(((x & 1) == 1) == (x % 2 == 1)) by (bit_vector);
            assert((x >> 1u32) == x / 2) by (bit_vector);
        }
        let ghost b: int = if bit { 1 } else { 0 };
        let ghost half = x / 2;
        if bit {
            proof {
                lemma_wrapping_add(result, y);
                lemma_wrap_add(lo * y0, p * y0);
                assert(lo * y0 + p * y0 == (lo + p) * y0) by (nonlinear_arith);
            }
            result = result.wrapping_add(y);
        }
        x >>= 1;
        proof {
            lemma_wrapping_add(y, y);
            lemma_wrap_add(p * y0, p * y0);
            assert(p * y0 + p * y0 == (2 * p) * y0) by (nonlinear_arith);
            assert(x0 == (x as int) * (2 * p) + (lo + b * p)) by (nonlinear_arith)
                requires
                    x0 == (half * 2 + b) * p + lo,
                    x as int == half,
            ;
            lo = lo + b * p;
        }
        y = y.wrapping_add(y);
    }
    proof {
        lemma_fundamental_div_mod_converse(x0, 0x1_0000_0000, x as int, lo);
    }
    result
}

} // verus!
