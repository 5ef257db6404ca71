//! Two's complement arithmetic on `i64`, stated over the integers.
//!
//! Sums and products that wrap around form a ring. The lemmas here reduce
//! equations between wrapped values to congruences modulo `2^64`.

use vstd::prelude::*;

verus! {

/// The number of values of an `i64`.
pub open spec fn modulus() -> int {
    0x1_0000_0000_0000_0000
}

/// The `i64` that is congruent to `x` modulo `2^64`.
pub open spec fn wrap(x: int) -> i64 {
    let m = x % modulus();
    if m > i64::MAX {
        (m - modulus()) as i64
    } else {
        m as i64
    }
}

/// A whole number of turns does not show in the wrapped value.
pub proof fn lemma_wrap_turns(x: int, k: int)
    ensures
        wrap(x + modulus() * k) == wrap(x),
{
    vstd::arithmetic::div_mod::lemma_mod_multiples_vanish(k, x, modulus());
}

/// The wrapped value differs from `x` by a whole number of turns.
pub proof fn lemma_wrap_shift(x: int) -> (k: int)
    ensures
        wrap(x) == x + modulus() * k,
{
    vstd::arithmetic::div_mod::lemma_fundamental_div_mod(x, modulus());
    vstd::arithmetic::div_mod::lemma_mod_bound(x, modulus());
    if x % modulus() > i64::MAX {
        -(x / modulus()) - 1
    } else {
        -(x / modulus())
    }
}

/// A value in the range of `i64` wraps to itself.
pub proof fn lemma_wrap_small(x: int)
    requires
        i64::MIN <= x <= i64::MAX,
    ensures
        wrap(x) == x,
{
    if x >= 0 {
        vstd::arithmetic::div_mod::lemma_small_mod(x as nat, modulus() as nat);
    } else {
        vstd::arithmetic::div_mod::lemma_small_mod((x + modulus()) as nat, modulus() as nat);
        vstd::arithmetic::div_mod::lemma_mod_multiples_vanish(1, x, modulus());
    }
}

/// Wrapping inside a sum does not change the wrapped sum.
pub proof fn lemma_wrap_add(x: int, y: int)
    ensures
        wrap(wrap(x) + y) == wrap(x + y),
        wrap(x + wrap(y)) == wrap(x + y),
{
    let k = lemma_wrap_shift(x);
    lemma_wrap_turns(x + y, k);
    let j = lemma_wrap_shift(y);
    lemma_wrap_turns(x + y, j);
}

/// Wrapping a factor does not change the wrapped product.
pub proof fn lemma_wrap_mul(c: int, x: int)
    ensures
        wrap(c * wrap(x)) == wrap(c * x),
{
    let k = lemma_wrap_shift(x);
    assert(c * (x + modulus() * k) == c * x + modulus() * (c * k)) by (nonlinear_arith);
    lemma_wrap_turns(c * x, c * k);
}

/// `wrapping_add` is the wrapped sum.
pub proof fn lemma_wrapping_add(x: i64, y: i64)
    ensures
        vstd::wrapping::i64_specs::wrapping_add(x, y) == wrap(x + y),
{
    if x + y > i64::MAX {
        lemma_wrap_small(x + y - modulus());
        lemma_wrap_turns(x + y, -1);
    } else if x + y < i64::MIN {
        lemma_wrap_small(x + y + modulus());
        lemma_wrap_turns(x + y, 1);
    } else {
        lemma_wrap_small(x + y);
    }
}

/// `wrapping_mul` is the wrapped product.
pub proof fn lemma_wrapping_mul(x: i64, y: i64)
    ensures
        vstd::wrapping::i64_specs::wrapping_mul(x, y) == wrap(x * y),
{
}

/// The wrapped sum of two `i64`.
pub fn plus(x: i64, y: i64) -> (res: i64)
    ensures
        res == wrap(x + y),
{
    proof {
        lemma_wrapping_add(x, y);
    }
    x.wrapping_add(y)
}

/// `x + len * y`, wrapped, for a length of any size.
pub fn plus_times(x: i64, len: usize, y: i64) -> (res: i64)
    ensures
        res == wrap(x + len * y),
{
    let wide = len as u64;
    let times: i64 = if wide <= 0x7fff_ffff_ffff_ffff {
        wide as i64
    } else {
        (wide as i128 - 0x1_0000_0000_0000_0000) as i64
    };
    proof {
        let turned: int = if wide <= 0x7fff_ffff_ffff_ffff {
            0
        } else {
            -1
        };
        assert(times == len + modulus() * turned);
        assert((len + modulus() * turned) * y == len * y + modulus() * (turned * y))
            by (nonlinear_arith);
        lemma_wrap_turns(len * y, turned * y);
        lemma_wrapping_mul(times, y);
        lemma_wrapping_add(x, times.wrapping_mul(y));
        lemma_wrap_add(x as int, times * y);
    }
    x.wrapping_add(times.wrapping_mul(y))
}

} // verus!
