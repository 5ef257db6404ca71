//! Powers in a monoid by repeated squaring.

pub mod wrapping;

use crate::data_structure::layout;
use vstd::prelude::*;

verus! {

/// A monoid: an associative operation `apply` with the neutral element
/// `ident`, on the values of `T` that `member` admits.
///
/// Implementations state what their functions compute through the `*_spec`
/// functions and prove the laws.
pub trait Monoid {
    type T: Clone + PartialEq;

    /// The values of `T` that belong to the monoid.
    spec fn member(a: Self::T) -> bool;

    spec fn apply_spec(l: Self::T, r: Self::T) -> Self::T;

    spec fn ident_spec() -> Self::T;

    proof fn lemma_closed(a: Self::T, b: Self::T)
        requires
            Self::member(a),
            Self::member(b),
        ensures
            Self::member(Self::apply_spec(a, b)),
            Self::member(Self::ident_spec()),
    ;

    proof fn lemma_associative(a: Self::T, b: Self::T, c: Self::T)
        requires
            Self::member(a),
            Self::member(b),
            Self::member(c),
        ensures
            Self::apply_spec(Self::apply_spec(a, b), c) == Self::apply_spec(
                a,
                Self::apply_spec(b, c),
            ),
    ;

    proof fn lemma_identity(a: Self::T)
        requires
            Self::member(a),
        ensures
            Self::apply_spec(Self::ident_spec(), a) == a,
            Self::apply_spec(a, Self::ident_spec()) == a,
    ;

    fn apply(l: &Self::T, r: &Self::T) -> (res: Self::T)
        requires
            Self::member(*l),
            Self::member(*r),
        ensures
            res == Self::apply_spec(*l, *r),
    ;

    fn ident() -> (res: Self::T)
        ensures
            res == Self::ident_spec(),
    ;
}

/// The product of `n` copies of `a`; the neutral element for `n == 0`.
pub open spec fn pow<M: Monoid>(a: M::T, n: nat) -> M::T
    decreases n,
{
    if n == 0 {
        M::ident_spec()
    } else {
        M::apply_spec(pow::<M>(a, (n - 1) as nat), a)
    }
}

/// Powers of a member are members.
pub proof fn lemma_pow_member<M: Monoid>(a: M::T, n: nat)
    requires
        M::member(a),
    ensures
        M::member(pow::<M>(a, n)),
    decreases n,
{
    M::lemma_closed(a, a);
    if n > 0 {
        lemma_pow_member::<M>(a, (n - 1) as nat);
        M::lemma_closed(pow::<M>(a, (n - 1) as nat), a);
    }
}

/// Exponents add up.
pub proof fn lemma_pow_add<M: Monoid>(a: M::T, x: nat, y: nat)
    requires
        M::member(a),
    ensures
        pow::<M>(a, x + y) == M::apply_spec(pow::<M>(a, x), pow::<M>(a, y)),
    decreases y,
{
    lemma_pow_member::<M>(a, x);
    if y == 0 {
        M::lemma_identity(pow::<M>(a, x));
    } else {
        lemma_pow_member::<M>(a, (y - 1) as nat);
        lemma_pow_add::<M>(a, x, (y - 1) as nat);
        M::lemma_associative(pow::<M>(a, x), pow::<M>(a, (y - 1) as nat), a);
    }
}

pub proof fn lemma_pow_one<M: Monoid>(a: M::T)
    requires
        M::member(a),
    ensures
        pow::<M>(a, 1) == a,
{
    reveal_with_fuel(pow, 2);
    M::lemma_identity(a);
}

/// A power of the square is the power with twice the exponent.
pub proof fn lemma_pow_square<M: Monoid>(a: M::T, n: nat)
    requires
        M::member(a),
    ensures
        pow::<M>(M::apply_spec(a, a), n) == pow::<M>(a, 2 * n),
    decreases n,
{
    if n > 0 {
        lemma_pow_square::<M>(a, (n - 1) as nat);
        lemma_pow_one::<M>(a);
        lemma_pow_add::<M>(a, 1, 1);
        lemma_pow_add::<M>(a, (2 * n - 2) as nat, 2);
    }
}

/// One round of squaring: with the lowest digit of `n` taken into the
/// accumulator, the square and the halved exponent stand for the rest.
pub proof fn lemma_power_step<M: Monoid>(acc: M::T, mult: M::T, n: nat)
    requires
        n > 0,
        M::member(acc),
        M::member(mult),
    ensures
        M::member(M::apply_spec(acc, mult)),
        M::member(M::apply_spec(mult, mult)),
        M::apply_spec(
            if n % 2 == 1 {
                M::apply_spec(acc, mult)
            } else {
                acc
            },
            pow::<M>(M::apply_spec(mult, mult), n / 2),
        ) == M::apply_spec(acc, pow::<M>(mult, n)),
{
    M::lemma_closed(acc, mult);
    M::lemma_closed(mult, mult);
    lemma_pow_square::<M>(mult, n / 2);
    if n % 2 == 1 {
        lemma_pow_one::<M>(mult);
        lemma_pow_add::<M>(mult, 1, (n - 1) as nat);
        lemma_pow_member::<M>(mult, (n - 1) as nat);
        M::lemma_associative(acc, mult, pow::<M>(mult, (n - 1) as nat));
    }
}

/// The `n`-th power of `a`, by squaring.
pub fn power<M: Monoid>(a: &M::T, n: usize) -> (res: M::T)
    requires
        M::member(*a),
    ensures
        res == pow::<M>(*a, n as nat),
        M::member(res),
{
    let ghost whole = n as nat;
    let mut n = n;
    let mut acc = M::ident();
    proof {
        M::lemma_closed(*a, *a);
        lemma_pow_member::<M>(*a, whole);
    }
    if n == 0 {
        return acc;
    }
    proof {
        layout::lemma_low_bit(n);
        layout::lemma_shr_one(n);
        lemma_power_step::<M>(acc, *a, n as nat);
        M::lemma_identity(pow::<M>(*a, n as nat));
    }
    if n & 1 == 1 {
        acc = M::apply(&acc, a);
    }
    let mut mult = M::apply(a, a);
    n >>= 1;
    while n > 0
        invariant
            M::member(acc),
            M::member(mult),
            M::member(pow::<M>(*a, whole)),
            M::apply_spec(acc, pow::<M>(mult, n as nat)) == pow::<M>(*a, whole),
        decreases n,
    {
        proof {
            layout::lemma_low_bit(n);
            layout::lemma_shr_one(n);
            lemma_power_step::<M>(acc, mult, n as nat);
        }
        if n & 1 == 1 {
            acc = M::apply(&acc, &mult);
        }
        mult = M::apply(&mult, &mult);
        n >>= 1;
    }
    proof {
        M::lemma_identity(acc);
    }
    acc
}

/// The residues modulo the prime `1_000_000_009` under multiplication.
pub struct Mult;

impl Monoid for Mult {
    type T = u64;

    open spec fn member(a: u64) -> bool {
        a < 1_000_000_009
    }

    open spec fn apply_spec(l: u64, r: u64) -> u64 {
        ((l * r) % 1_000_000_009) as u64
    }

    open spec fn ident_spec() -> u64 {
        1
    }

    proof fn lemma_closed(a: u64, b: u64) {
        vstd::arithmetic::div_mod::lemma_mod_bound(a * b, 1_000_000_009);
    }

    proof fn lemma_associative(a: u64, b: u64, c: u64) {
        let m = 1_000_000_009int;
        vstd::arithmetic::div_mod::lemma_mod_bound(a * b, m);
        vstd::arithmetic::div_mod::lemma_mod_bound(b * c, m);
        vstd::arithmetic::div_mod::lemma_mul_mod_noop_general(a * b, c as int, m);
        vstd::arithmetic::div_mod::lemma_mul_mod_noop_general(a as int, b * c, m);
        assert((a * b) * c == a * (b * c)) by (nonlinear_arith);
    }

    proof fn lemma_identity(a: u64) {
        vstd::arithmetic::div_mod::lemma_small_mod(a as nat, 1_000_000_009);
        assert(1 * a == a && a * 1 == a);
    }

    fn apply(l: &u64, r: &u64) -> (res: u64) {
        assert(*l * *r <= 1_000_000_008 * 1_000_000_008) by (nonlinear_arith)
            requires
                *l <= 1_000_000_008,
                *r <= 1_000_000_008,
        ;
        *l * *r % 1_000_000_009
    }

    fn ident() -> (res: u64) {
        1
    }
}

} // verus!
