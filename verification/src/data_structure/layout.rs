//! Index arithmetic shared by the array-backed trees.
//!
//! The segment trees keep a complete binary tree in one flat array: the
//! children of node `p` are `2p` and `2p + 1`, the leaves sit at `[n, 2n)`.
//! The Fenwick tree addresses its nodes by the lowest set bit of the index.
//! Everything here is about positions only, never about stored values.

use vstd::prelude::*;

verus! {

/// Shifting right by one halves.
pub proof fn lemma_shr_one(i: usize)
    by (bit_vector)
    ensures
        i >> 1 == i / 2,
{
}

/// The lowest bit is the remainder modulo two.
pub proof fn lemma_low_bit(i: usize)
    by (bit_vector)
    ensures
        i & 1 == i % 2,
{
}

/// Shifting left by one doubles, as long as the double `j` still fits.
pub proof fn lemma_shl_one(i: usize, j: usize)
    by (bit_vector)
    requires
        j == 2 * i,
    ensures
        i << 1 == j,
        (i << 1) | 1 == j + 1,
{
}

/// The position reached from node `p` by stepping to the left child `k`
/// times, that is `p * 2^k`: the first leaf below `p` when the leaves are
/// `k` levels down.
pub open spec fn leftmost(p: nat, k: nat) -> nat
    decreases k,
{
    if k == 0 {
        p
    } else {
        leftmost(2 * p, (k - 1) as nat)
    }
}

/// Node `q` is `x` itself or lies above it on the path from `x` to the root.
pub open spec fn reaches(q: nat, x: nat) -> bool
    decreases x,
{
    1 <= q <= x && (x == q || reaches(q, x / 2))
}

/// `j` lies strictly above `i` on the path from `i` to the root.
pub open spec fn is_above(j: nat, i: nat) -> bool {
    reaches(j, i / 2)
}

/// The node `t` levels above `x`, that is `x / 2^t`.
pub open spec fn up(x: nat, t: nat) -> nat
    decreases t,
{
    if t == 0 {
        x
    } else {
        up(x / 2, (t - 1) as nat)
    }
}

/// The number of positions `k` levels below one node: `2^k`.
pub open spec fn span(k: nat) -> nat {
    leftmost(1, k)
}

/// The number of binary digits of `n`.
pub open spec fn bit_length(n: nat) -> nat
    decreases n,
{
    if n == 0 {
        0
    } else {
        1 + bit_length(n / 2)
    }
}

/// The number of left-child steps from node `p` down to the leaves of a tree
/// with `n` leaves at `[n, 2n)`.
pub open spec fn height(n: nat, p: nat) -> nat
    decreases 2 * n - p,
{
    if 1 <= p < n {
        1 + height(n, 2 * p)
    } else {
        0
    }
}

/// All leaves below node `p` lie on one level: `p` stands for the block of
/// leaves `[leftmost(p, h), leftmost(p + 1, h))` with `h = height(n, p)`.
///
/// Unless `n` is a power of two, some nodes near the root join leaves of two
/// levels; the range walk never touches those.
pub open spec fn complete(n: nat, p: nat) -> bool {
    1 <= p < 2 * n && leftmost(p + 1, height(n, p)) <= 2 * n
}

/// The number of steps from `x` up to `q`, where `q` reaches `x`.
pub open spec fn distance(q: nat, x: nat) -> nat
    decreases x,
{
    if x <= q || x == 0 {
        0
    } else {
        1 + distance(q, x / 2)
    }
}

pub proof fn lemma_leftmost_step(p: nat, k: nat)
    ensures
        leftmost(p, k + 1) == leftmost(2 * p, k),
        leftmost(p, k + 1) == 2 * leftmost(p, k),
    decreases k,
{
    reveal_with_fuel(leftmost, 2);
    if k > 0 {
        lemma_leftmost_step(2 * p, (k - 1) as nat);
    }
}

/// `leftmost` keeps the order of nodes on one level, and never moves left.
pub proof fn lemma_leftmost_monotonic(p: nat, q: nat, k: nat)
    requires
        p <= q,
    ensures
        leftmost(p, k) <= leftmost(q, k),
        p < q ==> leftmost(p, k) < leftmost(q, k),
        p <= leftmost(p, k),
    decreases k,
{
    if k > 0 {
        lemma_leftmost_monotonic(2 * p, 2 * q, (k - 1) as nat);
    }
}

pub proof fn lemma_leftmost_zero(k: nat)
    ensures
        leftmost(0, k) == 0,
    decreases k,
{
    if k > 0 {
        lemma_leftmost_zero((k - 1) as nat);
    }
}

/// The value of the lowest set bit of `i`, and `0` for `i == 0`.
pub open spec fn lowbit(i: nat) -> nat
    decreases i,
{
    if i == 0 {
        0
    } else if i % 2 == 1 {
        1
    } else {
        2 * lowbit(i / 2)
    }
}

/// Node `j` of a Fenwick tree is responsible for position `i`: its range
/// `(j - lowbit(j), j]` contains `i`.
pub open spec fn covers(j: nat, i: nat) -> bool {
    j - lowbit(j) < i <= j
}

pub proof fn lemma_lowbit_bounds(i: nat)
    requires
        i >= 1,
    ensures
        1 <= lowbit(i) <= i,
    decreases i,
{
    if i % 2 == 0 {
        lemma_lowbit_bounds(i / 2);
    }
}

/// Below the lowest set bit of `j`, the lowest set bit of `j + d` is that
/// of `d`.
pub proof fn lemma_lowbit_offset(j: nat, d: nat)
    requires
        0 < d < lowbit(j),
    ensures
        lowbit(j + d) == lowbit(d),
    decreases j,
{
    if j % 2 == 0 && j > 0 && d % 2 == 0 {
        lemma_lowbit_offset(j / 2, d / 2);
        assert((j + d) / 2 == j / 2 + d / 2);
    }
}

/// Adding the lowest set bit carries into a higher one.
pub proof fn lemma_lowbit_carry(j: nat)
    requires
        j >= 1,
    ensures
        lowbit(j + lowbit(j)) >= 2 * lowbit(j),
    decreases j,
{
    if j % 2 == 1 {
        lemma_lowbit_bounds((j + 1) / 2);
    } else {
        lemma_lowbit_carry(j / 2);
        assert((j + lowbit(j)) / 2 == j / 2 + lowbit(j / 2));
    }
}

/// From a node responsible for `i`, the next responsible node is reached by
/// adding the lowest set bit, and none lies in between.
pub proof fn lemma_next_cover(j: nat, i: nat)
    requires
        j >= 1,
        covers(j, i),
    ensures
        covers(j + lowbit(j), i),
        forall|x: nat| j < x < j + lowbit(j) ==> !covers(x, i),
{
    lemma_lowbit_carry(j);
    lemma_lowbit_bounds(j);
    assert forall|x: nat| j < x < j + lowbit(j) implies !covers(x, i) by {
        let d = (x - j) as nat;
        lemma_lowbit_offset(j, d);
        lemma_lowbit_bounds(d);
    }
}

proof fn lemma_bits_odd(i: usize)
    by (bit_vector)
    requires
        i % 2 == 1,
    ensures
        i & ((i - 1) as usize) == i - 1,
        i | ((i - 1) as usize) == i,
{
}

proof fn lemma_bits_even(i: usize, h: usize)
    by (bit_vector)
    requires
        i == 2 * h,
        h >= 1,
    ensures
        i & ((i - 1) as usize) == 2 * (h & ((h - 1) as usize)),
        i | ((i - 1) as usize) == 2 * (h | ((h - 1) as usize)) + 1,
{
}

/// `i & (i - 1)` clears the lowest set bit; `i | (i - 1)` fills every bit
/// below it.
pub proof fn lemma_lowbit_bits(i: usize)
    requires
        i >= 1,
    ensures
        i & ((i - 1) as usize) == i - lowbit(i as nat),
        i | ((i - 1) as usize) == i + lowbit(i as nat) - 1,
    decreases i,
{
    if i % 2 == 1 {
        lemma_bits_odd(i);
    } else {
        let h = (i / 2) as usize;
        lemma_bits_even(i, h);
        lemma_lowbit_bits(h);
    }
}

/// Position `x` lies in the block of the node `t` levels above it.
pub proof fn lemma_up_range(x: nat, t: nat)
    ensures
        leftmost(up(x, t), t) <= x < leftmost(up(x, t) + 1, t),
    decreases t,
{
    if t > 0 {
        let q = up(x / 2, (t - 1) as nat);
        lemma_up_range(x / 2, (t - 1) as nat);
        lemma_leftmost_step(q, (t - 1) as nat);
        lemma_leftmost_step(q + 1, (t - 1) as nat);
    }
}

/// The node `t` levels above a position of the block of `q` is `q`.
pub proof fn lemma_range_up(q: nat, x: nat, t: nat)
    requires
        leftmost(q, t) <= x < leftmost(q + 1, t),
    ensures
        up(x, t) == q,
    decreases t,
{
    if t > 0 {
        lemma_leftmost_step(q, (t - 1) as nat);
        lemma_leftmost_step(q + 1, (t - 1) as nat);
        lemma_range_up(q, x / 2, (t - 1) as nat);
    }
}

pub proof fn lemma_up_step(x: nat, t: nat)
    ensures
        up(x, t + 1) == up(x, t) / 2,
    decreases t,
{
    reveal_with_fuel(up, 2);
    if t > 0 {
        lemma_up_step(x / 2, (t - 1) as nat);
    }
}

pub proof fn lemma_up_reaches(x: nat, t: nat)
    requires
        up(x, t) >= 1,
    ensures
        reaches(up(x, t), x),
    decreases t,
{
    if t > 0 {
        lemma_up_reaches(x / 2, (t - 1) as nat);
        lemma_reaches_bound(up(x, t), x / 2);
    }
}

/// A node above `i` has a smaller index than `i`.
pub proof fn lemma_above_is_less(j: nat, i: nat)
    ensures
        is_above(j, i) ==> j < i,
{
}

pub proof fn lemma_reaches_bound(q: nat, x: nat)
    requires
        reaches(q, x),
    ensures
        1 <= q <= x,
{
}

/// Whatever `q` reaches lies `distance(q, x)` levels below it.
pub proof fn lemma_reaches_up(q: nat, x: nat)
    requires
        reaches(q, x),
    ensures
        up(x, distance(q, x)) == q,
    decreases x,
{
    if x != q {
        lemma_reaches_up(q, x / 2);
    }
}

/// Going down more levels moves at least twice as far right.
pub proof fn lemma_leftmost_levels(p: nat, a: nat, b: nat)
    requires
        a <= b,
    ensures
        leftmost(p, a) <= leftmost(p, b),
        a < b ==> 2 * leftmost(p, a) <= leftmost(p, b),
    decreases b,
{
    if a < b {
        lemma_leftmost_levels(p, a, (b - 1) as nat);
        lemma_leftmost_step(p, (b - 1) as nat);
    }
}

/// The height of `q` is the first level on which its leftmost descendant is
/// a leaf.
pub proof fn lemma_height_unique(n: nat, q: nat, j: nat)
    requires
        q >= 1,
        leftmost(q, j) >= n,
        j == 0 || leftmost(q, (j - 1) as nat) < n,
    ensures
        height(n, q) == j,
    decreases j,
{
    if j > 0 {
        lemma_leftmost_monotonic(q, q, (j - 1) as nat);
        if j > 1 {
            lemma_leftmost_step(q, (j - 2) as nat);
        }
        lemma_height_unique(n, 2 * q, (j - 1) as nat);
    }
}

pub proof fn lemma_height_leaves(n: nat, p: nat)
    requires
        p >= 1,
    ensures
        leftmost(p, height(n, p)) >= n,
        height(n, p) >= 1 ==> leftmost(p, (height(n, p) - 1) as nat) < n,
    decreases 2 * n - p,
{
    if p < n {
        lemma_height_leaves(n, 2 * p);
        let h = height(n, 2 * p);
        if h >= 1 {
            lemma_leftmost_step(p, (h - 1) as nat);
        }
    }
}

/// A node whose block on level `k` lies within the leaves is complete, and
/// `k` is its height.
pub proof fn lemma_complete_at(n: nat, p: nat, k: nat)
    requires
        n >= 1,
        n <= leftmost(p, k),
        leftmost(p + 1, k) <= 2 * n,
    ensures
        height(n, p) == k,
        complete(n, p),
{
    lemma_leftmost_monotonic(p, p + 1, k);
    if p == 0 {
        lemma_leftmost_zero(k);
    }
    if k > 0 {
        lemma_leftmost_step(p + 1, (k - 1) as nat);
        lemma_leftmost_monotonic(p, p + 1, (k - 1) as nat);
    }
    lemma_height_unique(n, p, k);
}

/// The children of a complete internal node are complete, one level lower.
pub proof fn lemma_complete_children(n: nat, p: nat)
    requires
        complete(n, p),
        p < n,
    ensures
        height(n, p) >= 1,
        height(n, 2 * p) == height(n, p) - 1,
        height(n, 2 * p + 1) == height(n, p) - 1,
        complete(n, 2 * p),
        complete(n, 2 * p + 1),
{
    let h = height(n, p);
    let j = (h - 1) as nat;
    lemma_height_leaves(n, p);
    lemma_leftmost_step(p, j);
    lemma_leftmost_step(p + 1, j);
    lemma_leftmost_monotonic(2 * p, 2 * p + 1, j);
    lemma_leftmost_monotonic(2 * p + 1, 2 * p + 2, j);
    lemma_complete_at(n, 2 * p, j);
    lemma_complete_at(n, 2 * p + 1, j);
}

/// A complete node `s` levels above a leaf has height `s`.
pub proof fn lemma_path_height(n: nat, i: nat, s: nat)
    requires
        n <= i < 2 * n,
        complete(n, up(i, s)),
    ensures
        height(n, up(i, s)) == s,
{
    let p = up(i, s);
    let h = height(n, p);
    lemma_up_range(i, s);
    lemma_height_leaves(n, p);
    if s < h {
        lemma_leftmost_levels(p + 1, s, h);
    }
    if s > h {
        lemma_leftmost_levels(p, h, s);
    }
}

/// The leaves a complete node reaches are those of its block.
pub proof fn lemma_reaches_block(n: nat, q: nat, j: nat)
    requires
        complete(n, q),
        n <= j < 2 * n,
        reaches(q, j),
    ensures
        leftmost(q, height(n, q)) <= j < leftmost(q + 1, height(n, q)),
{
    lemma_reaches_up(q, j);
    lemma_path_height(n, j, distance(q, j));
    lemma_up_range(j, distance(q, j));
}

/// A node reaches every position of its block.
pub proof fn lemma_block_reaches(q: nat, k: nat, j: nat)
    requires
        q >= 1,
        leftmost(q, k) <= j < leftmost(q + 1, k),
    ensures
        reaches(q, j),
{
    lemma_range_up(q, j, k);
    lemma_up_reaches(j, k);
}

pub proof fn lemma_bit_length(n: nat)
    requires
        n >= 1,
    ensures
        bit_length(n) >= 1,
        span((bit_length(n) - 1) as nat) <= n < span(bit_length(n)),
    decreases n,
{
    if n >= 2 {
        lemma_bit_length(n / 2);
        lemma_leftmost_step(1, (bit_length(n / 2) - 1) as nat);
        lemma_leftmost_step(1, bit_length(n / 2));
    } else {
        reveal_with_fuel(bit_length, 2);
        reveal_with_fuel(leftmost, 2);
    }
}

/// `64 - leading_zeros` is the number of binary digits.
pub proof fn lemma_leading_zeros(n: u64)
    ensures
        64 - vstd::std_specs::bits::u64_leading_zeros(n) == bit_length(n as nat),
    decreases n,
{
    reveal(vstd::std_specs::bits::u64_leading_zeros);
    if n != 0 {
        lemma_leading_zeros(n / 2);
    }
}

pub proof fn lemma_span_is_pow2(k: nat)
    ensures
        span(k) == vstd::arithmetic::power2::pow2(k),
    decreases k,
{
    if k == 0 {
        vstd::arithmetic::power2::lemma2_to64();
    } else {
        lemma_span_is_pow2((k - 1) as nat);
        lemma_leftmost_step(1, (k - 1) as nat);
        vstd::arithmetic::power2::lemma_pow2_unfold(k);
    }
}

/// A power of two that fits the machine word has an exponent below the
/// word's width.
pub proof fn lemma_span_fits(k: nat)
    requires
        span(k) <= usize::MAX,
    ensures
        k < usize::BITS,
{
    if k >= usize::BITS {
        lemma_leftmost_levels(1, usize::BITS as nat, k);
        lemma_span_is_pow2(usize::BITS as nat);
        vstd::arithmetic::power2::lemma2_to64();
    }
}

proof fn lemma_shr_split(i: usize, s: usize)
    by (bit_vector)
    requires
        1 <= s < usize::BITS,
    ensures
        i >> s == (i >> 1) >> ((s - 1) as usize),
        i >> 0 == i,
{
}

proof fn lemma_shl_split(s: usize)
    by (bit_vector)
    requires
        1 <= s < usize::BITS,
    ensures
        1usize << s == 2 * (1usize << ((s - 1) as usize)),
        1usize << 0 == 1,
{
}

/// Shifting right by `s` climbs `s` levels.
pub proof fn lemma_shr_is_up(i: usize, s: usize)
    requires
        s < usize::BITS,
    ensures
        i >> s == up(i as nat, s as nat),
    decreases s,
{
    if s == 0 {
        lemma_shr_split(i, 1);
    } else {
        lemma_shr_split(i, s);
        lemma_shr_one(i);
        lemma_shr_is_up(i >> 1, (s - 1) as usize);
    }
}

/// `1 << s` is the span of `s` levels.
pub proof fn lemma_one_shl(s: usize)
    requires
        s < usize::BITS,
    ensures
        1usize << s == span(s as nat),
    decreases s,
{
    if s == 0 {
        lemma_shl_split(1);
    } else {
        lemma_shl_split(s);
        lemma_one_shl((s - 1) as usize);
        lemma_leftmost_step(1, (s - 1) as nat);
    }
}

} // verus!
