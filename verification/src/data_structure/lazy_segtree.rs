//! Lazy segment tree: range update, range query.
//!
//! The values live in one array with the leaves at `[n, 2n)` and the
//! internal nodes at `[1, n)`, as in the plain segment tree. Beside it stands
//! an array of pending updates, one for each internal node: an update that
//! is pending at a node is already part of the value stored at that node,
//! but not yet of anything stored below it.

use crate::data_structure::error::IndexOutOfRange;
use crate::data_structure::layout;
use crate::math::wrapping;
use vstd::prelude::*;

verus! {

/// The algebra a [`LazySegmentTree`] works with: a monoid of values, and
/// updates that act on the aggregate of a block of `len` positions.
///
/// Besides the two monoid laws an implementation proves how its updates
/// behave:
/// - composing `a` with `b` and applying the result once is the same as
///   applying `a`, then `b`;
/// - an update that `is_i` recognises changes nothing, and `i_update` is
///   such an update;
/// - applying an update to the combination of two blocks of `len` positions
///   each is the same as applying it to both blocks and combining them.
pub trait Operation {
    type Value: Clone;

    type Update: Clone;

    spec fn combine_spec(l: Self::Value, r: Self::Value) -> Self::Value;

    spec fn i_value_spec() -> Self::Value;

    spec fn compose_spec(a: Self::Update, b: Self::Update) -> Self::Update;

    spec fn is_i_spec(u: Self::Update) -> bool;

    spec fn i_update_spec() -> Self::Update;

    spec fn apply_spec(v: Self::Value, len: nat, u: Self::Update) -> Self::Value;

    proof fn lemma_associative(a: Self::Value, b: Self::Value, c: Self::Value)
        ensures
            Self::combine_spec(Self::combine_spec(a, b), c) == Self::combine_spec(
                a,
                Self::combine_spec(b, c),
            ),
    ;

    proof fn lemma_identity(a: Self::Value)
        ensures
            Self::combine_spec(Self::i_value_spec(), a) == a,
            Self::combine_spec(a, Self::i_value_spec()) == a,
    ;

    /// One `apply` of `compose(a, b)` is `apply(a)` followed by `apply(b)`.
    proof fn lemma_compose(v: Self::Value, len: nat, a: Self::Update, b: Self::Update)
        ensures
            Self::apply_spec(v, len, Self::compose_spec(a, b)) == Self::apply_spec(
                Self::apply_spec(v, len, a),
                len,
                b,
            ),
    ;

    proof fn lemma_is_i(v: Self::Value, len: nat, u: Self::Update)
        requires
            Self::is_i_spec(u),
        ensures
            Self::apply_spec(v, len, u) == v,
    ;

    proof fn lemma_i_update()
        ensures
            Self::is_i_spec(Self::i_update_spec()),
    ;

    proof fn lemma_apply_distributes(a: Self::Value, b: Self::Value, len: nat, u: Self::Update)
        requires
            len >= 1,
        ensures
            Self::apply_spec(Self::combine_spec(a, b), 2 * len, u) == Self::combine_spec(
                Self::apply_spec(a, len, u),
                Self::apply_spec(b, len, u),
            ),
    ;

    fn combine(l: &Self::Value, r: &Self::Value) -> (res: Self::Value)
        ensures
            res == Self::combine_spec(*l, *r),
    ;

    fn i_value() -> (res: Self::Value)
        ensures
            res == Self::i_value_spec(),
    ;

    fn compose(a: &mut Self::Update, b: &Self::Update)
        ensures
            *final(a) == Self::compose_spec(*old(a), *b),
    ;

    fn is_i(u: &Self::Update) -> (res: bool)
        ensures
            res == Self::is_i_spec(*u),
    ;

    fn i_update() -> (res: Self::Update)
        ensures
            res == Self::i_update_spec(),
    ;

    fn apply(v: &mut Self::Value, len: usize, u: &Self::Update)
        ensures
            *final(v) == Self::apply_spec(*old(v), len as nat, *u),
    ;
}

/// `combine` folded over `s` from left to right, starting from the identity.
pub open spec fn fold<O: Operation>(s: Seq<O::Value>) -> O::Value
    decreases s.len(),
{
    if s.len() == 0 {
        O::i_value_spec()
    } else {
        O::combine_spec(fold::<O>(s.drop_last()), s.last())
    }
}

/// The first `n` entries of `data`, followed by identity values where `data`
/// is shorter than `n`.
pub open spec fn padded<O: Operation>(data: Seq<O::Value>, n: nat) -> Seq<O::Value> {
    Seq::new(
        n,
        |i: int|
            if i < data.len() {
                data[i]
            } else {
                O::i_value_spec()
            },
    )
}

/// The sequence `s` with the update `u` applied to each position of `[l, r)`.
pub open spec fn range_applied<O: Operation>(s: Seq<O::Value>, l: int, r: int, u: O::Update) -> Seq<
    O::Value,
> {
    Seq::new(
        s.len(),
        |j: int|
            if l <= j < r {
                O::apply_spec(s[j], 1, u)
            } else {
                s[j]
            },
    )
}

/// The value `v`, which stands for `len` positions, after the updates
/// pending at node `q` and at every node above it, the nearest first.
pub open spec fn flushed<O: Operation>(
    lazy: Seq<O::Update>,
    q: nat,
    len: nat,
    v: O::Value,
) -> O::Value
    decreases q,
{
    if q == 0 {
        v
    } else {
        flushed::<O>(lazy, q / 2, len, O::apply_spec(v, len, lazy[q as int]))
    }
}

/// No update is pending at node `q` or above it.
pub open spec fn clean<O: Operation>(lazy: Seq<O::Update>, q: nat) -> bool
    decreases q,
{
    q == 0 || (O::is_i_spec(lazy[q as int]) && clean::<O>(lazy, q / 2))
}

/// The values of the `n` positions as they read once every pending update
/// has reached them.
pub open spec fn leaves<O: Operation>(n: nat, val: Seq<O::Value>, lazy: Seq<O::Update>) -> Seq<
    O::Value,
> {
    Seq::new(n, |j: int| flushed::<O>(lazy, ((n + j) / 2) as nat, 1, val[n + j]))
}

/// Node `p` holds the combination of its children with its own pending
/// update applied.
pub open spec fn node_ok<O: Operation>(
    n: nat,
    val: Seq<O::Value>,
    lazy: Seq<O::Update>,
    p: int,
) -> bool {
    val[p] == O::apply_spec(
        O::combine_spec(val[2 * p], val[2 * p + 1]),
        layout::span(
            layout::height(n, p as nat),
        ),
        lazy[p],
    )
}

/// The arrays have the right lengths, and an update is pending only at
/// nodes whose leaves lie on one level.
pub open spec fn shaped<O: Operation>(n: nat, val: Seq<O::Value>, lazy: Seq<O::Update>) -> bool {
    &&& val.len() >= 2 * n
    &&& lazy.len() == n
    &&& forall|p: int|
        0 <= p < n ==> O::is_i_spec(#[trigger] lazy[p]) || layout::complete(
            n,
            p as nat,
        )
}

/// The arrays are shaped and every internal node is in order.
pub open spec fn consistent<O: Operation>(
    n: nat,
    val: Seq<O::Value>,
    lazy: Seq<O::Update>,
) -> bool {
    &&& shaped::<O>(n, val, lazy)
    &&& forall|p: int| 1 <= p < n ==> #[trigger] node_ok::<O>(n, val, lazy, p)
}

pub proof fn lemma_fold_one<O: Operation>(x: O::Value)
    ensures
        fold::<O>(seq![x]) == x,
{
    let s = seq![x];
    assert(s.drop_last().len() == 0);
    assert(fold::<O>(s) == O::combine_spec(fold::<O>(s.drop_last()), s.last()));
    O::lemma_identity(x);
}

/// Folding a concatenation combines the folds of its parts.
pub proof fn lemma_fold_concat<O: Operation>(a: Seq<O::Value>, b: Seq<O::Value>)
    ensures
        fold::<O>(a + b) == O::combine_spec(fold::<O>(a), fold::<O>(b)),
    decreases b.len(),
{
    if b.len() == 0 {
        assert(a + b =~= a);
        O::lemma_identity(fold::<O>(a));
    } else {
        assert((a + b).drop_last() =~= a + b.drop_last());
        lemma_fold_concat::<O>(a, b.drop_last());
        O::lemma_associative(fold::<O>(a), fold::<O>(b.drop_last()), b.last());
    }
}

/// Folding `[a, c)` combines the folds of `[a, b)` and `[b, c)`.
pub proof fn lemma_fold_split<O: Operation>(s: Seq<O::Value>, a: int, b: int, c: int)
    requires
        0 <= a <= b <= c <= s.len(),
    ensures
        fold::<O>(s.subrange(a, c)) == O::combine_spec(
            fold::<O>(s.subrange(a, b)),
            fold::<O>(s.subrange(b, c)),
        ),
{
    assert(s.subrange(a, c) =~= s.subrange(a, b) + s.subrange(b, c));
    lemma_fold_concat::<O>(s.subrange(a, b), s.subrange(b, c));
}

/// Where nothing is pending, flushing changes nothing.
proof fn lemma_flushed_clean<O: Operation>(
    lazy: Seq<O::Update>,
    q: nat,
    len: nat,
    v: O::Value,
)
    requires
        clean::<O>(lazy, q),
    ensures
        flushed::<O>(lazy, q, len, v) == v,
    decreases q,
{
    if q > 0 {
        O::lemma_is_i(v, len, lazy[q as int]);
        lemma_flushed_clean::<O>(lazy, q / 2, len, v);
    }
}

/// Flushing the combination of two blocks flushes both.
proof fn lemma_flushed_combine<O: Operation>(
    lazy: Seq<O::Update>,
    q: nat,
    len: nat,
    a: O::Value,
    b: O::Value,
)
    requires
        len >= 1,
    ensures
        flushed::<O>(lazy, q, 2 * len, O::combine_spec(a, b)) == O::combine_spec(
            flushed::<O>(lazy, q, len, a),
            flushed::<O>(lazy, q, len, b),
        ),
    decreases q,
{
    if q > 0 {
        let u = lazy[q as int];
        O::lemma_apply_distributes(a, b, len, u);
        lemma_flushed_combine::<O>(
            lazy,
            q / 2,
            len,
            O::apply_spec(a, len, u),
            O::apply_spec(b, len, u),
        );
    }
}

/// Cleanness of a path depends on the entries along it only.
proof fn lemma_clean_same<O: Operation>(lazy: Seq<O::Update>, other: Seq<O::Update>, q: nat)
    requires
        clean::<O>(lazy, q),
        forall|x: int| 1 <= x <= q ==> #[trigger] other[x] == lazy[x],
    ensures
        clean::<O>(other, q),
    decreases q,
{
    if q > 0 {
        assert(other[q as int] == lazy[q as int]);
        lemma_clean_same::<O>(lazy, other, q / 2);
    }
}

/// A clean path stays clean further up.
proof fn lemma_clean_up<O: Operation>(lazy: Seq<O::Update>, x: nat, t: nat)
    requires
        clean::<O>(lazy, x),
    ensures
        clean::<O>(lazy, layout::up(x, t)),
    decreases t,
{
    if t > 0 {
        lemma_clean_up::<O>(lazy, x / 2, (t - 1) as nat);
    }
}

/// A clean path stays clean where entries change only at nodes that have an
/// update pending, or whose parent has.
proof fn lemma_clean_kept<O: Operation>(lazy: Seq<O::Update>, other: Seq<O::Update>, q: nat)
    requires
        clean::<O>(lazy, q),
        q < lazy.len(),
        other.len() == lazy.len(),
        forall|x: int|
            1 <= x < lazy.len() && #[trigger] other[x] != lazy[x] ==> !O::is_i_spec(lazy[x]) || (x
                / 2 >= 1 && !O::is_i_spec(lazy[x / 2])),
    ensures
        clean::<O>(other, q),
    decreases q,
{
    if q > 0 {
        assert(clean::<O>(lazy, q / 2));
        assert(q / 2 >= 1 ==> O::is_i_spec(lazy[(q / 2) as int]));
        assert(other[q as int] == lazy[q as int]);
        lemma_clean_kept::<O>(lazy, other, q / 2);
    }
}

/// Pushing the pending update of `ptr` down to its children does not change
/// what a flush from any other node gives; a flush from `ptr` itself now
/// starts above it.
proof fn lemma_push_flushed<O: Operation>(
    n: nat,
    lazy: Seq<O::Update>,
    pushed: Seq<O::Update>,
    ptr: nat,
    q: nat,
    len: nat,
    v: O::Value,
)
    requires
        1 <= ptr < n,
        q < n,
        lazy.len() == n,
        pushed.len() == n,
        O::is_i_spec(pushed[ptr as int]),
        2 * ptr < n ==> pushed[2 * (ptr as int)] == O::compose_spec(
            lazy[2 * (ptr as int)],
            lazy[ptr as int],
        ),
        2 * ptr + 1 < n ==> pushed[2 * (ptr as int) + 1] == O::compose_spec(
            lazy[2 * (ptr as int) + 1],
            lazy[ptr as int],
        ),
        forall|x: int|
            1 <= x < n && x != ptr && x != 2 * ptr && x != 2 * ptr + 1 ==> #[trigger] pushed[x]
                == lazy[x],
    ensures
        q != ptr ==> flushed::<O>(pushed, q, len, v) == flushed::<O>(lazy, q, len, v),
        q == ptr ==> flushed::<O>(pushed, q, len, v) == flushed::<O>(lazy, q / 2, len, v),
    decreases q,
{
    if q == 0 {
    } else if q == ptr {
        O::lemma_is_i(v, len, pushed[ptr as int]);
        lemma_push_flushed::<O>(n, lazy, pushed, ptr, q / 2, len, v);
    } else if q / 2 == ptr {
        let w = O::apply_spec(v, len, pushed[q as int]);
        let x = O::apply_spec(v, len, lazy[q as int]);
        lemma_push_flushed::<O>(n, lazy, pushed, ptr, ptr, len, w);
        O::lemma_compose(v, len, lazy[q as int], lazy[ptr as int]);
        assert(q == 2 * ptr || q == 2 * ptr + 1);
        assert(w == O::apply_spec(x, len, lazy[ptr as int]));
        assert(flushed::<O>(lazy, q, len, v) == flushed::<O>(lazy, ptr, len, x));
        assert(flushed::<O>(lazy, ptr, len, x) == flushed::<O>(lazy, ptr / 2, len, w));
    } else {
        assert(pushed[q as int] == lazy[q as int]);
        lemma_push_flushed::<O>(
            n,
            lazy,
            pushed,
            ptr,
            q / 2,
            len,
            O::apply_spec(v, len, lazy[q as int]),
        );
    }
}

/// Composing `u` into the pending update of `q`, above which nothing is
/// pending, applies `u` to every flush that passes through `q` and changes
/// no other.
proof fn lemma_apply_flushed<O: Operation>(
    n: nat,
    lazy: Seq<O::Update>,
    q: nat,
    u: O::Update,
    x: nat,
    len: nat,
    v: O::Value,
)
    requires
        1 <= q < n,
        x < n,
        lazy.len() == n,
        clean::<O>(lazy, q / 2),
    ensures
        layout::reaches(q, x) ==> flushed::<O>(
            lazy.update(q as int, O::compose_spec(lazy[q as int], u)),
            x,
            len,
            v,
        ) == O::apply_spec(flushed::<O>(lazy, x, len, v), len, u),
        !layout::reaches(q, x) ==> flushed::<O>(
            lazy.update(q as int, O::compose_spec(lazy[q as int], u)),
            x,
            len,
            v,
        ) == flushed::<O>(lazy, x, len, v),
    decreases x,
{
    let other = lazy.update(q as int, O::compose_spec(lazy[q as int], u));
    if x == 0 {
    } else if x == q {
        let w = O::apply_spec(v, len, other[q as int]);
        lemma_apply_flushed::<O>(n, lazy, q, u, q / 2, len, w);
        lemma_flushed_clean::<O>(lazy, q / 2, len, w);
        lemma_flushed_clean::<O>(lazy, q / 2, len, O::apply_spec(v, len, lazy[q as int]));
        O::lemma_compose(v, len, lazy[q as int], u);
    } else {
        lemma_apply_flushed::<O>(n, lazy, q, u, x / 2, len, O::apply_spec(v, len, lazy[x as int]));
    }
}

/// A complete node, flushed from its parent on, holds the fold of the
/// positions of its block.
proof fn lemma_block_fold<O: Operation>(
    n: nat,
    val: Seq<O::Value>,
    lazy: Seq<O::Update>,
    p: nat,
)
    requires
        n >= 1,
        consistent::<O>(n, val, lazy),
        layout::complete(n, p),
    ensures
        n <= layout::leftmost(
            p,
            layout::height(n, p),
        ),
        layout::leftmost(p, layout::height(n, p))
            < layout::leftmost(
            p + 1,
            layout::height(n, p),
        ),
        flushed::<O>(
            lazy,
            p / 2,
            layout::span(layout::height(n, p)),
            val[p as int],
        ) == fold::<O>(
            leaves::<O>(n, val, lazy).subrange(
                layout::leftmost(
                    p,
                    layout::height(n, p),
                ) - n,
                layout::leftmost(
                    p + 1,
                    layout::height(n, p),
                ) - n,
            ),
        ),
    decreases layout::height(n, p),
{
    let h = layout::height(n, p);
    let lo = layout::leftmost(p, h);
    let hi = layout::leftmost(p + 1, h);
    let all = leaves::<O>(n, val, lazy);
    layout::lemma_height_leaves(n, p);
    layout::lemma_leftmost_monotonic(p, p + 1, h);
    if p >= n {
        assert(all.subrange(lo - n, hi - n) =~= seq![all[p - n]]);
        lemma_fold_one::<O>(all[p - n]);
        reveal_with_fuel(layout::leftmost, 2);
    } else {
        let j = (h - 1) as nat;
        let half = layout::span(j);
        let mid = layout::leftmost(2 * p + 1, j);
        layout::lemma_complete_children(n, p);
        layout::lemma_leftmost_step(p, j);
        layout::lemma_leftmost_step(p + 1, j);
        layout::lemma_leftmost_step(1, j);
        layout::lemma_leftmost_monotonic(1, 1, j);
        assert(node_ok::<O>(n, val, lazy, p as int));
        lemma_block_fold::<O>(n, val, lazy, 2 * p);
        lemma_block_fold::<O>(n, val, lazy, 2 * p + 1);
        lemma_flushed_combine::<O>(lazy, p, half, val[2 * (p as int)], val[2 * (p as int) + 1]);
        lemma_fold_split::<O>(all, lo - n, mid - n, hi - n);
        assert((2 * p) / 2 == p && (2 * p + 1) / 2 == p);
    }
}

/// The pending updates after node `ptr` has handed its own down: `ptr`
/// holds `idle`, each child has the update of `ptr` composed onto its own.
pub open spec fn pushed_lazy<O: Operation>(
    lazy: Seq<O::Update>,
    ptr: int,
    idle: O::Update,
) -> Seq<O::Update> {
    Seq::new(
        lazy.len(),
        |x: int|
            if x == ptr {
                idle
            } else if x / 2 == ptr {
                O::compose_spec(lazy[x], lazy[ptr])
            } else {
                lazy[x]
            },
    )
}

/// The values after node `ptr` has handed its pending update down to its
/// children, each of which stands for `half` positions.
pub open spec fn pushed_val<O: Operation>(
    val: Seq<O::Value>,
    lazy: Seq<O::Update>,
    ptr: int,
    half: nat,
) -> Seq<O::Value> {
    Seq::new(
        val.len(),
        |x: int|
            if x / 2 == ptr {
                O::apply_spec(val[x], half, lazy[ptr])
            } else {
                val[x]
            },
    )
}

/// The pending updates after `u` has been applied at node `q`.
pub open spec fn applied_lazy<O: Operation>(lazy: Seq<O::Update>, q: int, u: O::Update) -> Seq<
    O::Update,
> {
    if q < lazy.len() {
        lazy.update(q, O::compose_spec(lazy[q], u))
    } else {
        lazy
    }
}

/// The two arrays after everything pending above node `i` has been handed
/// down, level by level, starting `shift` levels above `i` and ending at
/// the parent of `i`.
///
/// A node whose pending update is an identity is passed over; any other
/// hands its update to both children and keeps `i_update` itself.
pub open spec fn handed_down<O: Operation>(
    val: Seq<O::Value>,
    lazy: Seq<O::Update>,
    i: nat,
    shift: nat,
) -> (Seq<O::Value>, Seq<O::Update>)
    decreases shift,
{
    if shift == 0 {
        (val, lazy)
    } else {
        let ptr = layout::up(i, shift) as int;
        let below = (shift - 1) as nat;
        if O::is_i_spec(lazy[ptr]) {
            handed_down::<O>(val, lazy, i, below)
        } else {
            handed_down::<O>(
                pushed_val::<O>(val, lazy, ptr, layout::span(below)),
                pushed_lazy::<O>(lazy, ptr, O::i_update_spec()),
                i,
                below,
            )
        }
    }
}

/// The two arrays after `u` has been applied to the nodes that make up
/// `[lp, rp)` on the level where a node stands for `len` positions, and on
/// the levels above it: a left border with an odd index and a right border
/// whose last node has an even index are taken on their level, the rest is
/// left to the parents.
pub open spec fn spread<O: Operation>(
    val: Seq<O::Value>,
    lazy: Seq<O::Update>,
    lp: nat,
    rp: nat,
    len: nat,
    u: O::Update,
) -> (Seq<O::Value>, Seq<O::Update>)
    decreases rp,
{
    if lp >= rp {
        (val, lazy)
    } else {
        let a = if lp % 2 == 1 {
            lp + 1
        } else {
            lp
        };
        let b = if rp % 2 == 1 {
            (rp - 1) as nat
        } else {
            rp
        };
        let val1 = if lp % 2 == 1 {
            val.update(lp as int, O::apply_spec(val[lp as int], len, u))
        } else {
            val
        };
        let lazy1 = if lp % 2 == 1 {
            applied_lazy::<O>(lazy, lp as int, u)
        } else {
            lazy
        };
        let val2 = if rp % 2 == 1 {
            val1.update(b as int, O::apply_spec(val1[b as int], len, u))
        } else {
            val1
        };
        let lazy2 = if rp % 2 == 1 {
            applied_lazy::<O>(lazy1, b as int, u)
        } else {
            lazy1
        };
        spread::<O>(val2, lazy2, a / 2, b / 2, 2 * len, u)
    }
}

/// The values after every node above `cur` has been recombined from its
/// children, from the parent of `cur` to the root; `len` is the number of
/// positions the parent of `cur` stands for. A node with a pending update
/// that is no identity has it applied on top.
pub open spec fn recombined<O: Operation>(
    val: Seq<O::Value>,
    lazy: Seq<O::Update>,
    cur: nat,
    len: nat,
) -> Seq<O::Value>
    decreases cur,
{
    if cur <= 1 {
        val
    } else {
        let p = (cur / 2) as int;
        let both = O::combine_spec(val[2 * p], val[2 * p + 1]);
        let own = if O::is_i_spec(lazy[p]) {
            both
        } else {
            O::apply_spec(both, len, lazy[p])
        };
        recombined::<O>(val.update(p, own), lazy, (cur / 2) as nat, 2 * len)
    }
}

/// The two arrays of a tree of height `h` over `n` positions after
/// everything pending above the first and above the last position of the
/// non-empty range `[l, r)` has been handed down.
pub open spec fn range_flushed<O: Operation>(
    n: nat,
    h: nat,
    val: Seq<O::Value>,
    lazy: Seq<O::Update>,
    l: int,
    r: int,
) -> (Seq<O::Value>, Seq<O::Update>) {
    let first = handed_down::<O>(val, lazy, (n + l) as nat, h);
    handed_down::<O>(first.0, first.1, (n + r - 1) as nat, h)
}

/// The two arrays of a tree of height `h` over `n` positions after the
/// update `u` of the non-empty range `[l, r)`: pending updates above the two
/// borders are handed down, `u` is applied to the nodes that make up the
/// range and stays pending at those that have children, and the nodes above
/// the two borders are recombined.
pub open spec fn range_updated<O: Operation>(
    n: nat,
    h: nat,
    val: Seq<O::Value>,
    lazy: Seq<O::Update>,
    l: int,
    r: int,
    u: O::Update,
) -> (Seq<O::Value>, Seq<O::Update>) {
    let flushed = range_flushed::<O>(n, h, val, lazy, l, r);
    let done = spread::<O>(flushed.0, flushed.1, (n + l) as nat, (n + r) as nat, 1, u);
    let left = recombined::<O>(done.0, done.1, (n + l) as nat, 2);
    (recombined::<O>(left, done.1, (n + r - 1) as nat, 2), done.1)
}

/// Handing the pending update of a node down to its children keeps the
/// arrays consistent and leaves every position's value as it was.
proof fn lemma_push_step<O: Operation>(
    n: nat,
    val: Seq<O::Value>,
    lazy: Seq<O::Update>,
    ptr: nat,
    idle: O::Update,
)
    requires
        n >= 1,
        consistent::<O>(n, val, lazy),
        1 <= ptr < n,
        layout::complete(n, ptr),
        O::is_i_spec(idle),
    ensures
        layout::height(n, ptr) >= 1,
        consistent::<O>(
            n,
            pushed_val::<O>(
                val,
                lazy,
                ptr as int,
                layout::span(
                    (layout::height(n, ptr) - 1) as nat,
                ),
            ),
            pushed_lazy::<O>(lazy, ptr as int, idle),
        ),
        leaves::<O>(
            n,
            pushed_val::<O>(
                val,
                lazy,
                ptr as int,
                layout::span(
                    (layout::height(n, ptr) - 1) as nat,
                ),
            ),
            pushed_lazy::<O>(lazy, ptr as int, idle),
        ) == leaves::<O>(n, val, lazy),
{
    let h = layout::height(n, ptr);
    layout::lemma_complete_children(n, ptr);
    let j = (h - 1) as nat;
    let half = layout::span(j);
    let u = lazy[ptr as int];
    let val2 = pushed_val::<O>(val, lazy, ptr as int, half);
    let lazy2 = pushed_lazy::<O>(lazy, ptr as int, idle);
    let c1 = 2 * (ptr as int);
    let c2 = c1 + 1;
    layout::lemma_leftmost_step(1, j);
    layout::lemma_leftmost_monotonic(1, 1, j);
    assert(layout::span(h) == 2 * half);
    assert(half >= 1);
    assert(c1 < n <==> c2 < n);
    assert forall|p: int| 0 <= p < n implies O::is_i_spec(#[trigger] lazy2[p])
        || layout::complete(n, p as nat) by {
        if p != ptr && p / 2 != ptr {
            assert(lazy2[p] == lazy[p]);
        }
    }
    assert forall|p: int| 1 <= p < n implies #[trigger] node_ok::<O>(n, val2, lazy2, p) by {
        assert(node_ok::<O>(n, val, lazy, p));
        if p == ptr {
            O::lemma_apply_distributes(val[c1], val[c2], half, u);
            O::lemma_is_i(O::combine_spec(val2[c1], val2[c2]), 2 * half, idle);
        } else if p / 2 == ptr {
            O::lemma_compose(
                O::combine_spec(val[2 * p], val[2 * p + 1]),
                half,
                lazy[p],
                u,
            );
        }
    }
    assert forall|i: int| 0 <= i < n implies leaves::<O>(n, val2, lazy2)[i] == leaves::<O>(
        n,
        val,
        lazy,
    )[i] by {
        let x = n + i;
        let start = (x / 2) as nat;
        if start == ptr {
            let w = O::apply_spec(val[x], 1, u);
            reveal_with_fuel(layout::leftmost, 2);
            assert(j == 0);
            lemma_push_flushed::<O>(n, lazy, lazy2, ptr, ptr, 1, w);
            assert(flushed::<O>(lazy, ptr, 1, val[x]) == flushed::<O>(lazy, ptr / 2, 1, w));
        } else {
            lemma_push_flushed::<O>(n, lazy, lazy2, ptr, start, 1, val[x]);
        }
    }
    assert(leaves::<O>(n, val2, lazy2) =~= leaves::<O>(n, val, lazy));
}

/// Applying `u` at a node whose block lies `k` levels down, with nothing
/// pending above it, applies `u` to the positions of that block and to no
/// other; every node but its parent stays in order.
proof fn lemma_apply_step<O: Operation>(
    n: nat,
    val: Seq<O::Value>,
    lazy: Seq<O::Update>,
    q: nat,
    k: nat,
    u: O::Update,
)
    requires
        n >= 1,
        shaped::<O>(n, val, lazy),
        n <= layout::leftmost(q, k),
        layout::leftmost(q + 1, k) <= 2 * n,
        clean::<O>(lazy, q / 2),
    ensures
        1 <= q < 2 * n,
        shaped::<O>(
            n,
            val.update(
                q as int,
                O::apply_spec(val[q as int], layout::span(k), u),
            ),
            applied_lazy::<O>(lazy, q as int, u),
        ),
        forall|p: int|
            1 <= p < n && p != q / 2 && node_ok::<O>(n, val, lazy, p) ==> #[trigger] node_ok::<O>(
                n,
                val.update(
                    q as int,
                    O::apply_spec(val[q as int], layout::span(k), u),
                ),
                applied_lazy::<O>(lazy, q as int, u),
                p,
            ),
        leaves::<O>(
            n,
            val.update(
                q as int,
                O::apply_spec(val[q as int], layout::span(k), u),
            ),
            applied_lazy::<O>(lazy, q as int, u),
        ) == range_applied::<O>(
            leaves::<O>(n, val, lazy),
            layout::leftmost(q, k) - n,
            layout::leftmost(q + 1, k) - n,
            u,
        ),
{
    let len = layout::span(k);
    let val2 = val.update(q as int, O::apply_spec(val[q as int], len, u));
    let lazy2 = applied_lazy::<O>(lazy, q as int, u);
    let lo = layout::leftmost(q, k);
    let hi = layout::leftmost(q + 1, k);
    layout::lemma_complete_at(n, q, k);
    assert forall|p: int| 0 <= p < n implies O::is_i_spec(#[trigger] lazy2[p])
        || layout::complete(n, p as nat) by {
        if p != q {
            assert(lazy2[p] == lazy[p]);
        }
    }
    assert forall|p: int|
        1 <= p < n && p != q / 2 && node_ok::<O>(n, val, lazy, p) implies #[trigger] node_ok::<O>(
        n,
        val2,
        lazy2,
        p,
    ) by {
        if p == q {
            O::lemma_compose(O::combine_spec(val[2 * p], val[2 * p + 1]), len, lazy[p], u);
        }
    }
    let before = leaves::<O>(n, val, lazy);
    let after = range_applied::<O>(before, lo - n, hi - n, u);
    assert forall|i: int| 0 <= i < n implies leaves::<O>(n, val2, lazy2)[i] == after[i] by {
        let x = (n + i) as nat;
        let start = x / 2;
        if q >= n {
            reveal_with_fuel(layout::leftmost, 2);
            assert(k == 0);
            if x == q {
                lemma_flushed_clean::<O>(lazy, start, 1, val[x as int]);
                lemma_flushed_clean::<O>(lazy, start, 1, val2[x as int]);
            }
        } else {
            lemma_apply_flushed::<O>(n, lazy, q, u, start, 1, val[x as int]);
            assert(layout::reaches(q, x)
                == layout::reaches(q, start));
            if lo <= x < hi {
                layout::lemma_block_reaches(q, k, x);
            }
            if layout::reaches(q, x) {
                layout::lemma_reaches_block(n, q, x);
            }
        }
    }
    assert(leaves::<O>(n, val2, lazy2) =~= after);
}

/// The sequence `base` with `u` applied to the positions of `[l, a)` and of
/// `[b, r)`.
spec fn partly_applied<O: Operation>(
    base: Seq<O::Value>,
    l: int,
    a: int,
    b: int,
    r: int,
    u: O::Update,
) -> Seq<O::Value> {
    Seq::new(
        base.len(),
        |j: int|
            if l <= j < a || b <= j < r {
                O::apply_spec(base[j], 1, u)
            } else {
                base[j]
            },
    )
}

/// The state of the range update for `[l, r)` on level `k`, with the two
/// pointers at `lp` and `rp`: the update has reached the positions the
/// pointers have passed, nothing is pending above the pointers on the two
/// border paths, and only nodes above the borders can be out of order.
#[verifier::opaque]
spec fn walking<O: Operation>(
    n: nat,
    val: Seq<O::Value>,
    lazy: Seq<O::Update>,
    base: Seq<O::Value>,
    l: int,
    r: int,
    lp: nat,
    rp: nat,
    k: nat,
    u: O::Update,
) -> bool {
    let first = (n + l) as nat;
    let last = (n + r - 1) as nat;
    &&& n >= 1
    &&& 0 <= l < r <= n
    &&& base.len() == n
    &&& shaped::<O>(n, val, lazy)
    &&& lp <= rp
    &&& first <= layout::leftmost(lp, k)
    &&& layout::leftmost(lp, k) <= layout::leftmost(rp, k)
    &&& layout::leftmost(rp, k) <= n + r
    &&& (lp == layout::up(first, k) || lp == layout::up(first, k) + 1 || (lp % 2 == 0 && lp
        == layout::up(first, k) + 2))
    &&& (rp == layout::up(last, k) || rp == layout::up(last, k) + 1 || (rp % 2 == 0 && rp
        == layout::up(last, k) - 1))
    &&& clean::<O>(lazy, layout::up(first, k + 1))
    &&& clean::<O>(lazy, layout::up(last, k + 1))
    &&& forall|p: int|
        1 <= p < n ==> #[trigger] node_ok::<O>(n, val, lazy, p) || layout::is_above(p as nat, first)
            || layout::is_above(p as nat, last)
    &&& leaves::<O>(n, val, lazy) == partly_applied::<O>(
        base,
        l,
        layout::leftmost(lp, k) - n,
        layout::leftmost(rp, k) - n,
        r,
        u,
    )
}

proof fn lemma_walk_start<O: Operation>(
    n: nat,
    val: Seq<O::Value>,
    lazy: Seq<O::Update>,
    l: int,
    r: int,
    u: O::Update,
)
    requires
        n >= 1,
        consistent::<O>(n, val, lazy),
        0 <= l < r <= n,
        clean::<O>(lazy, ((n + l) / 2) as nat),
        clean::<O>(lazy, ((n + r - 1) / 2) as nat),
    ensures
        walking::<O>(
            n,
            val,
            lazy,
            leaves::<O>(n, val, lazy),
            l,
            r,
            (n + l) as nat,
            (n + r) as nat,
            0,
            u,
        ),
{
    reveal(walking);
    reveal_with_fuel(layout::leftmost, 2);
    reveal_with_fuel(layout::up, 2);
    let base = leaves::<O>(n, val, lazy);
    assert(base =~= partly_applied::<O>(base, l, l, r, r, u));
}

/// One node given up by either pointer: `u` is applied at the node `q`,
/// whose block lies on level `k` and whose parent is on a border path.
proof fn lemma_walk_take<O: Operation>(
    n: nat,
    val: Seq<O::Value>,
    lazy: Seq<O::Update>,
    q: nat,
    k: nat,
    first: nat,
    last: nat,
    u: O::Update,
)
    requires
        n >= 1,
        shaped::<O>(n, val, lazy),
        n <= first < 2 * n,
        n <= last < 2 * n,
        n <= layout::leftmost(q, k),
        layout::leftmost(q + 1, k) <= 2 * n,
        clean::<O>(lazy, layout::up(first, k + 1)),
        clean::<O>(lazy, layout::up(last, k + 1)),
        q / 2 == layout::up(first, k + 1) || q / 2 == layout::up(last, k + 1),
        forall|p: int|
            1 <= p < n ==> #[trigger] node_ok::<O>(n, val, lazy, p) || layout::is_above(
                p as nat,
                first,
            ) || layout::is_above(p as nat, last),
    ensures
        1 <= q < 2 * n,
        shaped::<O>(
            n,
            val.update(q as int, O::apply_spec(val[q as int], layout::span(k), u)),
            applied_lazy::<O>(lazy, q as int, u),
        ),
        clean::<O>(applied_lazy::<O>(lazy, q as int, u), layout::up(first, k + 1)),
        clean::<O>(applied_lazy::<O>(lazy, q as int, u), layout::up(last, k + 1)),
        forall|p: int|
            1 <= p < n ==> #[trigger] node_ok::<O>(
                n,
                val.update(q as int, O::apply_spec(val[q as int], layout::span(k), u)),
                applied_lazy::<O>(lazy, q as int, u),
                p,
            ) || layout::is_above(p as nat, first) || layout::is_above(p as nat, last),
        leaves::<O>(
            n,
            val.update(q as int, O::apply_spec(val[q as int], layout::span(k), u)),
            applied_lazy::<O>(lazy, q as int, u),
        ) == range_applied::<O>(
            leaves::<O>(n, val, lazy),
            layout::leftmost(q, k) - n,
            layout::leftmost(q + 1, k) - n,
            u,
        ),
{
    let val2 = val.update(q as int, O::apply_spec(val[q as int], layout::span(k), u));
    let lazy2 = applied_lazy::<O>(lazy, q as int, u);
    let t1 = layout::up(first, k + 1);
    let t2 = layout::up(last, k + 1);
    lemma_apply_step::<O>(n, val, lazy, q, k, u);
    layout::lemma_up_range(first, k + 1);
    layout::lemma_up_range(last, k + 1);
    layout::lemma_leftmost_step(q, k);
    layout::lemma_leftmost_step(t1, k);
    layout::lemma_leftmost_step(t2, k);
    layout::lemma_leftmost_monotonic(t1, t1, k);
    layout::lemma_leftmost_monotonic(t2, t2, k);
    if q <= t1 {
        layout::lemma_leftmost_monotonic(q, t1, k + 1);
    }
    if q <= t2 {
        layout::lemma_leftmost_monotonic(q, t2, k + 1);
    }
    assert(t1 < q && t2 < q && t1 < n && t2 < n);
    lemma_clean_same::<O>(lazy, lazy2, t1);
    lemma_clean_same::<O>(lazy, lazy2, t2);
    reveal_with_fuel(layout::up, 2);
    assert forall|p: int| 1 <= p < n implies #[trigger] node_ok::<O>(n, val2, lazy2, p)
        || layout::is_above(p as nat, first) || layout::is_above(p as nat, last) by {
        if p == q / 2 {
            if q / 2 == t1 {
                layout::lemma_up_reaches(first / 2, k);
            } else {
                layout::lemma_up_reaches(last / 2, k);
            }
        } else {
            assert(node_ok::<O>(n, val, lazy, p) || layout::is_above(p as nat, first)
                || layout::is_above(p as nat, last));
        }
    }
}

proof fn lemma_walk_left<O: Operation>(
    n: nat,
    val: Seq<O::Value>,
    lazy: Seq<O::Update>,
    base: Seq<O::Value>,
    l: int,
    r: int,
    lp: nat,
    rp: nat,
    k: nat,
    u: O::Update,
)
    requires
        walking::<O>(n, val, lazy, base, l, r, lp, rp, k, u),
        lp < rp,
        lp % 2 == 1,
    ensures
        lp < 2 * n,
        walking::<O>(
            n,
            val.update(lp as int, O::apply_spec(val[lp as int], layout::span(k), u)),
            applied_lazy::<O>(lazy, lp as int, u),
            base,
            l,
            r,
            lp + 1,
            rp,
            k,
            u,
        ),
{
    reveal(walking);
    let first = (n + l) as nat;
    let last = (n + r - 1) as nat;
    let val2 = val.update(lp as int, O::apply_spec(val[lp as int], layout::span(k), u));
    let lazy2 = applied_lazy::<O>(lazy, lp as int, u);
    layout::lemma_up_step(first, k);
    layout::lemma_leftmost_monotonic(lp, lp + 1, k);
    layout::lemma_leftmost_monotonic(lp + 1, rp, k);
    lemma_walk_take::<O>(n, val, lazy, lp, k, first, last, u);
    assert(leaves::<O>(n, val2, lazy2) =~= partly_applied::<O>(
        base,
        l,
        layout::leftmost(lp + 1, k) - n,
        layout::leftmost(rp, k) - n,
        r,
        u,
    ));
}

proof fn lemma_walk_right<O: Operation>(
    n: nat,
    val: Seq<O::Value>,
    lazy: Seq<O::Update>,
    base: Seq<O::Value>,
    l: int,
    r: int,
    lp: nat,
    rp: nat,
    k: nat,
    u: O::Update,
)
    requires
        walking::<O>(n, val, lazy, base, l, r, lp, rp, k, u),
        lp < rp,
        rp % 2 == 1,
    ensures
        rp - 1 < 2 * n,
        walking::<O>(
            n,
            val.update(rp - 1, O::apply_spec(val[rp - 1], layout::span(k), u)),
            applied_lazy::<O>(lazy, rp - 1, u),
            base,
            l,
            r,
            lp,
            (rp - 1) as nat,
            k,
            u,
        ),
{
    reveal(walking);
    let first = (n + l) as nat;
    let last = (n + r - 1) as nat;
    let q = (rp - 1) as nat;
    let val2 = val.update(q as int, O::apply_spec(val[q as int], layout::span(k), u));
    let lazy2 = applied_lazy::<O>(lazy, q as int, u);
    layout::lemma_up_step(last, k);
    layout::lemma_leftmost_monotonic(q, rp, k);
    layout::lemma_leftmost_monotonic(lp, q, k);
    lemma_walk_take::<O>(n, val, lazy, q, k, first, last, u);
    assert(leaves::<O>(n, val2, lazy2) =~= partly_applied::<O>(
        base,
        l,
        layout::leftmost(lp, k) - n,
        layout::leftmost(q, k) - n,
        r,
        u,
    ));
}

proof fn lemma_walk_level<O: Operation>(
    n: nat,
    val: Seq<O::Value>,
    lazy: Seq<O::Update>,
    base: Seq<O::Value>,
    l: int,
    r: int,
    lp: nat,
    rp: nat,
    k: nat,
    u: O::Update,
)
    requires
        walking::<O>(n, val, lazy, base, l, r, lp, rp, k, u),
        lp % 2 == 0,
        rp % 2 == 0,
    ensures
        walking::<O>(n, val, lazy, base, l, r, lp / 2, rp / 2, k + 1, u),
        lp / 2 < rp / 2 ==> layout::span(k + 1) == 2 * layout::span(k) && layout::span(k + 1) <= 2 * n,
{
    reveal(walking);
    let first = (n + l) as nat;
    let last = (n + r - 1) as nat;
    layout::lemma_leftmost_step(lp / 2, k);
    layout::lemma_leftmost_step(rp / 2, k);
    layout::lemma_up_step(first, k);
    layout::lemma_up_step(last, k);
    layout::lemma_up_step(first, k + 1);
    layout::lemma_up_step(last, k + 1);
    lemma_clean_up::<O>(lazy, layout::up(first, k + 1), 1);
    lemma_clean_up::<O>(lazy, layout::up(last, k + 1), 1);
    reveal_with_fuel(layout::up, 2);
    if lp / 2 < rp / 2 {
        layout::lemma_leftmost_monotonic(1, rp / 2, k + 1);
        layout::lemma_leftmost_step(1, k);
    }
}

proof fn lemma_walk_end<O: Operation>(
    n: nat,
    val: Seq<O::Value>,
    lazy: Seq<O::Update>,
    base: Seq<O::Value>,
    l: int,
    r: int,
    lp: nat,
    k: nat,
    u: O::Update,
)
    requires
        walking::<O>(n, val, lazy, base, l, r, lp, lp, k, u),
    ensures
        shaped::<O>(n, val, lazy),
        leaves::<O>(n, val, lazy) == range_applied::<O>(base, l, r, u),
        forall|p: int|
            1 <= p < n ==> #[trigger] node_ok::<O>(n, val, lazy, p) || layout::is_above(
                p as nat,
                (n + l) as nat,
            ) || layout::is_above(p as nat, (n + r - 1) as nat),
{
    reveal(walking);
    assert(leaves::<O>(n, val, lazy) =~= range_applied::<O>(base, l, r, u));
}

/// The state of the range query for `[l, r)` on level `k`, with the two
/// pointers at `lp` and `rp`: nothing is pending above the borders, `left`
/// holds the fold of what the left pointer has passed and `right` the fold
/// of what the right pointer has passed.
#[verifier::opaque]
spec fn reading<O: Operation>(
    n: nat,
    val: Seq<O::Value>,
    lazy: Seq<O::Update>,
    l: int,
    r: int,
    lp: nat,
    rp: nat,
    k: nat,
    left: O::Value,
    right: O::Value,
) -> bool {
    let first = (n + l) as nat;
    let last = (n + r - 1) as nat;
    let all = leaves::<O>(n, val, lazy);
    &&& n >= 1
    &&& 0 <= l < r <= n
    &&& consistent::<O>(n, val, lazy)
    &&& lp <= rp
    &&& first <= layout::leftmost(lp, k)
    &&& layout::leftmost(lp, k) <= layout::leftmost(rp, k)
    &&& layout::leftmost(rp, k) <= n + r
    &&& (lp == layout::up(first, k) || lp == layout::up(first, k) + 1 || (lp % 2 == 0 && lp
        == layout::up(first, k) + 2))
    &&& (rp == layout::up(last, k) || rp == layout::up(last, k) + 1 || (rp % 2 == 0 && rp
        == layout::up(last, k) - 1))
    &&& clean::<O>(lazy, first / 2)
    &&& clean::<O>(lazy, last / 2)
    &&& left == fold::<O>(all.subrange(l, layout::leftmost(lp, k) - n))
    &&& right == fold::<O>(all.subrange(layout::leftmost(rp, k) - n, r))
}

proof fn lemma_read_start<O: Operation>(
    n: nat,
    val: Seq<O::Value>,
    lazy: Seq<O::Update>,
    l: int,
    r: int,
)
    requires
        n >= 1,
        consistent::<O>(n, val, lazy),
        0 <= l < r <= n,
        clean::<O>(lazy, ((n + l) / 2) as nat),
        clean::<O>(lazy, ((n + r - 1) / 2) as nat),
    ensures
        reading::<O>(
            n,
            val,
            lazy,
            l,
            r,
            (n + l) as nat,
            (n + r) as nat,
            0,
            O::i_value_spec(),
            O::i_value_spec(),
        ),
{
    reveal(reading);
    reveal_with_fuel(layout::leftmost, 2);
    reveal_with_fuel(layout::up, 2);
    let all = leaves::<O>(n, val, lazy);
    assert(all.subrange(r, r).len() == 0);
    assert(all.subrange(l, l).len() == 0);
}

/// A node whose block lies `k` levels down, with nothing pending above it,
/// holds the fold of the positions of its block.
proof fn lemma_reads_block<O: Operation>(
    n: nat,
    val: Seq<O::Value>,
    lazy: Seq<O::Update>,
    q: nat,
    k: nat,
)
    requires
        n >= 1,
        consistent::<O>(n, val, lazy),
        n <= layout::leftmost(q, k),
        layout::leftmost(q + 1, k) <= 2 * n,
        clean::<O>(lazy, q / 2),
    ensures
        q < 2 * n,
        val[q as int] == fold::<O>(
            leaves::<O>(n, val, lazy).subrange(
                layout::leftmost(q, k) - n,
                layout::leftmost(q + 1, k) - n,
            ),
        ),
{
    layout::lemma_complete_at(n, q, k);
    lemma_block_fold::<O>(n, val, lazy, q);
    lemma_flushed_clean::<O>(lazy, q / 2, layout::span(k), val[q as int]);
}

proof fn lemma_read_left<O: Operation>(
    n: nat,
    val: Seq<O::Value>,
    lazy: Seq<O::Update>,
    l: int,
    r: int,
    lp: nat,
    rp: nat,
    k: nat,
    left: O::Value,
    right: O::Value,
)
    requires
        reading::<O>(n, val, lazy, l, r, lp, rp, k, left, right),
        lp < rp,
        lp % 2 == 1,
    ensures
        lp < 2 * n,
        reading::<O>(
            n,
            val,
            lazy,
            l,
            r,
            lp + 1,
            rp,
            k,
            O::combine_spec(left, val[lp as int]),
            right,
        ),
{
    reveal(reading);
    let first = (n + l) as nat;
    let all = leaves::<O>(n, val, lazy);
    let a = layout::leftmost(lp, k);
    let a1 = layout::leftmost(lp + 1, k);
    layout::lemma_up_step(first, k);
    layout::lemma_leftmost_monotonic(lp, lp + 1, k);
    layout::lemma_leftmost_monotonic(lp + 1, rp, k);
    lemma_clean_up::<O>(lazy, first / 2, k);
    reveal_with_fuel(layout::up, 2);
    assert(lp / 2 == layout::up(first / 2, k));
    lemma_reads_block::<O>(n, val, lazy, lp, k);
    lemma_fold_split::<O>(all, l, a - n, a1 - n);
}

proof fn lemma_read_right<O: Operation>(
    n: nat,
    val: Seq<O::Value>,
    lazy: Seq<O::Update>,
    l: int,
    r: int,
    lp: nat,
    rp: nat,
    k: nat,
    left: O::Value,
    right: O::Value,
)
    requires
        reading::<O>(n, val, lazy, l, r, lp, rp, k, left, right),
        lp < rp,
        rp % 2 == 1,
    ensures
        rp - 1 < 2 * n,
        reading::<O>(
            n,
            val,
            lazy,
            l,
            r,
            lp,
            (rp - 1) as nat,
            k,
            left,
            O::combine_spec(val[rp - 1], right),
        ),
{
    reveal(reading);
    let last = (n + r - 1) as nat;
    let all = leaves::<O>(n, val, lazy);
    let q = (rp - 1) as nat;
    let b1 = layout::leftmost(q, k);
    let b = layout::leftmost(rp, k);
    layout::lemma_up_step(last, k);
    layout::lemma_leftmost_monotonic(q, rp, k);
    layout::lemma_leftmost_monotonic(lp, q, k);
    lemma_clean_up::<O>(lazy, last / 2, k);
    reveal_with_fuel(layout::up, 2);
    assert(q / 2 == layout::up(last / 2, k));
    lemma_reads_block::<O>(n, val, lazy, q, k);
    lemma_fold_split::<O>(all, b1 - n, b - n, r);
}

proof fn lemma_read_level<O: Operation>(
    n: nat,
    val: Seq<O::Value>,
    lazy: Seq<O::Update>,
    l: int,
    r: int,
    lp: nat,
    rp: nat,
    k: nat,
    left: O::Value,
    right: O::Value,
)
    requires
        reading::<O>(n, val, lazy, l, r, lp, rp, k, left, right),
        lp % 2 == 0,
        rp % 2 == 0,
    ensures
        reading::<O>(n, val, lazy, l, r, lp / 2, rp / 2, k + 1, left, right),
{
    reveal(reading);
    let first = (n + l) as nat;
    let last = (n + r - 1) as nat;
    layout::lemma_leftmost_step(lp / 2, k);
    layout::lemma_leftmost_step(rp / 2, k);
    layout::lemma_up_step(first, k);
    layout::lemma_up_step(last, k);
}

proof fn lemma_read_end<O: Operation>(
    n: nat,
    val: Seq<O::Value>,
    lazy: Seq<O::Update>,
    l: int,
    r: int,
    lp: nat,
    k: nat,
    left: O::Value,
    right: O::Value,
)
    requires
        reading::<O>(n, val, lazy, l, r, lp, lp, k, left, right),
    ensures
        O::combine_spec(left, right) == fold::<O>(leaves::<O>(n, val, lazy).subrange(l, r)),
{
    reveal(reading);
    lemma_fold_split::<O>(leaves::<O>(n, val, lazy), l, layout::leftmost(lp, k) - n, r);
}

/// A lazy segment tree over `n` values of the algebra `O`.
pub struct LazySegmentTree<O: Operation> {
    val: Vec<O::Value>,
    lazy: Vec<O::Update>,
    n: usize,
    h: u32,
}

impl<O: Operation> View for LazySegmentTree<O> {
    type V = Seq<O::Value>;

    /// The `n` values the tree stands for, in order, with every pending
    /// update taken into account.
    open spec fn view(&self) -> Seq<O::Value> {
        leaves::<O>(self.size(), self.nodes(), self.pending())
    }
}

impl<O: Operation> LazySegmentTree<O> {
    /// The array of stored values: slot `0`, the internal nodes, the
    /// leaves, and whatever was given beyond `n` values.
    pub closed spec fn nodes(&self) -> Seq<O::Value> {
        self.val@
    }

    /// The array of pending updates, one for each internal node.
    pub closed spec fn pending(&self) -> Seq<O::Update> {
        self.lazy@
    }

    /// The number of positions.
    pub closed spec fn size(&self) -> nat {
        self.n as nat
    }

    /// The recorded height of the tree.
    pub closed spec fn height(&self) -> nat {
        self.h as nat
    }

    /// The arrays are consistent and the recorded height is the number of
    /// binary digits of `n`.
    pub open spec fn wf(&self) -> bool {
        &&& consistent::<O>(self.size(), self.nodes(), self.pending())
        &&& self.height() == layout::bit_length(self.size())
    }

    /// The stored values as they are.
    pub fn val(&self) -> (res: &Vec<O::Value>)
        ensures
            res@ == self.nodes(),
    {
        &self.val
    }

    /// The pending updates as they are.
    pub fn lazy(&self) -> (res: &Vec<O::Update>)
        ensures
            res@ == self.pending(),
    {
        &self.lazy
    }

    /// Builds the tree over the first `n` entries of `data`, padded with
    /// identity values; nothing is pending.
    pub fn new(n: usize, data: Vec<O::Value>) -> (res: Self)
        ensures
            res.wf(),
            res.size() == n,
            res@ == padded::<O>(data@, n as nat),
            res.pending().len() == n,
            forall|p: int| 0 <= p < n ==> res.pending()[p] == O::i_update_spec(),
            res.nodes().len() == n + if data@.len() < n {
                n as int
            } else {
                data@.len() as int
            },
            n > 0 ==> res.nodes()[0] == O::i_value_spec(),
            forall|j: int|
                n <= j < res.nodes().len() ==> #[trigger] res.nodes()[j] == (if j - n
                    < data@.len() {
                    data@[j - n]
                } else {
                    O::i_value_spec()
                }),
    {
        let ghost given = data@;
        let mut data = data;
        let mut val: Vec<O::Value> = Vec::new();
        while val.len() < n
            invariant
                val.len() <= n,
                val.len() > 0 ==> val@[0] == O::i_value_spec(),
            decreases n - val.len(),
        {
            val.push(O::i_value());
        }
        val.append(&mut data);
        while val.len() - n < n
            invariant
                n <= val.len(),
                val.len() == n + given.len() || (given.len() < n && val.len() <= 2 * n),
                n > 0 ==> val@[0] == O::i_value_spec(),
                given.len() <= val.len() - n,
                forall|j: int|
                    n <= j < val.len() ==> #[trigger] val@[j] == (if j - n < given.len() {
                        given[j - n]
                    } else {
                        O::i_value_spec()
                    }),
            decreases 2 * n - val.len(),
        {
            val.push(O::i_value());
        }
        let mut lazy: Vec<O::Update> = Vec::new();
        while lazy.len() < n
            invariant
                lazy.len() <= n,
                forall|p: int| 0 <= p < lazy.len() ==> lazy@[p] == O::i_update_spec(),
            decreases n - lazy.len(),
        {
            lazy.push(O::i_update());
        }
        proof {
            layout::lemma_leading_zeros(n as u64);
            vstd::std_specs::bits::axiom_u64_leading_zeros(n as u64);
            O::lemma_i_update();
        }
        let h = 64 - (n as u64).leading_zeros();
        let ghost bottom = val@.subrange(n as int, val.len() as int);
        let ghost full = val@.len();
        let mut i: usize = n;
        while i > 1
            invariant
                i <= n,
                2 * n <= val.len(),
                val@.len() == full,
                n > 0 ==> val@[0] == O::i_value_spec(),
                lazy@.len() == n,
                forall|p: int| 0 <= p < n ==> lazy@[p] == O::i_update_spec(),
                O::is_i_spec(O::i_update_spec()),
                val@.subrange(n as int, val.len() as int) == bottom,
                forall|j: int| i <= j < n ==> #[trigger] node_ok::<O>(n as nat, val@, lazy@, j),
            decreases i,
        {
            i -= 1;
            proof {
                layout::lemma_shl_one(i, (2 * i) as usize);
            }
            let ghost before = val@;
            let x = O::combine(&val[i << 1], &val[i << 1 | 1]);
            val[i] = x;
            assert(val@.subrange(n as int, val.len() as int) =~= before.subrange(
                n as int,
                val.len() as int,
            ));
            assert forall|j: int| i <= j < n implies #[trigger] node_ok::<O>(
                n as nat,
                val@,
                lazy@,
                j,
            ) by {
                if j > i {
                    assert(node_ok::<O>(n as nat, before, lazy@, j));
                } else {
                    O::lemma_is_i(
                        x,
                        layout::span(
                            layout::height(n as nat, j as nat),
                        ),
                        lazy@[j],
                    );
                }
            }
        }
        let res = LazySegmentTree { val, lazy, n, h };
        proof {
            assert forall|j: int| n <= j < res.val@.len() implies #[trigger] res.val@[j] == (if j
                - n < given.len() {
                given[j - n]
            } else {
                O::i_value_spec()
            }) by {
                assert(res.val@[j] == bottom[j - n]);
            }
            assert forall|j: int| 0 <= j < n implies res@[j] == padded::<O>(given, n as nat)[j] by {
                assert(res.val@[n + j] == bottom[j]);
                lemma_all_clean::<O>(res.lazy@, ((n + j) / 2) as nat);
                lemma_flushed_clean::<O>(res.lazy@, ((n + j) / 2) as nat, 1, res.val@[n + j]);
            }
            assert(res@ =~= padded::<O>(given, n as nat));
        }
        res
    }

    /// Applies `amount` to the value stored at node `i`, which stands for
    /// `len` positions, and notes it as pending there if `i` has children.
    fn apply(&mut self, i: usize, len: usize, amount: &O::Update)
        requires
            i < old(self).val@.len(),
            old(self).lazy@.len() == old(self).n,
        ensures
            final(self).n == old(self).n,
            final(self).h == old(self).h,
            final(self).val@ == old(self).val@.update(
                i as int,
                O::apply_spec(old(self).val@[i as int], len as nat, *amount),
            ),
            final(self).lazy@ == applied_lazy::<O>(old(self).lazy@, i as int, *amount),
    {
        O::apply(&mut self.val[i], len, amount);
        if i < self.n {
            O::compose(&mut self.lazy[i], amount);
        }
    }

    /// Hands every update that is pending above leaf `i` down, from the
    /// root to the parent of `i`, so that nothing is pending on that path.
    fn propagate(&mut self, i: usize)
        requires
            old(self).wf(),
            old(self).n <= i < 2 * old(self).n,
        ensures
            final(self).wf(),
            final(self).n == old(self).n,
            final(self).val@.len() == old(self).val@.len(),
            final(self)@ == old(self)@,
            final(self).h == old(self).h,
            (final(self).val@, final(self).lazy@) == handed_down::<O>(
                old(self).val@,
                old(self).lazy@,
                i as nat,
                old(self).h as nat,
            ),
            clean::<O>(final(self).lazy@, (i / 2) as nat),
            forall|q: nat|
                q < old(self).n && clean::<O>(old(self).lazy@, q) ==> #[trigger] clean::<O>(
                    final(self).lazy@,
                    q,
                ),
    {
        let n = self.n;
        let ghost all = self@;
        let ghost val0 = self.val@;
        let ghost lazy0 = self.lazy@;
        proof {
            layout::lemma_bit_length(n as nat);
            layout::lemma_leftmost_step(1, (self.h - 1) as nat);
            assert(self.val.len() >= 2 * n);
            layout::lemma_span_fits(self.h as nat);
            layout::lemma_one_shl((self.h - 1) as usize);
            layout::lemma_leftmost_step(1, self.h as nat);
            layout::lemma_leftmost_zero((self.h + 1) as nat);
            layout::lemma_range_up(0, i as nat, (self.h + 1) as nat);
        }
        let mut len: usize = 1usize << ((self.h - 1) as usize);
        let mut shift: u32 = self.h;
        while shift >= 1
            invariant
                n >= 1,
                self.n == n,
                n <= i < 2 * n,
                self.h == old(self).h,
                shift <= self.h < usize::BITS,
                self.val@.len() == old(self).val@.len(),
                consistent::<O>(n as nat, self.val@, self.lazy@),
                self@ == all,
                handed_down::<O>(self.val@, self.lazy@, i as nat, shift as nat) == handed_down::<O>(
                    val0,
                    lazy0,
                    i as nat,
                    self.h as nat,
                ),
                shift >= 1 ==> len == layout::span((shift - 1) as nat),
                clean::<O>(
                    self.lazy@,
                    layout::up(i as nat, (shift + 1) as nat),
                ),
                forall|q: nat|
                    q < n && clean::<O>(lazy0, q) ==> #[trigger] clean::<O>(self.lazy@, q),
            decreases shift,
        {
            let ptr = i >> (shift as usize);
            let ghost val_in = self.val@;
            let ghost lazy_in = self.lazy@;
            proof {
                layout::lemma_shr_is_up(i, shift as usize);
                layout::lemma_up_step(i as nat, shift as nat);
                layout::lemma_up_range(i as nat, shift as nat);
                layout::lemma_leftmost_levels(ptr as nat, 1, shift as nat);
                layout::lemma_leftmost_monotonic(
                    ptr as nat,
                    ptr as nat,
                    shift as nat,
                );
                reveal_with_fuel(layout::leftmost, 2);
                assert(2 * ptr <= i);
            }
            if !O::is_i(&self.lazy[ptr]) {
                let ghost val1 = self.val@;
                let ghost lazy1 = self.lazy@;
                let mut amount = O::i_update();
                proof {
                    O::lemma_i_update();
                    assert(O::is_i_spec(lazy1[ptr as int])
                        || layout::complete(n as nat, ptr as nat));
                    layout::lemma_path_height(
                        n as nat,
                        i as nat,
                        shift as nat,
                    );
                    lemma_push_step::<O>(n as nat, val1, lazy1, ptr as nat, amount);
                    layout::lemma_shl_one(ptr, (2 * ptr) as usize);
                }
                core::mem::swap(&mut self.lazy[ptr], &mut amount);
                self.apply(ptr << 1, len, &amount);
                self.apply(ptr << 1 | 1, len, &amount);
                proof {
                    let idle = O::i_update_spec();
                    assert(self.val@ =~= pushed_val::<O>(val1, lazy1, ptr as int, len as nat));
                    assert(self.lazy@ =~= pushed_lazy::<O>(lazy1, ptr as int, idle));
                    lemma_clean_same::<O>(lazy1, self.lazy@, (ptr / 2) as nat);
                    assert forall|q: nat| q < n && clean::<O>(lazy0, q) implies #[trigger] clean::<
                        O,
                    >(self.lazy@, q) by {
                        lemma_clean_kept::<O>(lazy1, self.lazy@, q);
                    }
                }
            }
            proof {
                if shift >= 2 {
                    layout::lemma_leftmost_step(1, (shift - 2) as nat);
                    layout::lemma_shr_one(len);
                }
                assert(handed_down::<O>(val_in, lazy_in, i as nat, shift as nat) == handed_down::<O>(
                    self.val@,
                    self.lazy@,
                    i as nat,
                    (shift - 1) as nat,
                ));
            }
            len >>= 1;
            shift -= 1;
        }
        proof {
            reveal_with_fuel(layout::up, 2);
        }
    }

    /// Recombines every node above leaf `i`, from its parent to the root,
    /// and applies to each what is pending at it.
    fn update(&mut self, i: usize)
        requires
            shaped::<O>(old(self).n as nat, old(self).val@, old(self).lazy@),
            old(self).n <= i < 2 * old(self).n,
        ensures
            final(self).n == old(self).n,
            final(self).h == old(self).h,
            final(self).lazy@ == old(self).lazy@,
            final(self).val@.len() == old(self).val@.len(),
            final(self)@ == old(self)@,
            final(self).val@ == recombined::<O>(old(self).val@, old(self).lazy@, i as nat, 2),
            forall|k: int|
                0 <= k < old(self).val@.len() && !layout::is_above(k as nat, i as nat)
                    ==> #[trigger] final(self).val@[k] == old(self).val@[k],
            forall|p: int|
                1 <= p < old(self).n ==> #[trigger] node_ok::<O>(
                    old(self).n as nat,
                    final(self).val@,
                    final(self).lazy@,
                    p,
                ) || (!node_ok::<O>(old(self).n as nat, old(self).val@, old(self).lazy@, p)
                    && !layout::is_above(p as nat, i as nat)),
    {
        let n = self.n;
        let ghost val0 = self.val@;
        let ghost lazy0 = self.lazy@;
        let ghost mut s: nat = 0;
        let mut cur = i;
        let mut len: usize = 2;
        proof {
            assert(self.val.len() >= 2 * n);
            reveal_with_fuel(layout::leftmost, 3);
        }
        while cur > 1
            invariant
                n >= 1,
                self.n == n,
                self.h == old(self).h,
                n <= i < 2 * n,
                2 * n <= usize::MAX,
                self.lazy@ == lazy0,
                self.val@.len() == val0.len(),
                shaped::<O>(n as nat, val0, lazy0),
                cur == layout::up(i as nat, s),
                cur <= i,
                cur > 1 ==> len == layout::span(s + 1),
                recombined::<O>(self.val@, lazy0, cur as nat, layout::span(s + 1)) == recombined::<O>(
                    val0,
                    lazy0,
                    i as nat,
                    2,
                ),
                forall|j: int|
                    0 <= j < val0.len() && !layout::is_above(j as nat, i as nat)
                        ==> #[trigger] self.val@[j] == val0[j],
                forall|p: int|
                    1 <= p < n ==> #[trigger] node_ok::<O>(n as nat, self.val@, lazy0, p)
                        || layout::is_above(p as nat, cur as nat) || (
                    !node_ok::<O>(n as nat, val0, lazy0, p)
                        && !layout::is_above(p as nat, i as nat)),
            decreases cur,
        {
            let ghost below = cur;
            let ghost stale = self.val@;
            cur >>= 1;
            proof {
                layout::lemma_shr_one(below);
                layout::lemma_up_step(i as nat, s);
                layout::lemma_up_reaches((i / 2) as nat, s);
                layout::lemma_up_range(i as nat, s + 1);
                layout::lemma_leftmost_monotonic(
                    cur as nat,
                    cur as nat,
                    s + 1,
                );
                layout::lemma_shl_one(cur, (2 * cur) as usize);
            }
            let x = O::combine(&self.val[cur << 1], &self.val[cur << 1 | 1]);
            self.val[cur] = x;
            if !O::is_i(&self.lazy[cur]) {
                O::apply(&mut self.val[cur], len, &self.lazy[cur]);
                proof {
                    assert(O::is_i_spec(lazy0[cur as int])
                        || layout::complete(n as nat, cur as nat));
                    layout::lemma_path_height(n as nat, i as nat, s + 1);
                }
            } else {
                proof {
                    O::lemma_is_i(
                        x,
                        layout::span(
                            layout::height(n as nat, cur as nat),
                        ),
                        lazy0[cur as int],
                    );
                }
            }
            proof {
                assert(node_ok::<O>(n as nat, self.val@, lazy0, cur as int));
                assert forall|p: int| 1 <= p < n implies #[trigger] node_ok::<O>(
                    n as nat,
                    self.val@,
                    lazy0,
                    p,
                ) || layout::is_above(p as nat, cur as nat) || (!node_ok::<
                    O,
                >(n as nat, val0, lazy0, p) && !layout::is_above(
                    p as nat,
                    i as nat,
                )) by {
                    if p != cur && p != cur / 2 {
                        assert(node_ok::<O>(n as nat, stale, lazy0, p)
                            || layout::is_above(p as nat, below as nat) || (
                        !node_ok::<O>(n as nat, val0, lazy0, p)
                            && !layout::is_above(p as nat, i as nat)));
                    }
                }
                layout::lemma_leftmost_step(1, s + 1);
                let both = O::combine_spec(stale[2 * cur], stale[2 * cur + 1]);
                let own = if O::is_i_spec(lazy0[cur as int]) {
                    both
                } else {
                    O::apply_spec(both, layout::span(s + 1), lazy0[cur as int])
                };
                assert(self.val@ =~= stale.update(cur as int, own));
                assert(recombined::<O>(stale, lazy0, below as nat, layout::span(s + 1))
                    == recombined::<O>(self.val@, lazy0, cur as nat, layout::span(s + 2)));
                s = s + 1;
                if cur > 1 {
                    layout::lemma_leftmost_monotonic(2, cur as nat, s);
                    layout::lemma_shl_one(len, (2 * len) as usize);
                }
            }
            len <<= 1;
        }
        proof {
            assert forall|j: int| n <= j < 2 * n implies self.val@[j] == val0[j] by {
                layout::lemma_above_is_less(j as nat, i as nat);
            }
            assert(self@ =~= old(self)@);
        }
    }

    /// Applies `amount` to each position of `[l, r)`.
    ///
    /// An empty range changes nothing at all.
    pub fn modify(&mut self, l: usize, r: usize, amount: &O::Update)
        requires
            old(self).wf(),
            l <= r <= old(self)@.len(),
        ensures
            final(self).wf(),
            final(self).size() == old(self).size(),
            final(self)@ == range_applied::<O>(old(self)@, l as int, r as int, *amount),
            l == r ==> *final(self) == *old(self),
            l < r ==> (final(self).nodes(), final(self).pending()) == range_updated::<O>(
                old(self).size(),
                old(self).height(),
                old(self).nodes(),
                old(self).pending(),
                l as int,
                r as int,
                *amount,
            ),
    {
        if l == r {
            assert(self@ =~= range_applied::<O>(self@, l as int, r as int, *amount));
            return ;
        }
        let n = self.n;
        assert(self.val.len() >= 2 * n);
        let lp0 = l + n;
        let rp0 = r + n;
        let last = rp0 - 1;
        self.propagate(lp0);
        self.propagate(last);
        let ghost base = self@;
        let ghost val1 = self.val@;
        let ghost lazy1 = self.lazy@;
        let ghost mut k: nat = 0;
        let mut lp = lp0;
        let mut rp = rp0;
        let mut len: usize = 1;
        proof {
            lemma_walk_start::<O>(n as nat, self.val@, self.lazy@, l as int, r as int, *amount);
            reveal_with_fuel(layout::leftmost, 2);
        }
        while lp < rp
            invariant
                self.n == n,
                self.h == old(self).h,
                lp0 == n + l,
                rp0 == n + r,
                last == rp0 - 1,
                l < r <= n,
                lp <= rp <= rp0,
                2 * n <= self.val@.len(),
                2 * n <= usize::MAX,
                self.lazy@.len() == n,
                lp < rp ==> len == layout::span(k),
                spread::<O>(self.val@, self.lazy@, lp as nat, rp as nat, layout::span(k), *amount)
                    == spread::<O>(val1, lazy1, lp0 as nat, rp0 as nat, 1, *amount),
                walking::<O>(
                    n as nat,
                    self.val@,
                    self.lazy@,
                    base,
                    l as int,
                    r as int,
                    lp as nat,
                    rp as nat,
                    k,
                    *amount,
                ),
            decreases rp,
        {
            let ghost val_in = self.val@;
            let ghost lazy_in = self.lazy@;
            let ghost lp_in = lp as nat;
            let ghost rp_in = rp as nat;
            proof {
                layout::lemma_low_bit(lp);
                layout::lemma_low_bit(rp);
            }
            if lp & 1 == 1 {
                proof {
                    lemma_walk_left::<O>(
                        n as nat,
                        self.val@,
                        self.lazy@,
                        base,
                        l as int,
                        r as int,
                        lp as nat,
                        rp as nat,
                        k,
                        *amount,
                    );
                }
                self.apply(lp, len, amount);
                lp += 1;
            }
            if rp & 1 == 1 {
                proof {
                    lemma_walk_right::<O>(
                        n as nat,
                        self.val@,
                        self.lazy@,
                        base,
                        l as int,
                        r as int,
                        lp as nat,
                        rp as nat,
                        k,
                        *amount,
                    );
                }
                rp -= 1;
                self.apply(rp, len, amount);
            }
            proof {
                layout::lemma_shr_one(lp);
                layout::lemma_shr_one(rp);
                lemma_walk_level::<O>(
                    n as nat,
                    self.val@,
                    self.lazy@,
                    base,
                    l as int,
                    r as int,
                    lp as nat,
                    rp as nat,
                    k,
                    *amount,
                );
                if lp / 2 < rp / 2 {
                    layout::lemma_shl_one(len, (2 * len) as usize);
                }
                layout::lemma_leftmost_step(1, k);
                assert(spread::<O>(val_in, lazy_in, lp_in, rp_in, layout::span(k), *amount)
                    == spread::<O>(
                    self.val@,
                    self.lazy@,
                    (lp / 2) as nat,
                    (rp / 2) as nat,
                    layout::span(k + 1),
                    *amount,
                ));
            }
            lp >>= 1;
            rp >>= 1;
            len <<= 1;
            proof {
                k = k + 1;
            }
        }
        proof {
            lemma_walk_end::<O>(
                n as nat,
                self.val@,
                self.lazy@,
                base,
                l as int,
                r as int,
                lp as nat,
                k,
                *amount,
            );
        }
        self.update(lp0);
        self.update(last);
    }

    /// Aggregates the positions `[l, r)`, in the order of the positions.
    ///
    /// Pending updates on the way are handed down first; the values the
    /// tree stands for stay as they were. An empty range changes nothing
    /// at all.
    pub fn query(&mut self, l: usize, r: usize) -> (res: O::Value)
        requires
            old(self).wf(),
            l <= r <= old(self)@.len(),
        ensures
            final(self).wf(),
            final(self)@ == old(self)@,
            res == fold::<O>(old(self)@.subrange(l as int, r as int)),
            l == r ==> res == O::i_value_spec() && *final(self) == *old(self),
            l < r ==> (final(self).nodes(), final(self).pending()) == range_flushed::<O>(
                old(self).size(),
                old(self).height(),
                old(self).nodes(),
                old(self).pending(),
                l as int,
                r as int,
            ),
    {
        let n = self.n;
        assert(self.val.len() >= 2 * n);
        let mut left = O::i_value();
        if l == r {
            assert(self@.subrange(l as int, l as int).len() == 0);
            return left;
        }
        let mut right = O::i_value();
        let lp0 = l + n;
        let rp0 = r + n;
        let last = rp0 - 1;
        self.propagate(lp0);
        self.propagate(last);
        let ghost val1 = self.val@;
        let ghost lazy1 = self.lazy@;
        let ghost mut k: nat = 0;
        let mut lp = lp0;
        let mut rp = rp0;
        proof {
            lemma_read_start::<O>(n as nat, self.val@, self.lazy@, l as int, r as int);
        }
        while lp < rp
            invariant
                self.n == n,
                self.wf(),
                self@ == old(self)@,
                self.val@ == val1,
                self.lazy@ == lazy1,
                lp0 == n + l,
                rp0 == n + r,
                l < r <= n,
                lp <= rp <= rp0,
                2 * n <= self.val@.len(),
                reading::<O>(
                    n as nat,
                    self.val@,
                    self.lazy@,
                    l as int,
                    r as int,
                    lp as nat,
                    rp as nat,
                    k,
                    left,
                    right,
                ),
            decreases rp,
        {
            proof {
                layout::lemma_low_bit(lp);
                layout::lemma_low_bit(rp);
            }
            if lp & 1 == 1 {
                proof {
                    lemma_read_left::<O>(
                        n as nat,
                        self.val@,
                        self.lazy@,
                        l as int,
                        r as int,
                        lp as nat,
                        rp as nat,
                        k,
                        left,
                        right,
                    );
                }
                left = O::combine(&left, &self.val[lp]);
                lp += 1;
            }
            if rp & 1 == 1 {
                proof {
                    lemma_read_right::<O>(
                        n as nat,
                        self.val@,
                        self.lazy@,
                        l as int,
                        r as int,
                        lp as nat,
                        rp as nat,
                        k,
                        left,
                        right,
                    );
                }
                rp -= 1;
                right = O::combine(&self.val[rp], &right);
            }
            proof {
                layout::lemma_shr_one(lp);
                layout::lemma_shr_one(rp);
                lemma_read_level::<O>(
                    n as nat,
                    self.val@,
                    self.lazy@,
                    l as int,
                    r as int,
                    lp as nat,
                    rp as nat,
                    k,
                    left,
                    right,
                );
            }
            lp >>= 1;
            rp >>= 1;
            proof {
                k = k + 1;
            }
        }
        proof {
            lemma_read_end::<O>(
                n as nat,
                self.val@,
                self.lazy@,
                l as int,
                r as int,
                lp as nat,
                k,
                left,
                right,
            );
        }
        O::combine(&left, &right)
    }

    /// The number of positions.
    pub fn len(&self) -> (res: usize)
        requires
            self.wf(),
        ensures
            res == self@.len(),
    {
        self.n
    }

    /// As [`LazySegmentTree::modify`], for any `l` and `r`: a range that
    /// ends behind the last position, or before it starts, is refused and
    /// the tree left as it was.
    pub fn try_modify(&mut self, l: usize, r: usize, amount: &O::Update) -> (res: Result<(), IndexOutOfRange>)
        requires
            old(self).wf(),
        ensures
            final(self).wf(),
            res.is_ok() <==> l <= r <= old(self)@.len(),
            res.is_ok() ==> final(self)@ == range_applied::<O>(
                old(self)@,
                l as int,
                r as int,
                *amount,
            ),
            res.is_ok() && l == r ==> *final(self) == *old(self),
            res.is_ok() && l < r ==> (final(self).nodes(), final(self).pending())
                == range_updated::<O>(
                old(self).size(),
                old(self).height(),
                old(self).nodes(),
                old(self).pending(),
                l as int,
                r as int,
                *amount,
            ),
            res.is_err() ==> *final(self) == *old(self) && res == Err::<(), IndexOutOfRange>(
                (IndexOutOfRange {
                    index: if r > old(self)@.len() {
                        r
                    } else {
                        l
                    },
                    size: old(self)@.len() as usize,
                }),
            ),
    {
        if r > self.n {
            return Err(IndexOutOfRange { index: r, size: self.n });
        }
        if l > r {
            return Err(IndexOutOfRange { index: l, size: self.n });
        }
        self.modify(l, r, amount);
        Ok(())
    }

    /// As [`LazySegmentTree::query`], for any `l` and `r`: a range that
    /// ends behind the last position, or before it starts, is refused and
    /// the tree left as it was.
    pub fn try_query(&mut self, l: usize, r: usize) -> (res: Result<O::Value, IndexOutOfRange>)
        requires
            old(self).wf(),
        ensures
            final(self).wf(),
            final(self)@ == old(self)@,
            res.is_ok() <==> l <= r <= old(self)@.len(),
            res matches Ok(v) ==> v == fold::<O>(old(self)@.subrange(l as int, r as int)),
            res.is_ok() && l == r ==> *final(self) == *old(self),
            res.is_ok() && l < r ==> (final(self).nodes(), final(self).pending())
                == range_flushed::<O>(
                old(self).size(),
                old(self).height(),
                old(self).nodes(),
                old(self).pending(),
                l as int,
                r as int,
            ),
            res.is_err() ==> *final(self) == *old(self) && res == Err::<O::Value, IndexOutOfRange>(
                (IndexOutOfRange {
                    index: if r > old(self)@.len() {
                        r
                    } else {
                        l
                    },
                    size: old(self)@.len() as usize,
                }),
            ),
    {
        if r > self.n {
            return Err(IndexOutOfRange { index: r, size: self.n });
        }
        if l > r {
            return Err(IndexOutOfRange { index: l, size: self.n });
        }
        Ok(self.query(l, r))
    }
}

/// Where every entry is an identity update, every path is clean.
proof fn lemma_all_clean<O: Operation>(lazy: Seq<O::Update>, q: nat)
    requires
        q < lazy.len() || q == 0,
        forall|p: int| 0 <= p < lazy.len() ==> O::is_i_spec(#[trigger] lazy[p]),
    ensures
        clean::<O>(lazy, q),
    decreases q,
{
    if q > 0 {
        lemma_all_clean::<O>(lazy, q / 2);
    }
}

/// Sums of `i64` that wrap around, with updates that add to every position
/// of a block.
pub struct SumAdd;

impl Operation for SumAdd {
    type Value = i64;

    type Update = i64;

    open spec fn combine_spec(l: i64, r: i64) -> i64 {
        wrapping::wrap(l + r)
    }

    open spec fn i_value_spec() -> i64 {
        0
    }

    open spec fn compose_spec(a: i64, b: i64) -> i64 {
        wrapping::wrap(a + b)
    }

    open spec fn is_i_spec(u: i64) -> bool {
        u == 0
    }

    open spec fn i_update_spec() -> i64 {
        0
    }

    open spec fn apply_spec(v: i64, len: nat, u: i64) -> i64 {
        wrapping::wrap(v + len * u)
    }

    proof fn lemma_associative(a: i64, b: i64, c: i64) {
        wrapping::lemma_wrap_add(a + b, c as int);
        wrapping::lemma_wrap_add(a as int, b + c);
    }

    proof fn lemma_identity(a: i64) {
        wrapping::lemma_wrap_small(a as int);
    }

    proof fn lemma_compose(v: i64, len: nat, a: i64, b: i64) {
        wrapping::lemma_wrap_mul(len as int, a + b);
        wrapping::lemma_wrap_add(v as int, len * wrapping::wrap(a + b));
        wrapping::lemma_wrap_add(v as int, len * (a + b));
        wrapping::lemma_wrap_add(v + len * a, len * b);
        assert(len * (a + b) == len * a + len * b) by (nonlinear_arith);
    }

    proof fn lemma_is_i(v: i64, len: nat, u: i64) {
        assert(len * 0 == 0);
        wrapping::lemma_wrap_small(v as int);
    }

    proof fn lemma_i_update() {
    }

    proof fn lemma_apply_distributes(a: i64, b: i64, len: nat, u: i64) {
        wrapping::lemma_wrap_add(a + b, 2 * len * u);
        wrapping::lemma_wrap_add(a + len * u, wrapping::wrap(b + len * u) as int);
        wrapping::lemma_wrap_add(a + len * u, b + len * u);
        assert((2 * len) * u == len * u + len * u) by (nonlinear_arith);
    }

    fn combine(l: &i64, r: &i64) -> (res: i64) {
        wrapping::plus(*l, *r)
    }

    fn i_value() -> (res: i64) {
        0
    }

    fn compose(a: &mut i64, b: &i64) {
        *a = wrapping::plus(*a, *b);
    }

    fn is_i(u: &i64) -> (res: bool) {
        *u == 0
    }

    fn i_update() -> (res: i64) {
        0
    }

    fn apply(v: &mut i64, len: usize, u: &i64) {
        *v = wrapping::plus_times(*v, len, *u);
    }
}

/// The sum of the entries of `s` over the integers.
pub open spec fn total(s: Seq<i64>) -> int
    decreases s.len(),
{
    if s.len() == 0 {
        0
    } else {
        total(s.drop_last()) + s.last()
    }
}

/// The fold of sums is the wrapped sum over the integers.
pub proof fn lemma_sum_add_fold(s: Seq<i64>)
    ensures
        fold::<SumAdd>(s) == wrapping::wrap(total(s)),
    decreases s.len(),
{
    if s.len() == 0 {
        wrapping::lemma_wrap_small(0);
    } else {
        lemma_sum_add_fold(s.drop_last());
        wrapping::lemma_wrap_add(total(s.drop_last()), s.last() as int);
    }
}

/// Adding `amount` to each of the first `k` entries of `s` adds `k` times
/// `amount` to their sum.
proof fn lemma_total_added(s: Seq<i64>, t: Seq<i64>, amount: i64, k: int)
    requires
        0 <= k <= s.len(),
        s.len() == t.len(),
        forall|j: int| 0 <= j < k ==> #[trigger] t[j] == SumAdd::apply_spec(s[j], 1, amount),
    ensures
        wrapping::wrap(total(t.subrange(0, k))) == wrapping::wrap(total(s.subrange(0, k)) + k * amount),
    decreases k,
{
    if k == 0 {
        assert(0 * amount == 0);
    } else {
        lemma_total_added(s, t, amount, k - 1);
        assert(t.subrange(0, k).drop_last() =~= t.subrange(0, k - 1));
        assert(s.subrange(0, k).drop_last() =~= s.subrange(0, k - 1));
        let before = total(s.subrange(0, k - 1));
        let after = total(t.subrange(0, k - 1));
        assert(t[k - 1] == wrapping::wrap(s[k - 1] + 1 * amount));
        assert(1 * amount == amount);
        wrapping::lemma_wrap_add(after, t[k - 1] as int);
        wrapping::lemma_wrap_add(after, s[k - 1] + amount);
        wrapping::lemma_wrap_add(before + (k - 1) * amount, s[k - 1] + amount);
        assert((k - 1) * amount + amount == k * amount) by (nonlinear_arith);
    }
}

/// On sums, a query for `[a, b)` after `amount` has been added to the
/// positions of `[a, b)` returns the sum from before plus `amount` times
/// `b - a`, wrapped around.
pub proof fn lemma_range_add_then_query(s: Seq<i64>, a: int, b: int, amount: i64)
    requires
        0 <= a <= b <= s.len(),
    ensures
        fold::<SumAdd>(range_applied::<SumAdd>(s, a, b, amount).subrange(a, b)) == wrapping::wrap(
            fold::<SumAdd>(s.subrange(a, b)) + amount * (b - a),
        ),
{
    let t = range_applied::<SumAdd>(s, a, b, amount);
    let old_part = s.subrange(a, b);
    let new_part = t.subrange(a, b);
    lemma_sum_add_fold(old_part);
    lemma_sum_add_fold(new_part);
    lemma_total_added(old_part, new_part, amount, b - a);
    assert(old_part.subrange(0, b - a) =~= old_part);
    assert(new_part.subrange(0, b - a) =~= new_part);
    wrapping::lemma_wrap_add(total(old_part), (b - a) * amount);
    assert((b - a) * amount == amount * (b - a)) by (nonlinear_arith);
}

/// Minima of `i64`, with updates that assign one value to every position
/// of a block: of two updates the later one wins.
pub struct MinAssign;

impl Operation for MinAssign {
    type Value = i64;

    type Update = Option<i64>;

    open spec fn combine_spec(l: i64, r: i64) -> i64 {
        if l <= r {
            l
        } else {
            r
        }
    }

    open spec fn i_value_spec() -> i64 {
        i64::MAX
    }

    open spec fn compose_spec(a: Option<i64>, b: Option<i64>) -> Option<i64> {
        if b.is_some() {
            b
        } else {
            a
        }
    }

    open spec fn is_i_spec(u: Option<i64>) -> bool {
        u.is_none()
    }

    open spec fn i_update_spec() -> Option<i64> {
        None
    }

    open spec fn apply_spec(v: i64, len: nat, u: Option<i64>) -> i64 {
        match u {
            Some(x) => x,
            None => v,
        }
    }

    proof fn lemma_associative(a: i64, b: i64, c: i64) {
    }

    proof fn lemma_identity(a: i64) {
    }

    proof fn lemma_compose(v: i64, len: nat, a: Option<i64>, b: Option<i64>) {
    }

    proof fn lemma_is_i(v: i64, len: nat, u: Option<i64>) {
    }

    proof fn lemma_i_update() {
    }

    proof fn lemma_apply_distributes(a: i64, b: i64, len: nat, u: Option<i64>) {
    }

    fn combine(l: &i64, r: &i64) -> (res: i64) {
        if *l <= *r {
            *l
        } else {
            *r
        }
    }

    fn i_value() -> (res: i64) {
        i64::MAX
    }

    fn compose(a: &mut Option<i64>, b: &Option<i64>) {
        if b.is_some() {
            *a = *b;
        }
    }

    fn is_i(u: &Option<i64>) -> (res: bool) {
        u.is_none()
    }

    fn i_update() -> (res: Option<i64>) {
        None
    }

    fn apply(v: &mut i64, len: usize, u: &Option<i64>) {
        if let Some(x) = u {
            *v = *x;
        }
    }
}

/// The first value that is present, with updates that assign one value to
/// every position of a block: a monoid in which the order of the arguments
/// shows.
pub struct FirstAssign;

impl Operation for FirstAssign {
    type Value = Option<u64>;

    type Update = Option<u64>;

    open spec fn combine_spec(l: Option<u64>, r: Option<u64>) -> Option<u64> {
        if l.is_some() {
            l
        } else {
            r
        }
    }

    open spec fn i_value_spec() -> Option<u64> {
        None
    }

    open spec fn compose_spec(a: Option<u64>, b: Option<u64>) -> Option<u64> {
        if b.is_some() {
            b
        } else {
            a
        }
    }

    open spec fn is_i_spec(u: Option<u64>) -> bool {
        u.is_none()
    }

    open spec fn i_update_spec() -> Option<u64> {
        None
    }

    open spec fn apply_spec(v: Option<u64>, len: nat, u: Option<u64>) -> Option<u64> {
        if u.is_some() {
            u
        } else {
            v
        }
    }

    proof fn lemma_associative(a: Option<u64>, b: Option<u64>, c: Option<u64>) {
    }

    proof fn lemma_identity(a: Option<u64>) {
    }

    proof fn lemma_compose(v: Option<u64>, len: nat, a: Option<u64>, b: Option<u64>) {
    }

    proof fn lemma_is_i(v: Option<u64>, len: nat, u: Option<u64>) {
    }

    proof fn lemma_i_update() {
    }

    proof fn lemma_apply_distributes(a: Option<u64>, b: Option<u64>, len: nat, u: Option<u64>) {
    }

    fn combine(l: &Option<u64>, r: &Option<u64>) -> (res: Option<u64>) {
        if l.is_some() {
            *l
        } else {
            *r
        }
    }

    fn i_value() -> (res: Option<u64>) {
        None
    }

    fn compose(a: &mut Option<u64>, b: &Option<u64>) {
        if b.is_some() {
            *a = *b;
        }
    }

    fn is_i(u: &Option<u64>) -> (res: bool) {
        u.is_none()
    }

    fn i_update() -> (res: Option<u64>) {
        None
    }

    fn apply(v: &mut Option<u64>, len: usize, u: &Option<u64>) {
        if u.is_some() {
            *v = *u;
        }
    }
}

} // verus!
