//! Iterative segment tree: point update, range query.
//!
//! The tree lives in one array of `2n` values. The leaves occupy `[n, 2n)`,
//! every internal node `i` in `[1, n)` holds `combine(node 2i, node 2i + 1)`,
//! and slot `0` is unused.

use crate::data_structure::error::IndexOutOfRange;
use crate::data_structure::layout;
use crate::math::wrapping;
use vstd::prelude::*;

verus! {

/// The algebra a [`SegmentTree`] aggregates with: a monoid of values and
/// updates that act on single values.
///
/// `combine` has to be associative with `i_value` as its neutral element; it
/// need not be commutative. Implementations state what their functions
/// compute through the `*_spec` functions and prove the two monoid laws.
pub trait Operation {
    type Value: Clone;

    type Update;

    spec fn combine_spec(l: Self::Value, r: Self::Value) -> Self::Value;

    spec fn i_value_spec() -> Self::Value;

    spec fn apply_spec(v: Self::Value, u: Self::Update) -> Self::Value;

    proof fn lemma_associative(a: Self::Value, b: Self::Value, c: Self::Value)
        ensures
            Self::combine_spec(Self::combine_spec(a, b), c) == Self::combine_spec(
                a,
                Self::combine_spec(b, c),
            ),
    ;

    proof fn lemma_identity(a: Self::Value)
        ensures
            Self::combine_spec(Self::i_value_spec(), a) == a,
            Self::combine_spec(a, Self::i_value_spec()) == a,
    ;

    fn combine(l: &Self::Value, r: &Self::Value) -> (res: Self::Value)
        ensures
            res == Self::combine_spec(*l, *r),
    ;

    fn i_value() -> (res: Self::Value)
        ensures
            res == Self::i_value_spec(),
    ;

    fn apply(v: &mut Self::Value, u: &Self::Update)
        ensures
            *final(v) == Self::apply_spec(*old(v), *u),
    ;
}

/// `combine` folded over `s` from left to right, starting from the identity.
pub open spec fn fold<O: Operation>(s: Seq<O::Value>) -> O::Value
    decreases s.len(),
{
    if s.len() == 0 {
        O::i_value_spec()
    } else {
        O::combine_spec(fold::<O>(s.drop_last()), s.last())
    }
}

/// The first `n` entries of `data`, followed by identity values where `data`
/// is shorter than `n`.
pub open spec fn padded<O: Operation>(data: Seq<O::Value>, n: nat) -> Seq<O::Value> {
    Seq::new(
        n,
        |i: int|
            if i < data.len() {
                data[i]
            } else {
                O::i_value_spec()
            },
    )
}

/// Node `i` of `tree` holds the combination of its two children.
pub open spec fn node_ok<O: Operation>(tree: Seq<O::Value>, i: int) -> bool {
    tree[i] == O::combine_spec(tree[2 * i], tree[2 * i + 1])
}

pub proof fn lemma_fold_one<O: Operation>(x: O::Value)
    ensures
        fold::<O>(seq![x]) == x,
{
    let s = seq![x];
    assert(s.drop_last().len() == 0);
    assert(fold::<O>(s) == O::combine_spec(fold::<O>(s.drop_last()), s.last()));
    O::lemma_identity(x);
}

/// Folding a concatenation combines the folds of its parts.
pub proof fn lemma_fold_concat<O: Operation>(a: Seq<O::Value>, b: Seq<O::Value>)
    ensures
        fold::<O>(a + b) == O::combine_spec(fold::<O>(a), fold::<O>(b)),
    decreases b.len(),
{
    if b.len() == 0 {
        assert(a + b =~= a);
        O::lemma_identity(fold::<O>(a));
    } else {
        assert((a + b).drop_last() =~= a + b.drop_last());
        lemma_fold_concat::<O>(a, b.drop_last());
        O::lemma_associative(fold::<O>(a), fold::<O>(b.drop_last()), b.last());
    }
}

/// Folding `[a, c)` combines the folds of `[a, b)` and `[b, c)`.
pub proof fn lemma_fold_split<O: Operation>(s: Seq<O::Value>, a: int, b: int, c: int)
    requires
        0 <= a <= b <= c <= s.len(),
    ensures
        fold::<O>(s.subrange(a, c)) == O::combine_spec(
            fold::<O>(s.subrange(a, b)),
            fold::<O>(s.subrange(b, c)),
        ),
{
    assert(s.subrange(a, c) =~= s.subrange(a, b) + s.subrange(b, c));
    lemma_fold_concat::<O>(s.subrange(a, b), s.subrange(b, c));
}

/// A node whose leaves all lie `k` levels below it holds the fold of those
/// leaves.
pub proof fn lemma_node_fold<O: Operation>(tree: Seq<O::Value>, n: nat, p: nat, k: nat)
    requires
        tree.len() == 2 * n,
        forall|i: int| 1 <= i < n ==> #[trigger] node_ok::<O>(tree, i),
        n <= layout::leftmost(p, k),
        layout::leftmost(p + 1, k) <= 2 * n,
    ensures
        tree[p as int] == fold::<O>(
            tree.subrange(
                layout::leftmost(p, k) as int,
                layout::leftmost(p + 1, k) as int,
            ),
        ),
    decreases k,
{
    let lo = layout::leftmost(p, k);
    let hi = layout::leftmost(p + 1, k);
    if k == 0 {
        assert(tree.subrange(lo as int, hi as int) =~= seq![tree[p as int]]);
        lemma_fold_one::<O>(tree[p as int]);
    } else {
        let j = (k - 1) as nat;
        let mid = layout::leftmost(2 * p + 1, j);
        layout::lemma_leftmost_monotonic(2 * p, 2 * p + 1, j);
        layout::lemma_leftmost_monotonic(2 * p + 1, 2 * p + 2, j);
        layout::lemma_leftmost_monotonic(0, 0, j);
        assert(layout::leftmost(2 * (p + 1), j) == hi);
        assert(1 <= p < n) by {
            if p == 0 {
                layout::lemma_leftmost_zero(k);
            }
        }
        assert(node_ok::<O>(tree, p as int));
        lemma_node_fold::<O>(tree, n, 2 * p, j);
        lemma_node_fold::<O>(tree, n, 2 * p + 1, j);
        lemma_fold_split::<O>(tree, lo as int, mid as int, hi as int);
    }
}

/// Identity values appended to a sequence do not change its fold.
pub proof fn lemma_fold_padded<O: Operation>(data: Seq<O::Value>, n: nat)
    requires
        data.len() <= n,
    ensures
        fold::<O>(padded::<O>(data, n)) == fold::<O>(data),
    decreases n,
{
    if data.len() == n {
        assert(padded::<O>(data, n) =~= data);
    } else {
        let shorter = padded::<O>(data, (n - 1) as nat);
        assert(padded::<O>(data, n).drop_last() =~= shorter);
        lemma_fold_padded::<O>(data, (n - 1) as nat);
        O::lemma_identity(fold::<O>(shorter));
    }
}

/// A tree built over `values` answers the query for its whole range with the
/// fold of `values` from left to right.
pub proof fn lemma_query_all<O: Operation>(values: Seq<O::Value>, n: nat)
    requires
        values.len() <= n,
    ensures
        fold::<O>(padded::<O>(values, n).subrange(0, n as int)) == fold::<O>(values),
{
    let s = padded::<O>(values, n);
    assert(s.subrange(0, n as int) =~= s);
    lemma_fold_padded::<O>(values, n);
}

/// The query for the single position `i` returns the value stored there.
pub proof fn lemma_query_one<O: Operation>(s: Seq<O::Value>, i: int)
    requires
        0 <= i < s.len(),
    ensures
        fold::<O>(s.subrange(i, i + 1)) == s[i],
{
    assert(s.subrange(i, i + 1) =~= seq![s[i]]);
    lemma_fold_one::<O>(s[i]);
}

/// After an update at position `i`, the query for that position alone
/// returns the old value with the update applied.
pub proof fn lemma_modify_then_query<O: Operation>(s: Seq<O::Value>, i: int, u: O::Update)
    requires
        0 <= i < s.len(),
    ensures
        fold::<O>(s.update(i, O::apply_spec(s[i], u)).subrange(i, i + 1)) == O::apply_spec(s[i], u),
{
    lemma_query_one::<O>(s.update(i, O::apply_spec(s[i], u)), i);
}

/// A segment tree over `n` values of the algebra `O`.
pub struct SegmentTree<O: Operation> {
    val: Vec<O::Value>,
    n: usize,
}

impl<O: Operation> View for SegmentTree<O> {
    type V = Seq<O::Value>;

    /// The `n` values the tree aggregates, in order: the leaves.
    open spec fn view(&self) -> Seq<O::Value> {
        self.nodes().subrange(self.size() as int, 2 * (self.size() as int))
    }
}

impl<O: Operation> SegmentTree<O> {
    /// The backing array: slot `0`, the internal nodes, then the leaves.
    pub closed spec fn nodes(&self) -> Seq<O::Value> {
        self.val@
    }

    /// The number of positions.
    pub closed spec fn size(&self) -> nat {
        self.n as nat
    }

    /// The array has `2n` slots and every internal node combines its
    /// children.
    pub open spec fn wf(&self) -> bool {
        &&& self.nodes().len() == 2 * self.size()
        &&& forall|i: int| 1 <= i < self.size() ==> #[trigger] node_ok::<O>(self.nodes(), i)
    }

    /// The backing array as it is stored.
    pub fn val(&self) -> (res: &Vec<O::Value>)
        ensures
            res@ == self.nodes(),
    {
        &self.val
    }

    /// Builds the tree over the first `n` entries of `data`, padded with
    /// identity values.
    pub fn new(n: usize, data: Vec<O::Value>) -> (res: Self)
        ensures
            res.wf(),
            res.size() == n,
            res@ == padded::<O>(data@, n as nat),
            n > 0 ==> res.nodes()[0] == O::i_value_spec(),
    {
        let ghost given = data@;
        let mut data = data;
        data.truncate(n);
        let mut val: Vec<O::Value> = Vec::new();
        while val.len() < n
            invariant
                val.len() <= n,
                val.len() > 0 ==> val@[0] == O::i_value_spec(),
            decreases n - val.len(),
        {
            val.push(O::i_value());
        }
        val.append(&mut data);
        while val.len() - n < n
            invariant
                n <= val.len() <= 2 * n,
                n > 0 ==> val@[0] == O::i_value_spec(),
                given.len() <= val.len() - n || val.len() == 2 * n,
                forall|j: int|
                    n <= j < val.len() ==> #[trigger] val@[j] == (if j - n < given.len() {
                        given[j - n]
                    } else {
                        O::i_value_spec()
                    }),
            decreases 2 * n - val.len(),
        {
            val.push(O::i_value());
        }
        let ghost leaves = val@.subrange(n as int, 2 * n);
        assert(leaves =~= padded::<O>(given, n as nat));
        let mut i: usize = n;
        while i > 1
            invariant
                i <= n,
                val.len() == 2 * n,
                n > 0 ==> val@[0] == O::i_value_spec(),
                val@.subrange(n as int, 2 * n) == leaves,
                forall|j: int| i <= j < n ==> #[trigger] node_ok::<O>(val@, j),
            decreases i,
        {
            i -= 1;
            proof {
                layout::lemma_shl_one(i, (2 * i) as usize);
            }
            let ghost before = val@;
            let x = O::combine(&val[i << 1], &val[i << 1 | 1]);
            val[i] = x;
            assert(val@.subrange(n as int, 2 * n) =~= before.subrange(n as int, 2 * n));
            assert forall|j: int| i <= j < n implies #[trigger] node_ok::<O>(val@, j) by {
                if j > i {
                    assert(node_ok::<O>(before, j));
                }
            }
        }
        SegmentTree { val, n }
    }

    /// Applies `amount` to the value at position `i` and recombines every
    /// node above it.
    pub fn modify(&mut self, i: usize, amount: &O::Update)
        requires
            old(self).wf(),
            i < old(self)@.len(),
        ensures
            final(self).wf(),
            final(self).size() == old(self).size(),
            final(self)@ == old(self)@.update(
                i as int,
                O::apply_spec(old(self)@[i as int], *amount),
            ),
            final(self).nodes()[0] == old(self).nodes()[0],
    {
        let n = self.n;
        let ghost before = self.val@;
        assert(self.val.len() == 2 * n);
        let mut i = i + n;
        let ghost leaf = i;
        O::apply(&mut self.val[i], amount);
        let ghost leaves = self.val@.subrange(n as int, 2 * n);
        assert(leaves =~= old(self)@.update(
            leaf - n,
            O::apply_spec(old(self)@[leaf - n], *amount),
        ));
        assert forall|j: int| 1 <= j < n implies #[trigger] node_ok::<O>(self.val@, j)
            || layout::is_above(j as nat, i as nat) by {
            assert(node_ok::<O>(before, j));
        }
        while i > 1
            invariant
                self.n == n,
                self.val.len() == 2 * n,
                1 <= i < 2 * n,
                self.val@[0] == before[0],
                self.val@.subrange(n as int, 2 * n) == leaves,
                forall|j: int|
                    1 <= j < n ==> #[trigger] node_ok::<O>(self.val@, j)
                        || layout::is_above(j as nat, i as nat),
            decreases i,
        {
            let ghost below = i;
            let ghost stale = self.val@;
            i >>= 1;
            proof {
                layout::lemma_shr_one(below);
                layout::lemma_shl_one(i, (2 * i) as usize);
            }
            let x = O::combine(&self.val[i << 1], &self.val[i << 1 | 1]);
            self.val[i] = x;
            assert(self.val@.subrange(n as int, 2 * n) =~= stale.subrange(n as int, 2 * n));
            assert forall|j: int| 1 <= j < n implies #[trigger] node_ok::<O>(self.val@, j)
                || layout::is_above(j as nat, i as nat) by {
                if j != i && j != i / 2 {
                    assert(node_ok::<O>(stale, j) || layout::is_above(
                        j as nat,
                        below as nat,
                    ));
                }
            }
        }
    }

    /// Aggregates the values at positions `[l, r)`, in the order of their
    /// positions.
    ///
    /// The tree itself is left as it was.
    pub fn query(&mut self, l: usize, r: usize) -> (res: O::Value)
        requires
            old(self).wf(),
            l <= r <= old(self)@.len(),
        ensures
            *final(self) == *old(self),
            res == fold::<O>(old(self)@.subrange(l as int, r as int)),
            l == r ==> res == O::i_value_spec(),
    {
        let n = self.n;
        assert(self.val.len() == 2 * n);
        let mut lp = l + n;
        let mut rp = r + n;
        let mut left = O::i_value();
        let mut right = O::i_value();
        let ghost tree = self.val@;
        let ghost mut k: nat = 0;
        proof {
            assert(tree.subrange(n + r, n + r).len() == 0);
            assert(tree.subrange(n + l, n + l).len() == 0);
        }
        while lp < rp
            invariant
                *self == *old(self),
                self.val@ == tree,
                tree.len() == 2 * n,
                forall|i: int| 1 <= i < n ==> #[trigger] node_ok::<O>(tree, i),
                l <= r <= n,
                lp <= rp,
                n + l <= layout::leftmost(lp as nat, k),
                layout::leftmost(lp as nat, k) <= layout::leftmost(rp as nat, k),
                layout::leftmost(rp as nat, k) <= n + r,
                left == fold::<O>(tree.subrange(n + l, layout::leftmost(lp as nat, k) as int)),
                right == fold::<O>(tree.subrange(layout::leftmost(rp as nat, k) as int, n + r)),
            decreases rp,
        {
            let ghost lp0 = lp;
            let ghost rp0 = rp;
            let ghost a = layout::leftmost(lp as nat, k);
            let ghost b = layout::leftmost(rp as nat, k);
            proof {
                layout::lemma_low_bit(lp);
                layout::lemma_low_bit(rp);
                layout::lemma_leftmost_monotonic(lp as nat, rp as nat, k);
            }
            if lp & 1 == 1 {
                proof {
                    let a1 = layout::leftmost((lp + 1) as nat, k);
                    layout::lemma_leftmost_monotonic(lp as nat, (lp + 1) as nat, k);
                    layout::lemma_leftmost_monotonic((lp + 1) as nat, rp as nat, k);
                    lemma_node_fold::<O>(tree, n as nat, lp as nat, k);
                    lemma_fold_split::<O>(tree, n + l, a as int, a1 as int);
                }
                left = O::combine(&left, &self.val[lp]);
                lp += 1;
            }
            if rp & 1 == 1 {
                rp -= 1;
                proof {
                    let b1 = layout::leftmost(rp as nat, k);
                    layout::lemma_leftmost_monotonic(rp as nat, (rp + 1) as nat, k);
                    layout::lemma_leftmost_monotonic(lp as nat, rp as nat, k);
                    lemma_node_fold::<O>(tree, n as nat, rp as nat, k);
                    lemma_fold_split::<O>(tree, b1 as int, b as int, n + r);
                }
                right = O::combine(&self.val[rp], &right);
            }
            proof {
                layout::lemma_shr_one(lp);
                layout::lemma_shr_one(rp);
                layout::lemma_leftmost_step((lp / 2) as nat, k);
                layout::lemma_leftmost_step((rp / 2) as nat, k);
                assert((lp0 + 1) / 2 == lp / 2);
                assert(rp0 / 2 == rp / 2);
                layout::lemma_leftmost_monotonic(lp as nat, rp as nat, k);
            }
            lp >>= 1;
            rp >>= 1;
            proof {
                k = k + 1;
            }
        }
        proof {
            let m = layout::leftmost(lp as nat, k) as int;
            lemma_fold_split::<O>(tree, n + l, m, n + r);
            assert(old(self)@.subrange(l as int, r as int) =~= tree.subrange(n + l, n + r));
            if l == r {
                O::lemma_identity(O::i_value_spec());
            }
        }
        O::combine(&left, &right)
    }

    /// The number of positions.
    pub fn len(&self) -> (res: usize)
        requires
            self.wf(),
        ensures
            res == self@.len(),
    {
        self.n
    }

    /// As [`SegmentTree::modify`], for any `i`: a position outside `0..n`
    /// is refused and the tree left as it was.
    pub fn try_modify(&mut self, i: usize, amount: &O::Update) -> (res: Result<(), IndexOutOfRange>)
        requires
            old(self).wf(),
        ensures
            final(self).wf(),
            res.is_ok() <==> i < old(self)@.len(),
            res.is_ok() ==> final(self)@ == old(self)@.update(
                i as int,
                O::apply_spec(old(self)@[i as int], *amount),
            ),
            res.is_err() ==> *final(self) == *old(self) && res == Err::<(), IndexOutOfRange>(
                (IndexOutOfRange { index: i, size: old(self)@.len() as usize }),
            ),
    {
        if i >= self.n {
            return Err(IndexOutOfRange { index: i, size: self.n });
        }
        self.modify(i, amount);
        Ok(())
    }

    /// As [`SegmentTree::query`], for any `l` and `r`: a range that ends
    /// behind the last position, or before it starts, is refused.
    pub fn try_query(&mut self, l: usize, r: usize) -> (res: Result<O::Value, IndexOutOfRange>)
        requires
            old(self).wf(),
        ensures
            *final(self) == *old(self),
            res.is_ok() <==> l <= r <= old(self)@.len(),
            res matches Ok(v) ==> v == fold::<O>(old(self)@.subrange(l as int, r as int)),
            res.is_err() ==> res == Err::<O::Value, IndexOutOfRange>(
                (IndexOutOfRange {
                    index: if r > old(self)@.len() {
                        r
                    } else {
                        l
                    },
                    size: old(self)@.len() as usize,
                }),
            ),
    {
        if r > self.n {
            return Err(IndexOutOfRange { index: r, size: self.n });
        }
        if l > r {
            return Err(IndexOutOfRange { index: l, size: self.n });
        }
        Ok(self.query(l, r))
    }
}

/// Sums of `i64` that wrap around, with updates that replace a value.
pub struct SumSet;

impl Operation for SumSet {
    type Value = i64;

    type Update = i64;

    open spec fn combine_spec(l: i64, r: i64) -> i64 {
        wrapping::wrap(l + r)
    }

    open spec fn i_value_spec() -> i64 {
        0
    }

    open spec fn apply_spec(v: i64, u: i64) -> i64 {
        u
    }

    proof fn lemma_associative(a: i64, b: i64, c: i64) {
        wrapping::lemma_wrap_add(a + b, c as int);
        wrapping::lemma_wrap_add(a as int, b + c);
    }

    proof fn lemma_identity(a: i64) {
        wrapping::lemma_wrap_small(a as int);
    }

    fn combine(l: &i64, r: &i64) -> (res: i64) {
        wrapping::plus(*l, *r)
    }

    fn i_value() -> (res: i64) {
        0
    }

    fn apply(v: &mut i64, u: &i64) {
        *v = *u;
    }
}

/// The first value that is present, with updates that replace a value: a
/// monoid in which the order of the arguments shows.
pub struct KeepFirst;

impl Operation for KeepFirst {
    type Value = Option<u64>;

    type Update = Option<u64>;

    open spec fn combine_spec(l: Option<u64>, r: Option<u64>) -> Option<u64> {
        if l.is_some() {
            l
        } else {
            r
        }
    }

    open spec fn i_value_spec() -> Option<u64> {
        None
    }

    open spec fn apply_spec(v: Option<u64>, u: Option<u64>) -> Option<u64> {
        u
    }

    proof fn lemma_associative(a: Option<u64>, b: Option<u64>, c: Option<u64>) {
    }

    proof fn lemma_identity(a: Option<u64>) {
    }

    fn combine(l: &Option<u64>, r: &Option<u64>) -> (res: Option<u64>) {
        if l.is_some() {
            *l
        } else {
            *r
        }
    }

    fn i_value() -> (res: Option<u64>) {
        None
    }

    fn apply(v: &mut Option<u64>, u: &Option<u64>) {
        *v = *u;
    }
}

} // verus!
