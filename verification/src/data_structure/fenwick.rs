//! Binary-indexed (Fenwick) tree: point update, prefix query.
//!
//! Positions are counted from `1`. Node `j` of the backing array aggregates
//! the positions `(j - lowbit(j), j]`; slot `0` is never read.

use crate::data_structure::error::IndexOutOfRange;
use crate::data_structure::layout;
use crate::math::wrapping;
use vstd::prelude::*;

verus! {

/// The algebra a [`FenwickTree`] aggregates with: a monoid of values and
/// updates that act on values.
///
/// `combine` has to be associative with `i_value` as its neutral element; it
/// need not be commutative. Implementations state what their functions
/// compute through the `*_spec` functions and prove the two monoid laws.
pub trait Operation {
    type Value: Clone;

    type Update;

    spec fn combine_spec(l: Self::Value, r: Self::Value) -> Self::Value;

    spec fn i_value_spec() -> Self::Value;

    spec fn apply_spec(v: Self::Value, u: Self::Update) -> Self::Value;

    proof fn lemma_associative(a: Self::Value, b: Self::Value, c: Self::Value)
        ensures
            Self::combine_spec(Self::combine_spec(a, b), c) == Self::combine_spec(
                a,
                Self::combine_spec(b, c),
            ),
    ;

    proof fn lemma_identity(a: Self::Value)
        ensures
            Self::combine_spec(Self::i_value_spec(), a) == a,
            Self::combine_spec(a, Self::i_value_spec()) == a,
    ;

    fn combine(l: &Self::Value, r: &Self::Value) -> (res: Self::Value)
        ensures
            res == Self::combine_spec(*l, *r),
    ;

    fn i_value() -> (res: Self::Value)
        ensures
            res == Self::i_value_spec(),
    ;

    fn apply(v: &mut Self::Value, u: &Self::Update)
        ensures
            *final(v) == Self::apply_spec(*old(v), *u),
    ;
}

/// `combine` folded over `s` from left to right, starting from the identity.
pub open spec fn fold<O: Operation>(s: Seq<O::Value>) -> O::Value
    decreases s.len(),
{
    if s.len() == 0 {
        O::i_value_spec()
    } else {
        O::combine_spec(fold::<O>(s.drop_last()), s.last())
    }
}

/// The aggregate of the first `count` positions as the nodes hold it: the
/// node at `count` is combined onto the right of what the nodes hold for the
/// positions before its range.
pub open spec fn prefix<O: Operation>(nodes: Seq<O::Value>, count: nat) -> O::Value
    decreases count,
{
    if count == 0 {
        O::i_value_spec()
    } else {
        proof {
            layout::lemma_lowbit_bounds(count);
        }
        O::combine_spec(
            prefix::<O>(
                nodes,
                (count - layout::lowbit(count)) as nat,
            ),
            nodes[count as int],
        )
    }
}

/// The nodes after the update `u` at position `i`: every node responsible
/// for `i` has `u` applied, every other node is as before.
pub open spec fn updated<O: Operation>(nodes: Seq<O::Value>, i: nat, u: O::Update) -> Seq<
    O::Value,
> {
    Seq::new(
        nodes.len(),
        |j: int|
            if layout::covers(j as nat, i) {
                O::apply_spec(nodes[j], u)
            } else {
                nodes[j]
            },
    )
}

/// The nodes hold the aggregates of `elems`: node `j` is the fold of the
/// positions `(j - lowbit(j), j]`, counted from `1`.
pub open spec fn represents<O: Operation>(nodes: Seq<O::Value>, elems: Seq<O::Value>) -> bool {
    &&& nodes.len() == elems.len() + 1
    &&& forall|j: int|
        1 <= j <= elems.len() ==> #[trigger] nodes[j] == fold::<O>(
            elems.subrange(j - layout::lowbit(j as nat), j),
        )
}

/// An update applied to a combination reaches either part alone: it does not
/// matter to which of two combined values `u` is applied.
pub open spec fn update_distributes<O: Operation>() -> bool {
    forall|a: O::Value, b: O::Value, u: O::Update|
        #![trigger O::apply_spec(O::combine_spec(a, b), u)]
        {
            &&& O::apply_spec(O::combine_spec(a, b), u) == O::combine_spec(O::apply_spec(a, u), b)
            &&& O::apply_spec(O::combine_spec(a, b), u) == O::combine_spec(a, O::apply_spec(b, u))
        }
}

pub proof fn lemma_fold_one<O: Operation>(x: O::Value)
    ensures
        fold::<O>(seq![x]) == x,
{
    let s = seq![x];
    assert(s.drop_last().len() == 0);
    assert(fold::<O>(s) == O::combine_spec(fold::<O>(s.drop_last()), s.last()));
    O::lemma_identity(x);
}

/// Folding a concatenation combines the folds of its parts.
pub proof fn lemma_fold_concat<O: Operation>(a: Seq<O::Value>, b: Seq<O::Value>)
    ensures
        fold::<O>(a + b) == O::combine_spec(fold::<O>(a), fold::<O>(b)),
    decreases b.len(),
{
    if b.len() == 0 {
        assert(a + b =~= a);
        O::lemma_identity(fold::<O>(a));
    } else {
        assert((a + b).drop_last() =~= a + b.drop_last());
        lemma_fold_concat::<O>(a, b.drop_last());
        O::lemma_associative(fold::<O>(a), fold::<O>(b.drop_last()), b.last());
    }
}

/// Folding `[a, c)` combines the folds of `[a, b)` and `[b, c)`.
pub proof fn lemma_fold_split<O: Operation>(s: Seq<O::Value>, a: int, b: int, c: int)
    requires
        0 <= a <= b <= c <= s.len(),
    ensures
        fold::<O>(s.subrange(a, c)) == O::combine_spec(
            fold::<O>(s.subrange(a, b)),
            fold::<O>(s.subrange(b, c)),
        ),
{
    assert(s.subrange(a, c) =~= s.subrange(a, b) + s.subrange(b, c));
    lemma_fold_concat::<O>(s.subrange(a, b), s.subrange(b, c));
}

/// A sequence of identity values folds to the identity.
pub proof fn lemma_fold_identities<O: Operation>(s: Seq<O::Value>)
    requires
        forall|i: int| 0 <= i < s.len() ==> s[i] == O::i_value_spec(),
    ensures
        fold::<O>(s) == O::i_value_spec(),
    decreases s.len(),
{
    if s.len() > 0 {
        lemma_fold_identities::<O>(s.drop_last());
        O::lemma_identity(O::i_value_spec());
    }
}

/// Where updates distribute, an update applied to a fold is the fold with
/// the update applied to any one of its elements.
pub proof fn lemma_fold_update<O: Operation>(s: Seq<O::Value>, p: int, u: O::Update)
    requires
        0 <= p < s.len(),
        update_distributes::<O>(),
    ensures
        fold::<O>(s.update(p, O::apply_spec(s[p], u))) == O::apply_spec(fold::<O>(s), u),
{
    let t = s.update(p, O::apply_spec(s[p], u));
    let len = s.len() as int;
    let head = fold::<O>(s.subrange(0, p));
    let tail = fold::<O>(s.subrange(p + 1, len));
    assert(s.subrange(0, len) =~= s);
    assert(t.subrange(0, len) =~= t);
    assert(t.subrange(0, p) =~= s.subrange(0, p));
    assert(t.subrange(p + 1, len) =~= s.subrange(p + 1, len));
    assert(s.subrange(p, p + 1) =~= seq![s[p]]);
    assert(t.subrange(p, p + 1) =~= seq![t[p]]);
    lemma_fold_one::<O>(s[p]);
    lemma_fold_one::<O>(t[p]);
    lemma_fold_split::<O>(s, 0, p + 1, len);
    lemma_fold_split::<O>(s, 0, p, p + 1);
    lemma_fold_split::<O>(t, 0, p + 1, len);
    lemma_fold_split::<O>(t, 0, p, p + 1);
    assert(O::apply_spec(O::combine_spec(O::combine_spec(head, s[p]), tail), u)
        == O::combine_spec(O::apply_spec(O::combine_spec(head, s[p]), u), tail));
    assert(O::apply_spec(O::combine_spec(head, s[p]), u) == O::combine_spec(
        head,
        O::apply_spec(s[p], u),
    ));
}

/// The nodes of a fresh tree represent `n` identity values.
pub proof fn lemma_new_represents<O: Operation>(nodes: Seq<O::Value>, elems: Seq<O::Value>)
    requires
        nodes.len() == elems.len() + 1,
        forall|j: int| 0 <= j < nodes.len() ==> nodes[j] == O::i_value_spec(),
        forall|j: int| 0 <= j < elems.len() ==> elems[j] == O::i_value_spec(),
    ensures
        represents::<O>(nodes, elems),
{
    assert forall|j: int| 1 <= j <= elems.len() implies #[trigger] nodes[j] == fold::<O>(
        elems.subrange(j - layout::lowbit(j as nat), j),
    ) by {
        layout::lemma_lowbit_bounds(j as nat);
        lemma_fold_identities::<O>(
            elems.subrange(j - layout::lowbit(j as nat), j),
        );
    }
}

/// Where the nodes represent `elems`, the prefix aggregate of `count` is the
/// fold of the first `count` elements from left to right.
pub proof fn lemma_prefix_is_fold<O: Operation>(
    nodes: Seq<O::Value>,
    elems: Seq<O::Value>,
    count: nat,
)
    requires
        represents::<O>(nodes, elems),
        count <= elems.len(),
    ensures
        prefix::<O>(nodes, count) == fold::<O>(elems.subrange(0, count as int)),
    decreases count,
{
    if count > 0 {
        layout::lemma_lowbit_bounds(count);
        let below = (count - layout::lowbit(count)) as nat;
        lemma_prefix_is_fold::<O>(nodes, elems, below);
        lemma_fold_split::<O>(elems, 0, below as int, count as int);
        assert(nodes[count as int] == fold::<O>(elems.subrange(below as int, count as int)));
    }
}

/// Where updates distribute and the nodes represent `elems`, the nodes after
/// an update at position `i` represent `elems` with the update applied to
/// the element at `i`.
pub proof fn lemma_updated_represents<O: Operation>(
    nodes: Seq<O::Value>,
    elems: Seq<O::Value>,
    i: nat,
    u: O::Update,
)
    requires
        represents::<O>(nodes, elems),
        1 <= i <= elems.len(),
        update_distributes::<O>(),
    ensures
        represents::<O>(
            updated::<O>(nodes, i, u),
            elems.update(i - 1, O::apply_spec(elems[i - 1], u)),
        ),
{
    let after = updated::<O>(nodes, i, u);
    let changed = elems.update(i - 1, O::apply_spec(elems[i - 1], u));
    assert forall|j: int| 1 <= j <= changed.len() implies #[trigger] after[j] == fold::<O>(
        changed.subrange(j - layout::lowbit(j as nat), j),
    ) by {
        layout::lemma_lowbit_bounds(j as nat);
        let lo = j - layout::lowbit(j as nat);
        assert(nodes[j] == fold::<O>(elems.subrange(lo, j)));
        if layout::covers(j as nat, i) {
            lemma_fold_update::<O>(elems.subrange(lo, j), i - 1 - lo, u);
            assert(changed.subrange(lo, j) =~= elems.subrange(lo, j).update(
                i - 1 - lo,
                O::apply_spec(elems[i - 1], u),
            ));
        } else {
            assert(changed.subrange(lo, j) =~= elems.subrange(lo, j));
        }
    }
}

/// An update applied to a combination acts on its right part:
/// `apply(combine(a, b), u)` is `combine(a, apply(b, u))`. This is how an
/// update behaves that combines something onto the right of a value.
pub open spec fn update_acts_on_right<O: Operation>() -> bool {
    forall|a: O::Value, b: O::Value, u: O::Update|
        #![trigger O::apply_spec(O::combine_spec(a, b), u)]
        O::apply_spec(O::combine_spec(a, b), u) == O::combine_spec(a, O::apply_spec(b, u))
}

/// Where updates act on the right part of a combination, the nodes represent
/// `elems` and every element behind position `i` is still the identity, the
/// nodes after an update at position `i` represent `elems` with the update
/// applied to the element at `i`. `combine` need not be commutative.
pub proof fn lemma_updated_in_order_represents<O: Operation>(
    nodes: Seq<O::Value>,
    elems: Seq<O::Value>,
    i: nat,
    u: O::Update,
)
    requires
        represents::<O>(nodes, elems),
        1 <= i <= elems.len(),
        update_acts_on_right::<O>(),
        forall|j: int| i <= j < elems.len() ==> elems[j] == O::i_value_spec(),
    ensures
        represents::<O>(
            updated::<O>(nodes, i, u),
            elems.update(i - 1, O::apply_spec(elems[i - 1], u)),
        ),
{
    let after = updated::<O>(nodes, i, u);
    let changed = elems.update(i - 1, O::apply_spec(elems[i - 1], u));
    assert forall|j: int| 1 <= j <= changed.len() implies #[trigger] after[j] == fold::<O>(
        changed.subrange(j - layout::lowbit(j as nat), j),
    ) by {
        layout::lemma_lowbit_bounds(j as nat);
        let lo = j - layout::lowbit(j as nat);
        assert(nodes[j] == fold::<O>(elems.subrange(lo, j)));
        if layout::covers(j as nat, i) {
            let head = fold::<O>(elems.subrange(lo, i - 1));
            lemma_fold_split::<O>(elems, lo, i as int, j);
            lemma_fold_split::<O>(elems, lo, i - 1, i as int);
            lemma_fold_split::<O>(changed, lo, i as int, j);
            lemma_fold_split::<O>(changed, lo, i - 1, i as int);
            lemma_fold_identities::<O>(elems.subrange(i as int, j));
            lemma_fold_identities::<O>(changed.subrange(i as int, j));
            assert(elems.subrange(i - 1, i as int) =~= seq![elems[i - 1]]);
            assert(changed.subrange(i - 1, i as int) =~= seq![changed[i - 1]]);
            assert(changed.subrange(lo, i - 1) =~= elems.subrange(lo, i - 1));
            lemma_fold_one::<O>(elems[i - 1]);
            lemma_fold_one::<O>(changed[i - 1]);
            O::lemma_identity(O::combine_spec(head, elems[i - 1]));
            O::lemma_identity(O::combine_spec(head, changed[i - 1]));
            assert(O::apply_spec(O::combine_spec(head, elems[i - 1]), u) == O::combine_spec(
                head,
                O::apply_spec(elems[i - 1], u),
            ));
        } else {
            assert(changed.subrange(lo, j) =~= elems.subrange(lo, j));
        }
    }
}

/// The nodes after the updates of `ops`, each a position and an update,
/// have been made one after the other.
pub open spec fn updated_all<O: Operation>(nodes: Seq<O::Value>, ops: Seq<(nat, O::Update)>) -> Seq<
    O::Value,
>
    decreases ops.len(),
{
    if ops.len() == 0 {
        nodes
    } else {
        updated::<O>(updated_all::<O>(nodes, ops.drop_last()), ops.last().0, ops.last().1)
    }
}

/// The elements after the updates of `ops` have been applied one after the
/// other, each to the element at its position, counted from `1`.
pub open spec fn applied_all<O: Operation>(elems: Seq<O::Value>, ops: Seq<(nat, O::Update)>) -> Seq<
    O::Value,
>
    decreases ops.len(),
{
    if ops.len() == 0 {
        elems
    } else {
        let before = applied_all::<O>(elems, ops.drop_last());
        let at = ops.last().0 - 1;
        before.update(at, O::apply_spec(before[at], ops.last().1))
    }
}

/// Every update of `ops` is at a position of `1..=n`.
pub open spec fn in_range<O: Operation>(ops: Seq<(nat, O::Update)>, n: nat) -> bool {
    forall|k: int| 0 <= k < ops.len() ==> 1 <= (#[trigger] ops[k]).0 <= n
}

/// No update of `ops` is at a position before that of an earlier one.
pub open spec fn rising<O: Operation>(ops: Seq<(nat, O::Update)>) -> bool {
    forall|a: int, b: int|
        0 <= a <= b < ops.len() ==> (#[trigger] ops[a]).0 <= (#[trigger] ops[b]).0
}

/// `len` identity values.
pub open spec fn identities<O: Operation>(len: nat) -> Seq<O::Value> {
    Seq::new(len, |j: int| O::i_value_spec())
}

/// After any sequence of updates on a fresh tree, the prefix aggregate of
/// `count` is the fold, from left to right, of the first `count` elements,
/// where each element is the identity with the updates made at its position
/// applied in the order of the calls. This holds where updates distribute
/// over `combine`, and also, with a `combine` of any kind, where updates act
/// on the right part of a combination and no update is made at a position
/// before that of an earlier one.
pub proof fn lemma_query_after_updates<O: Operation>(
    n: nat,
    ops: Seq<(nat, O::Update)>,
    count: nat,
)
    requires
        in_range::<O>(ops, n),
        update_distributes::<O>() || (update_acts_on_right::<O>() && rising::<O>(ops)),
        count <= n,
    ensures
        prefix::<O>(updated_all::<O>(identities::<O>(n + 1), ops), count) == fold::<O>(
            applied_all::<O>(identities::<O>(n), ops).subrange(0, count as int),
        ),
{
    lemma_updates_represent::<O>(n, ops);
    lemma_prefix_is_fold::<O>(
        updated_all::<O>(identities::<O>(n + 1), ops),
        applied_all::<O>(identities::<O>(n), ops),
        count,
    );
}

/// The first position behind every update of rising `ops`, counted from `0`.
spec fn untouched<O: Operation>(ops: Seq<(nat, O::Update)>) -> int {
    if ops.len() == 0 {
        0
    } else {
        ops.last().0 as int
    }
}

/// The nodes after a sequence of updates on a fresh tree represent the
/// elements after the same updates; where the positions rise, every element
/// behind the last position is still the identity.
proof fn lemma_updates_represent<O: Operation>(n: nat, ops: Seq<(nat, O::Update)>)
    requires
        in_range::<O>(ops, n),
        update_distributes::<O>() || (update_acts_on_right::<O>() && rising::<O>(ops)),
    ensures
        applied_all::<O>(identities::<O>(n), ops).len() == n,
        represents::<O>(
            updated_all::<O>(identities::<O>(n + 1), ops),
            applied_all::<O>(identities::<O>(n), ops),
        ),
        rising::<O>(ops) ==> forall|j: int|
            untouched::<O>(ops) <= j < n ==> #[trigger] applied_all::<O>(identities::<O>(n), ops)[j]
                == O::i_value_spec(),
    decreases ops.len(),
{
    let nodes = identities::<O>(n + 1);
    let elems = identities::<O>(n);
    if ops.len() == 0 {
        lemma_new_represents::<O>(nodes, elems);
    } else {
        let earlier = ops.drop_last();
        let last = ops.len() - 1;
        assert forall|k: int| 0 <= k < earlier.len() implies 1 <= (#[trigger] earlier[k]).0
            <= n by {
            assert(ops[k].0 == earlier[k].0);
        }
        if rising::<O>(ops) {
            assert forall|a: int, b: int| 0 <= a <= b < earlier.len() implies (
            #[trigger] earlier[a]).0 <= (#[trigger] earlier[b]).0 by {
                assert(ops[a].0 <= ops[b].0);
            }
            if earlier.len() > 0 {
                assert(ops[last - 1].0 <= ops[last].0);
                assert(earlier.last() == ops[last - 1]);
            }
        }
        lemma_updates_represent::<O>(n, earlier);
        assert(1 <= ops[last].0 <= n);
        let before = applied_all::<O>(elems, earlier);
        if update_distributes::<O>() {
            lemma_updated_represents::<O>(
                updated_all::<O>(nodes, earlier),
                before,
                ops.last().0,
                ops.last().1,
            );
        } else {
            lemma_updated_in_order_represents::<O>(
                updated_all::<O>(nodes, earlier),
                before,
                ops.last().0,
                ops.last().1,
            );
        }
    }
}

/// A Fenwick tree over `n` positions of the algebra `O`.
pub struct FenwickTree<O: Operation> {
    val: Vec<O::Value>,
    n: usize,
}

impl<O: Operation> View for FenwickTree<O> {
    type V = Seq<O::Value>;

    /// The backing array: slot `0`, then the nodes `1..=n`.
    closed spec fn view(&self) -> Seq<O::Value> {
        self.val@
    }
}

impl<O: Operation> FenwickTree<O> {
    /// The number of positions.
    pub closed spec fn size(&self) -> nat {
        self.n as nat
    }

    /// The array has one slot more than there are positions.
    pub open spec fn wf(&self) -> bool {
        self@.len() == self.size() + 1
    }

    /// The backing array as it is stored.
    pub fn val(&self) -> (res: &Vec<O::Value>)
        ensures
            res@ == self@,
    {
        &self.val
    }

    /// A tree over `n` positions, every node holding the identity value.
    pub fn new(n: usize) -> (res: Self)
        requires
            n < usize::MAX,
        ensures
            res.wf(),
            res.size() == n,
            res@.len() == n + 1,
            forall|j: int| 0 <= j <= n ==> res@[j] == O::i_value_spec(),
    {
        let mut val: Vec<O::Value> = Vec::new();
        while val.len() <= n
            invariant
                n < usize::MAX,
                val.len() <= n + 1,
                forall|j: int| 0 <= j < val.len() ==> val@[j] == O::i_value_spec(),
            decreases n + 1 - val.len(),
        {
            val.push(O::i_value());
        }
        FenwickTree { val, n }
    }

    /// Applies `amount` at position `i`, counted from `1`: to the node at
    /// `i` and to every later node whose range contains `i`.
    pub fn modify(&mut self, i: usize, amount: &O::Update)
        requires
            old(self).wf(),
            1 <= i <= old(self).size(),
        ensures
            final(self).wf(),
            final(self).size() == old(self).size(),
            final(self)@ == updated::<O>(old(self)@, i as nat, *amount),
    {
        let ghost start = i as nat;
        let ghost before = self.val@;
        let n = self.n;
        let mut i = i;
        proof {
            layout::lemma_lowbit_bounds(start);
        }
        loop
            invariant_except_break
                layout::covers(i as nat, start),
                forall|j: int|
                    0 <= j < i ==> #[trigger] self.val@[j] == updated::<O>(
                        before,
                        start,
                        *amount,
                    )[j],
                forall|j: int| i <= j <= n ==> #[trigger] self.val@[j] == before[j],
            invariant
                self.n == n,
                self.val@.len() == n + 1,
                before.len() == n + 1,
                1 <= start <= i <= n,
            ensures
                self.n == n,
                self.val@.len() == n + 1,
                forall|j: int|
                    0 <= j <= n ==> #[trigger] self.val@[j] == updated::<O>(
                        before,
                        start,
                        *amount,
                    )[j],
            decreases n - i,
        {
            O::apply(&mut self.val[i], amount);
            proof {
                layout::lemma_lowbit_bits(i);
                layout::lemma_lowbit_bounds(i as nat);
                layout::lemma_next_cover(i as nat, start);
            }
            let filled = i | (i - 1);
            if filled >= n {
                break ;
            }
            i = filled + 1;
        }
        assert(self.val@ =~= updated::<O>(before, start, *amount));
    }

    /// Aggregates the first `count` positions.
    ///
    /// The tree itself is left as it was.
    pub fn query(&mut self, count: usize) -> (res: O::Value)
        requires
            old(self).wf(),
            count <= old(self).size(),
        ensures
            *final(self) == *old(self),
            res == prefix::<O>(old(self)@, count as nat),
    {
        let ghost whole = count as nat;
        let ghost nodes = self.val@;
        let mut count = count;
        let mut result = O::i_value();
        proof {
            O::lemma_identity(prefix::<O>(nodes, whole));
        }
        while count > 0
            invariant
                *self == *old(self),
                self.val@ == nodes,
                nodes.len() == self.n + 1,
                count <= self.n,
                O::combine_spec(prefix::<O>(nodes, count as nat), result) == prefix::<O>(
                    nodes,
                    whole,
                ),
            decreases count,
        {
            proof {
                layout::lemma_lowbit_bits(count);
                layout::lemma_lowbit_bounds(count as nat);
                O::lemma_associative(
                    prefix::<O>(
                        nodes,
                        (count - layout::lowbit(count as nat)) as nat,
                    ),
                    nodes[count as int],
                    result,
                );
            }
            result = O::combine(&self.val[count], &result);
            count = count & (count - 1);
        }
        proof {
            O::lemma_identity(result);
        }
        result
    }

    /// The number of positions.
    pub fn len(&self) -> (res: usize)
        requires
            self.wf(),
        ensures
            res == self.size(),
            res + 1 == self@.len(),
    {
        self.n
    }

    /// As [`FenwickTree::modify`], for any `i`: a position outside `1..=n`
    /// is refused and the tree left as it was.
    pub fn try_modify(&mut self, i: usize, amount: &O::Update) -> (res: Result<(), IndexOutOfRange>)
        requires
            old(self).wf(),
        ensures
            final(self).wf(),
            final(self).size() == old(self).size(),
            res.is_ok() <==> 1 <= i <= old(self).size(),
            res.is_ok() ==> final(self)@ == updated::<O>(old(self)@, i as nat, *amount),
            res.is_err() ==> *final(self) == *old(self) && res == Err::<(), IndexOutOfRange>(
                (IndexOutOfRange { index: i, size: old(self).size() as usize }),
            ),
    {
        if i < 1 || i > self.n {
            return Err(IndexOutOfRange { index: i, size: self.n });
        }
        self.modify(i, amount);
        Ok(())
    }

    /// As [`FenwickTree::query`], for any `count`: a count beyond `n` is
    /// refused.
    pub fn try_query(&mut self, count: usize) -> (res: Result<O::Value, IndexOutOfRange>)
        requires
            old(self).wf(),
        ensures
            *final(self) == *old(self),
            res.is_ok() <==> count <= old(self).size(),
            res matches Ok(v) ==> v == prefix::<O>(old(self)@, count as nat),
            res.is_err() ==> res == Err::<O::Value, IndexOutOfRange>(
                (IndexOutOfRange { index: count, size: old(self).size() as usize }),
            ),
    {
        if count > self.n {
            return Err(IndexOutOfRange { index: count, size: self.n });
        }
        Ok(self.query(count))
    }
}

/// Sums of `i64` that wrap around, with updates that add to a value.
pub struct SumAdd;

impl Operation for SumAdd {
    type Value = i64;

    type Update = i64;

    open spec fn combine_spec(l: i64, r: i64) -> i64 {
        wrapping::wrap(l + r)
    }

    open spec fn i_value_spec() -> i64 {
        0
    }

    open spec fn apply_spec(v: i64, u: i64) -> i64 {
        wrapping::wrap(v + u)
    }

    proof fn lemma_associative(a: i64, b: i64, c: i64) {
        wrapping::lemma_wrap_add(a + b, c as int);
        wrapping::lemma_wrap_add(a as int, b + c);
    }

    proof fn lemma_identity(a: i64) {
        wrapping::lemma_wrap_small(a as int);
    }

    fn combine(l: &i64, r: &i64) -> (res: i64) {
        wrapping::plus(*l, *r)
    }

    fn i_value() -> (res: i64) {
        0
    }

    fn apply(v: &mut i64, u: &i64) {
        *v = wrapping::plus(*v, *u);
    }
}

/// Adding to one of two summands is adding to their sum.
pub proof fn lemma_sum_add_distributes()
    ensures
        update_distributes::<SumAdd>(),
{
    assert forall|a: i64, b: i64, u: i64|
        #![trigger SumAdd::apply_spec(SumAdd::combine_spec(a, b), u)]
        {
            &&& SumAdd::apply_spec(SumAdd::combine_spec(a, b), u) == SumAdd::combine_spec(
                SumAdd::apply_spec(a, u),
                b,
            )
            &&& SumAdd::apply_spec(SumAdd::combine_spec(a, b), u) == SumAdd::combine_spec(
                a,
                SumAdd::apply_spec(b, u),
            )
        } by {
        wrapping::lemma_wrap_add(a + b, u as int);
        wrapping::lemma_wrap_add(a + u, b as int);
        wrapping::lemma_wrap_add(a as int, b + u);
    }
}

/// The first value that is present, with updates that offer a value to a
/// position that has none: a monoid in which the order of the arguments
/// shows, and whose updates act on the right part of a combination.
pub struct FirstSeen;

impl Operation for FirstSeen {
    type Value = Option<u64>;

    type Update = Option<u64>;

    open spec fn combine_spec(l: Option<u64>, r: Option<u64>) -> Option<u64> {
        if l.is_some() {
            l
        } else {
            r
        }
    }

    open spec fn i_value_spec() -> Option<u64> {
        None
    }

    open spec fn apply_spec(v: Option<u64>, u: Option<u64>) -> Option<u64> {
        if v.is_some() {
            v
        } else {
            u
        }
    }

    proof fn lemma_associative(a: Option<u64>, b: Option<u64>, c: Option<u64>) {
    }

    proof fn lemma_identity(a: Option<u64>) {
    }

    fn combine(l: &Option<u64>, r: &Option<u64>) -> (res: Option<u64>) {
        if l.is_some() {
            *l
        } else {
            *r
        }
    }

    fn i_value() -> (res: Option<u64>) {
        None
    }

    fn apply(v: &mut Option<u64>, u: &Option<u64>) {
        if v.is_none() {
            *v = *u;
        }
    }
}

/// Offering a value to a combination offers it to its right part.
pub proof fn lemma_first_seen_acts_on_right()
    ensures
        update_acts_on_right::<FirstSeen>(),
{
}

} // verus!
