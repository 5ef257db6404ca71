//! String matching: the Z-function and the Knuth-Morris-Pratt automaton.
//!
//! The functions work on slices of any type that can be compared. What they
//! promise about the contents holds for types whose `==` is equality of
//! values.

use vstd::prelude::*;
use vstd::std_specs::cmp::PartialEqSpec;

verus! {

/// `k` is the length of the longest common prefix of `s` and of `s` from
/// position `i` on.
pub open spec fn is_lcp<T>(s: Seq<T>, i: int, k: int) -> bool {
    &&& 0 <= k <= s.len() - i
    &&& forall|t: int| 0 <= t < k ==> #[trigger] s[i + t] == s[t]
    &&& (i + k < s.len() ==> s[i + k] != s[k])
}

/// `z` is the Z-array of `s`: one entry for each position, `0` at the front
/// and the longest common prefix everywhere else. The empty sequence has
/// the array `[0]`.
pub open spec fn is_z_array<T>(s: Seq<T>, z: Seq<usize>) -> bool {
    &&& z.len() == if s.len() == 0 {
        1
    } else {
        s.len()
    }
    &&& z[0] == 0
    &&& forall|i: int| 1 <= i < s.len() ==> is_lcp(s, i, #[trigger] z[i] as int)
}

/// The number of positions from `a` on that agree with the positions from
/// `b` on, up to the first disagreement or the end of `s`.
fn agree<T: PartialEq>(s: &[T], a: usize, b: usize) -> (e: usize)
    requires
        b <= a <= s@.len(),
    ensures
        e <= s@.len() - a,
        vstd::laws_eq::obeys_concrete_eq::<T>() ==> {
            &&& forall|t: int| 0 <= t < e ==> #[trigger] s@[a + t] == s@[b + t]
            &&& (a + e < s@.len() ==> s@[a + e] != s@[b + e])
        },
{
    let n = s.len();
    let mut e: usize = 0;
    proof {
        reveal(vstd::laws_eq::obeys_concrete_eq);
    }
    while a + e < n && s[a + e] == s[b + e]
        invariant
            n == s@.len(),
            b <= a <= n,
            e <= n - a,
            vstd::laws_eq::obeys_concrete_eq::<T>() ==> forall|t: int|
                0 <= t < e ==> #[trigger] s@[a + t] == s@[b + t],
            vstd::laws_eq::obeys_concrete_eq::<T>() ==> T::obeys_eq_spec() && forall|x: T, y: T|
                #[trigger] x.eq_spec(&y) == (x == y),
        decreases n - a - e,
    {
        e += 1;
    }
    e
}

/// The Z-array of `s`.
pub fn z<T: PartialEq>(s: &[T]) -> (res: Vec<usize>)
    ensures
        res@.len() == if s@.len() == 0 {
            1
        } else {
            s@.len()
        },
        res@[0] == 0,
        vstd::laws_eq::obeys_concrete_eq::<T>() ==> is_z_array(s@, res@),
{
    let n = s.len();
    let ghost exact = vstd::laws_eq::obeys_concrete_eq::<T>();
    let mut l: usize = 0;
    let mut r: usize = 0;
    let mut z: Vec<usize> = Vec::new();
    z.push(0);
    let mut i: usize = 1;
    while i < n
        invariant
            n == s@.len(),
            exact == vstd::laws_eq::obeys_concrete_eq::<T>(),
            1 <= i,
            i <= n || (n == 0 && i == 1),
            z@.len() == i,
            z@[0] == 0,
            r <= n,
            r > 0 ==> 1 <= l < i && l <= r,
            forall|j: int| 0 <= j < i ==> #[trigger] z@[j] <= n - j,
            exact ==> forall|j: int| 1 <= j < i ==> is_lcp(s@, j, #[trigger] z@[j] as int),
            exact && r > 0 ==> forall|t: int| 0 <= t < r - l ==> #[trigger] s@[l + t] == s@[t],
        decreases n - i,
    {
        let new_z: usize;
        if i >= r {
            let eq_len = agree(s, i, 0);
            l = i;
            r = l + eq_len;
            new_z = eq_len;
        } else if z[i - l] >= r - i {
            let ghost back = (i - l) as int;
            let eq_len = agree(s, r, r - i);
            proof {
                if exact {
                    assert(is_lcp(s@, back, z@[back] as int));
                    assert forall|t: int| 0 <= t < r - i + eq_len implies #[trigger] s@[i + t]
                        == s@[t] by {
                        if t < r - i {
                            assert(s@[l + (back + t)] == s@[back + t]);
                        } else {
                            assert(s@[r + (t - (r - i))] == s@[(r - i) + (t - (r - i))]);
                        }
                    }
                }
            }
            l = i;
            r += eq_len;
            new_z = r - l;
        } else {
            let ghost back = (i - l) as int;
            new_z = z[i - l];
            proof {
                if exact {
                    assert(is_lcp(s@, back, z@[back] as int));
                    assert forall|t: int| 0 <= t < new_z implies #[trigger] s@[i + t] == s@[t] by {
                        assert(s@[l + (back + t)] == s@[back + t]);
                    }
                    assert(s@[l + (back + new_z)] == s@[back + new_z]);
                }
            }
        }
        z.push(new_z);
        i += 1;
    }
    z
}

/// The first `k` entries of `p` are the `k` entries of `t` that end just
/// before position `m`.
pub open spec fn fits<T>(p: Seq<T>, t: Seq<T>, m: int, k: int) -> bool {
    &&& 0 <= k <= m <= t.len()
    &&& k <= p.len()
    &&& forall|x: int| 0 <= x < k ==> #[trigger] p[x] == t[m - k + x]
}

/// `k` is the greatest length of a prefix of `p` that ends just before
/// position `m` of `t`.
pub open spec fn is_longest_fit<T>(p: Seq<T>, t: Seq<T>, m: int, k: int) -> bool {
    &&& fits(p, t, m, k)
    &&& forall|other: int| fits(p, t, m, other) ==> other <= k
}

/// `k` is the length of a border of the first `m` entries of `p`: of a
/// prefix that is also a suffix, and not the whole.
pub open spec fn is_border<T>(p: Seq<T>, m: int, k: int) -> bool {
    k < m && fits(p, p, m, k)
}

/// `k` is the length of the longest border of the first `m` entries of `p`.
pub open spec fn is_longest_border<T>(p: Seq<T>, m: int, k: int) -> bool {
    &&& is_border(p, m, k)
    &&& forall|other: int| is_border(p, m, other) ==> other <= k
}

/// `pi` is the prefix table of `p`: entry `i` is the length of the longest
/// border of the first `i + 1` entries.
pub open spec fn is_prefix_table<T>(p: Seq<T>, pi: Seq<usize>) -> bool {
    &&& pi.len() == p.len()
    &&& forall|i: int| 0 <= i < p.len() ==> is_longest_border(p, i + 1, #[trigger] pi[i] as int)
}

/// Below a prefix that fits, the shorter prefixes that fit are its borders.
proof fn lemma_fits_within<T>(p: Seq<T>, t: Seq<T>, m: int, j: int, k: int)
    requires
        fits(p, t, m, j),
        0 <= k <= j,
    ensures
        fits(p, t, m, k) == fits(p, p, j, k),
{
    if fits(p, t, m, k) {
        assert forall|x: int| 0 <= x < k implies #[trigger] p[x] == p[j - k + x] by {
            assert(p[j - k + x] == t[m - j + (j - k + x)]);
        }
    }
    if fits(p, p, j, k) {
        assert forall|x: int| 0 <= x < k implies #[trigger] p[x] == t[m - k + x] by {
            assert(p[j - k + x] == t[m - j + (j - k + x)]);
        }
    }
}

/// A prefix that fits before position `m + 1` fits, one entry shorter,
/// before position `m`, and its last entry is the entry of `t` at `m`.
proof fn lemma_fits_shorter<T>(p: Seq<T>, t: Seq<T>, m: int, k: int)
    requires
        fits(p, t, m + 1, k),
        k >= 1,
    ensures
        fits(p, t, m, k - 1),
        p[k - 1] == t[m],
{
    assert forall|x: int| 0 <= x < k - 1 implies #[trigger] p[x] == t[m - (k - 1) + x] by {
        assert(p[x] == t[m + 1 - k + x]);
    }
    assert(p[k - 1] == t[m + 1 - k + (k - 1)]);
}

/// A prefix that fits before position `m` and goes on with the entry of `t`
/// at `m` fits, one entry longer, before position `m + 1`.
proof fn lemma_fits_longer<T>(p: Seq<T>, t: Seq<T>, m: int, k: int)
    requires
        fits(p, t, m, k),
        k < p.len(),
        m < t.len(),
        p[k] == t[m],
    ensures
        fits(p, t, m + 1, k + 1),
{
    assert forall|x: int| 0 <= x < k + 1 implies #[trigger] p[x] == t[m + 1 - (k + 1) + x] by {
        if x < k {
            assert(p[x] == t[m - k + x]);
        }
    }
}

/// The state of the search for the longest prefix of `p`, of at most
/// `top + 1` entries, that fits before position `m + 1` of `t`: `j` fits
/// before `m`, and no longer prefix of at most `top` entries that fits
/// before `m` goes on with the entry `c`.
spec fn falling<T>(p: Seq<T>, t: Seq<T>, m: int, top: int, j: int, c: T) -> bool {
    &&& fits(p, t, m, j)
    &&& j <= top
    &&& forall|k: int| j < k <= top && fits(p, t, m, k) ==> !(k < p.len() && p[k] == c)
}

/// Falling back from `j` to the longest border of the first `j` entries
/// keeps the search state.
proof fn lemma_fall_back<T>(p: Seq<T>, t: Seq<T>, m: int, top: int, j: int, b: int, c: T)
    requires
        falling(p, t, m, top, j, c),
        j >= 1,
        !(j < p.len() && p[j] == c),
        is_longest_border(p, j, b),
    ensures
        falling(p, t, m, top, b, c),
{
    lemma_fits_within(p, t, m, j, b);
    assert forall|k: int| b < k <= top && fits(p, t, m, k) implies !(k < p.len() && p[k]
        == c) by {
        if k < j {
            lemma_fits_within(p, t, m, j, k);
            assert(is_border(p, j, k));
        }
    }
}

/// Where the search ends on an entry that goes on with `t[m]`, one more is
/// the longest fit before `m + 1`.
proof fn lemma_fall_hit<T>(p: Seq<T>, t: Seq<T>, m: int, top: int, j: int)
    requires
        m < t.len(),
        falling(p, t, m, top, j, t[m]),
        j < p.len(),
        p[j] == t[m],
    ensures
        fits(p, t, m + 1, j + 1),
        forall|other: int| other <= top + 1 && #[trigger] fits(p, t, m + 1, other) ==> other <= j + 1,
{
    lemma_fits_longer(p, t, m, j);
    let next = m + 1;
    assert forall|other: int| other <= top + 1 && #[trigger] fits(p, t, next, other) implies other
        <= j + 1 by {
        if other >= 1 {
            lemma_fits_shorter(p, t, m, other);
        }
    }
}

/// Where the search ends at `0` on an entry that does not go on with
/// `t[m]`, nothing fits before `m + 1` but the empty prefix.
proof fn lemma_fall_miss<T>(p: Seq<T>, t: Seq<T>, m: int, top: int)
    requires
        m < t.len(),
        falling(p, t, m, top, 0, t[m]),
        p.len() > 0,
        p[0] != t[m],
    ensures
        fits(p, t, m + 1, 0),
        forall|other: int| other <= top + 1 && #[trigger] fits(p, t, m + 1, other) ==> other <= 0,
{
    let next = m + 1;
    assert forall|other: int| other <= top + 1 && #[trigger] fits(p, t, next, other) implies other
        <= 0 by {
        if other >= 1 {
            lemma_fits_shorter(p, t, m, other);
        }
    }
}

/// The prefix table of a pattern, ready to search texts for it.
pub struct KmpMatcher<'a, T> {
    pi: Vec<usize>,
    pattern: &'a [T],
}

impl<'a, T: PartialEq> KmpMatcher<'a, T> {
    /// The pattern.
    pub closed spec fn pattern(&self) -> Seq<T> {
        self.pattern@
    }

    /// The table as it is stored.
    pub closed spec fn table(&self) -> Seq<usize> {
        self.pi@
    }

    /// The table has one entry below its index for each entry of the
    /// pattern; for types whose `==` is equality of values it is the prefix
    /// table.
    pub open spec fn wf(&self) -> bool {
        &&& self.pattern().len() > 0
        &&& self.table().len() == self.pattern().len()
        &&& forall|i: int| 0 <= i < self.table().len() ==> #[trigger] self.table()[i] <= i
        &&& vstd::laws_eq::obeys_concrete_eq::<T>() ==> is_prefix_table(
            self.pattern(),
            self.table(),
        )
    }

    /// The table as it is stored.
    pub fn pi(&self) -> (res: &Vec<usize>)
        ensures
            res@ == self.table(),
    {
        &self.pi
    }

    /// Computes the prefix table of `pattern`, which must not be empty.
    pub fn new(pattern: &'a [T]) -> (res: Self)
        requires
            pattern@.len() > 0,
        ensures
            res.wf(),
            res.pattern() == pattern@,
    {
        let n = pattern.len();
        let ghost exact = vstd::laws_eq::obeys_concrete_eq::<T>();
        let mut pi: Vec<usize> = Vec::new();
        pi.push(0);
        let mut j: usize = 0;
        let mut i: usize = 1;
        proof {
            assert(is_longest_border(pattern@, 1, 0));
        }
        while i < n
            invariant
                n == pattern@.len(),
                exact == vstd::laws_eq::obeys_concrete_eq::<T>(),
                1 <= i <= n,
                pi@.len() == i,
                j == pi@[i - 1],
                forall|x: int| 0 <= x < i ==> #[trigger] pi@[x] <= x,
                exact ==> forall|x: int|
                    0 <= x < i ==> is_longest_border(pattern@, x + 1, #[trigger] pi@[x] as int),
            decreases n - i,
        {
            proof {
                reveal(vstd::laws_eq::obeys_concrete_eq);
                if exact {
                    let whole = i as int;
                    assert(is_longest_border(pattern@, (i - 1) + 1, pi@[i - 1] as int));
                    assert forall|k: int| j < k <= i - 1 && fits(pattern@, pattern@, whole, k) implies !(
                    k < pattern@.len() && pattern@[k] == pattern@[whole]) by {
                        assert(is_border(pattern@, whole, k));
                    }
                }
            }
            while j > 0 && pattern[i] != pattern[j]
                invariant
                    n == pattern@.len(),
                    exact == vstd::laws_eq::obeys_concrete_eq::<T>(),
                    1 <= i < n,
                    pi@.len() == i,
                    j < i,
                    forall|x: int| 0 <= x < i ==> #[trigger] pi@[x] <= x,
                    exact ==> forall|x: int|
                        0 <= x < i ==> is_longest_border(
                            pattern@,
                            x + 1,
                            #[trigger] pi@[x] as int,
                        ),
                    exact ==> T::obeys_eq_spec() && forall|x: T, y: T|
                        #[trigger] x.eq_spec(&y) == (x == y),
                    exact ==> falling(
                        pattern@,
                        pattern@,
                        i as int,
                        i - 1,
                        j as int,
                        pattern@[i as int],
                    ),
                decreases j,
            {
                proof {
                    if exact {
                        assert(is_longest_border(pattern@, (j - 1) + 1, pi@[j - 1] as int));
                        lemma_fall_back(
                            pattern@,
                            pattern@,
                            i as int,
                            i - 1,
                            j as int,
                            pi@[j - 1] as int,
                            pattern@[i as int],
                        );
                    }
                }
                j = pi[j - 1];
            }
            if pattern[i] == pattern[j] {
                proof {
                    if exact {
                        lemma_fall_hit(pattern@, pattern@, i as int, i - 1, j as int);
                    }
                }
                j += 1;
            } else {
                proof {
                    if exact {
                        lemma_fall_miss(pattern@, pattern@, i as int, i - 1);
                    }
                }
            }
            proof {
                if exact {
                    let next = i + 1;
                    assert(is_border(pattern@, next, j as int));
                    assert forall|other: int| is_border(pattern@, next, other) implies other
                        <= j by {
                        assert(fits(pattern@, pattern@, next, other));
                    }
                }
            }
            pi.push(j);
            i += 1;
        }
        KmpMatcher { pi, pattern }
    }

    /// A search for the pattern through the text `s`, one entry at a time.
    pub fn find(&'a self, s: &'a [T]) -> (res: Kmp<'a, T>)
        requires
            self.wf(),
        ensures
            res.wf(),
            res.pattern() == self.pattern(),
            res.text() == s@,
            res.consumed() == 0,
            res.matched() == 0,
    {
        proof {
            assert(is_longest_fit(self.pattern@, s@, 0, 0));
        }
        Kmp { matcher: self, text: s, i: 0, j: 0 }
    }
}

/// A search in progress: the text read so far and the length of the longest
/// prefix of the pattern that ends where the reading stands.
pub struct Kmp<'a, T: PartialEq> {
    matcher: &'a KmpMatcher<'a, T>,
    text: &'a [T],
    i: usize,
    j: usize,
}

impl<'a, T: PartialEq> Kmp<'a, T> {
    /// The pattern searched for.
    pub closed spec fn pattern(&self) -> Seq<T> {
        self.matcher.pattern@
    }

    /// The text searched through.
    pub closed spec fn text(&self) -> Seq<T> {
        self.text@
    }

    /// The number of entries of the text that have been read.
    pub closed spec fn consumed(&self) -> nat {
        self.i as nat
    }

    /// The number of entries of the pattern that match at the end of what
    /// has been read.
    pub closed spec fn matched(&self) -> nat {
        self.j as nat
    }

    /// The matcher is in order and the state stands inside text and
    /// pattern; for types whose `==` is equality of values the state is
    /// the longest prefix of the pattern that fits the text read so far.
    pub closed spec fn wf(&self) -> bool {
        &&& self.matcher.wf()
        &&& self.i <= self.text@.len()
        &&& self.j <= self.matcher.pattern@.len()
        &&& vstd::laws_eq::obeys_concrete_eq::<T>() ==> is_longest_fit(
            self.matcher.pattern@,
            self.text@,
            self.i as int,
            self.j as int,
        )
    }

    /// Reads the next entry of the text and returns the length of the
    /// longest prefix of the pattern that ends with it; `None` once the
    /// text has been read to its end.
    pub fn next(&mut self) -> (res: Option<usize>)
        requires
            old(self).wf(),
        ensures
            final(self).wf(),
            final(self).pattern() == old(self).pattern(),
            final(self).text() == old(self).text(),
            old(self).consumed() >= old(self).text().len() ==> res.is_none()
                && final(self).consumed() == old(self).consumed()
                && final(self).matched() == old(self).matched(),
            old(self).consumed() < old(self).text().len() ==> res == Some(
                final(self).matched() as usize,
            ) && final(self).consumed() == old(self).consumed() + 1,
            vstd::laws_eq::obeys_concrete_eq::<T>() && res.is_some() ==> is_longest_fit(
                old(self).pattern(),
                old(self).text(),
                (old(self).consumed() + 1) as int,
                res.unwrap() as int,
            ),
    {
        if self.i >= self.text.len() {
            return None;
        }
        let ghost exact = vstd::laws_eq::obeys_concrete_eq::<T>();
        let ghost p = self.matcher.pattern@;
        let ghost t = self.text@;
        let ghost m = self.i as int;
        let si = &self.text[self.i];
        let size = self.matcher.pattern.len();
        proof {
            reveal(vstd::laws_eq::obeys_concrete_eq);
        }
        while self.j > 0 && (self.j >= size || self.matcher.pattern[self.j] != *si)
            invariant
                exact == vstd::laws_eq::obeys_concrete_eq::<T>(),
                self.matcher == old(self).matcher,
                self.text == old(self).text,
                self.i == old(self).i,
                self.matcher.wf(),
                p == self.matcher.pattern@,
                t == self.text@,
                m == self.i,
                m < t.len(),
                *si == t[m],
                size == p.len(),
                self.j <= size,
                exact ==> T::obeys_eq_spec() && forall|x: T, y: T|
                    #[trigger] x.eq_spec(&y) == (x == y),
                exact ==> falling(p, t, m, m, self.j as int, t[m]),
            decreases self.j,
        {
            proof {
                if exact {
                    assert(is_longest_border(
                        p,
                        (self.j - 1) + 1,
                        self.matcher.pi@[self.j - 1] as int,
                    ));
                    lemma_fall_back(
                        p,
                        t,
                        m,
                        m,
                        self.j as int,
                        self.matcher.pi@[self.j - 1] as int,
                        t[m],
                    );
                }
            }
            self.j = self.matcher.pi[self.j - 1];
        }
        if self.matcher.pattern[self.j] == *si {
            proof {
                if exact {
                    lemma_fall_hit(p, t, m, m, self.j as int);
                }
            }
            self.j += 1;
        } else {
            proof {
                if exact {
                    lemma_fall_miss(p, t, m, m);
                }
            }
        }
        self.i += 1;
        Some(self.j)
    }
}

} // verus!
