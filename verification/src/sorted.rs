//! Exact order statistics over a totally ordered sample type.

use vstd::prelude::*;
use vstd::multiset::Multiset;
use vstd::relations::sorted_by;
use vstd::relations::total_ordering;

use crate::Commute;
use crate::is_unique_mode;

verus! {

broadcast use
    vstd::multiset::group_multiset_axioms,
    vstd::multiset::group_multiset_properties,
    vstd::seq_lib::group_to_multiset_ensures;

/// A total order on a sample type, decidable in executable code.
///
/// The order must be reflexive, antisymmetric, transitive and total, with
/// antisymmetry tied to value equality, so that a sorted sequence of
/// samples is unique.
pub trait TotalOrder: Sized + Copy {
    /// The order itself.
    spec fn le(self, other: Self) -> bool;

    /// The laws of a total order: reflexivity, antisymmetry, transitivity
    /// and totality.
    proof fn le_properties(a: Self, b: Self, c: Self)
        ensures
            a.le(a),
            a.le(b) && b.le(a) ==> a == b,
            a.le(b) && b.le(c) ==> a.le(c),
            a.le(b) || b.le(a),
    ;

    /// Decide the order of two values.
    fn le_exec(self, other: Self) -> (r: bool)
        ensures
            r == self.le(other),
    ;
}

impl TotalOrder for i64 {
    open spec fn le(self, other: Self) -> bool {
        self <= other
    }

    proof fn le_properties(a: Self, b: Self, c: Self) {
    }

    fn le_exec(self, other: Self) -> (r: bool) {
        self <= other
    }
}

/// The order of a [`TotalOrder`] type as a binary relation.
pub open spec fn le_fn<T: TotalOrder>() -> spec_fn(T, T) -> bool {
    |a: T, b: T| a.le(b)
}

/// The relation [`le_fn`] is a total ordering in the sense of
/// `vstd::relations`.
pub proof fn lemma_le_total_ordering<T: TotalOrder>()
    ensures
        total_ordering(le_fn::<T>()),
{
    let leq = le_fn::<T>();
    assert forall|x: T| #[trigger] leq(x, x) by {
        T::le_properties(x, x, x);
    }
    assert forall|x: T, y: T| #[trigger] leq(x, y) && #[trigger] leq(y, x) implies x == y by {
        T::le_properties(x, y, x);
    }
    assert forall|x: T, y: T, z: T| #[trigger] leq(x, y) && #[trigger] leq(y, z) implies leq(
        x,
        z,
    ) by {
        T::le_properties(x, y, z);
    }
    assert forall|x: T, y: T| #[trigger] leq(x, y) || #[trigger] leq(y, x) by {
        T::le_properties(x, y, x);
    }
}

/// Decide equality of two values from the total order: values are equal
/// exactly when each is `le` the other.
pub(crate) fn eq_exec<T: TotalOrder>(a: T, b: T) -> (r: bool)
    ensures
        r == (a == b),
{
    let r = a.le_exec(b) && b.le_exec(a);
    proof {
        T::le_properties(a, b, a);
    }
    r
}

/// The unique sorted sequence whose multiset of elements is `m`.
pub open spec fn sorted_of<T: TotalOrder>(m: Multiset<T>) -> Seq<T> {
    choose|s: Seq<T>| s.to_multiset() == m && sorted_by(s, le_fn::<T>())
}

/// A sorted sequence is the sorted form of its own multiset.
pub proof fn lemma_sorted_of_is<T: TotalOrder>(s: Seq<T>)
    requires
        sorted_by(s, le_fn::<T>()),
    ensures
        sorted_of(s.to_multiset()) == s,
{
    let m = s.to_multiset();
    assert(s.to_multiset() == m && sorted_by(s, le_fn::<T>()));
    let s2 = sorted_of::<T>(m);
    assert(s2.to_multiset() == m && sorted_by(s2, le_fn::<T>()));
    lemma_le_total_ordering::<T>();
    vstd::seq_lib::lemma_sorted_unique(s, s2, le_fn::<T>());
}

/// Insert `x` into the sorted vector `v`, keeping it sorted.
pub(crate) fn insert_sorted<T: TotalOrder>(v: &mut Vec<T>, x: T)
    requires
        sorted_by(old(v)@, le_fn::<T>()),
    ensures
        sorted_by(final(v)@, le_fn::<T>()),
        final(v)@.to_multiset() == old(v)@.to_multiset().insert(x),
{
    let n = v.len();
    let mut i: usize = 0;
    while i < n && !x.le_exec(v[i])
        invariant
            i <= n,
            n == v@.len(),
            forall|j: int| 0 <= j < i ==> !x.le(#[trigger] v@[j]),
        decreases n - i,
    {
        i = i + 1;
    }
    let ghost before = v@;
    v.insert(i, x);
    proof {
        let leq = le_fn::<T>();
        let after = v@;
        let pos = i as int;
        before.insert_ensures(pos, x);
        assert forall|k: int| 0 <= k < pos implies leq(after[k], x) by {
            assert(!x.le(before[k]));
            T::le_properties(x, before[k], x);
        }
        assert(pos < before.len() ==> x.le(before[pos]));
        assert forall|k: int| pos < k < after.len() implies leq(x, after[k]) by {
            let kk = k - 1;
            assert(before.insert(pos, x)[kk + 1] == before[kk]);
            if kk == pos {
                assert(x.le(before[pos]));
            } else {
                assert(leq(before[pos], before[kk]));
                T::le_properties(x, before[pos], before[kk]);
            }
        }
        assert forall|p: int, q: int| 0 <= p < q < after.len() implies leq(after[p], after[q]) by {
            if p < pos && q == pos {
            } else if p == pos && q > pos {
            } else if p < pos && q > pos {
                T::le_properties(after[p], x, after[q]);
            } else if q < pos {
                assert(after[p] == before[p] && after[q] == before[q]);
                assert(leq(before[p], before[q]));
            } else {
                assert(p > pos);
                assert(before.insert(pos, x)[(p - 1) + 1] == before[p - 1]);
                assert(before.insert(pos, x)[(q - 1) + 1] == before[q - 1]);
                assert(leq(before[p - 1], before[q - 1]));
            }
        }
    }
}

/// Every element of `s` is `v`.
proof fn lemma_count_all<T>(s: Seq<T>, v: T)
    requires
        forall|k: int| 0 <= k < s.len() ==> s[k] == v,
    ensures
        s.to_multiset().count(v) == s.len(),
    decreases s.len(),
{
    if s.len() > 0 {
        lemma_count_all(s.drop_last(), v);
        assert(s =~= s.drop_last().push(v));
        assert(s.drop_last().push(v).to_multiset() =~= s.drop_last().to_multiset().insert(v));
    }
}

/// No element of `s` is `v`.
proof fn lemma_count_none<T>(s: Seq<T>, v: T)
    requires
        forall|k: int| 0 <= k < s.len() ==> s[k] != v,
    ensures
        s.to_multiset().count(v) == 0,
    decreases s.len(),
{
    if s.len() > 0 {
        lemma_count_none(s.drop_last(), v);
        assert(s =~= s.drop_last().push(s.last()));
        assert(s.drop_last().push(s.last()).to_multiset() =~= s.drop_last().to_multiset().insert(
            s.last(),
        ));
    }
}

/// A value occupying exactly the index window `[i, j)` of a sequence has
/// multiplicity `j - i`.
proof fn lemma_count_window<T>(s: Seq<T>, v: T, i: int, j: int)
    requires
        0 <= i <= j <= s.len(),
        forall|k: int| i <= k < j ==> s[k] == v,
        forall|k: int| 0 <= k < i ==> s[k] != v,
        forall|k: int| j <= k < s.len() ==> s[k] != v,
    ensures
        s.to_multiset().count(v) == j - i,
{
    let a = s.subrange(0, i);
    let b = s.subrange(i, j);
    let c = s.subrange(j, s.len() as int);
    assert(s =~= (a + b) + c);
    vstd::seq_lib::lemma_multiset_commutative(a + b, c);
    vstd::seq_lib::lemma_multiset_commutative(a, b);
    lemma_count_none(a, v);
    lemma_count_all(b, v);
    lemma_count_none(c, v);
}

/// `v` occurs among the first `i` elements of `s`.
pub(crate) open spec fn seen<T>(s: Seq<T>, i: int, v: T) -> bool {
    exists|k: int| 0 <= k < i && s[k] == v
}

/// Walk a fully sorted sequence once, tracking the longest run of equal
/// elements, and return the unique mode: the value whose multiplicity
/// strictly exceeds that of every other value. `None` is returned for an
/// empty sequence and whenever the highest multiplicity is shared.
#[verifier::rlimit(50)]
pub fn mode_on_sorted<T: TotalOrder>(data: &Vec<T>) -> (r: Option<T>)
    requires
        sorted_by(data@, le_fn::<T>()),
    ensures
        r matches Some(v) ==> is_unique_mode(data@.to_multiset(), v),
        r is None ==> forall|v: T| !is_unique_mode(data@.to_multiset(), v),
{
    let ghost s = data@;
    let ghost ms = data@.to_multiset();
    let n = data.len();
    let mut best: Option<T> = None;
    let mut best_cnt: usize = 0;
    let mut i: usize = 0;
    // `top` always realizes the maximal multiplicity `best_cnt` among the
    // values walked so far; when `best` is `None`, `rival` is a second,
    // distinct value that also realizes it.
    let ghost mut top: T = arbitrary();
    let ghost mut rival: T = arbitrary();
    while i < n
        invariant
            sorted_by(data@, le_fn::<T>()),
            s == data@,
            ms == s.to_multiset(),
            n == s.len(),
            i <= n,
            i < n ==> forall|k: int| 0 <= k < i ==> s[k] != s[i as int],
            i == 0 ==> best_cnt == 0 && best is None,
            i > 0 ==> best_cnt >= 1 && seen(s, i as int, top) && ms.count(top) == best_cnt,
            forall|v: T| #[trigger] seen(s, i as int, v) ==> ms.count(v) <= best_cnt,
            best matches Some(v) ==> v == top,
            best matches Some(v) ==> forall|u: T|
                #[trigger] seen(s, i as int, u) && u != v ==> ms.count(u) < best_cnt,
            best is None && i > 0 ==> seen(s, i as int, rival) && rival != top && ms.count(rival)
                == best_cnt,
        decreases n - i,
    {
        let v = data[i];
        let mut j = i + 1;
        while j < n && eq_exec(v, data[j])
            invariant
                s == data@,
                n == s.len(),
                i < j <= n,
                v == s[i as int],
                forall|k: int| i <= k < j ==> s[k] == v,
            decreases n - j,
        {
            j = j + 1;
        }
        let run = j - i;
        let ghost leq = le_fn::<T>();
        proof {
            assert forall|k: int| j <= k < n implies s[k] != v by {
                if s[k] == v {
                    assert(leq(s[i as int], s[j as int]));
                    assert(leq(s[j as int], s[k]) || j == k);
                    T::le_properties(v, s[j as int], s[k]);
                    T::le_properties(s[j as int], s[k], v);
                    assert(s[j as int] == v);
                }
            }
            lemma_count_window(s, v, i as int, j as int);
            assert(ms.count(v) == run);
            assert(!seen(s, i as int, v));
            assert(seen(s, j as int, v));
            assert forall|u: T| #[trigger] seen(s, j as int, u) implies (seen(s, i as int, u) || u
                == v) by {
                let k = choose|k: int| 0 <= k < j && s[k] == u;
                if k >= i {
                    assert(s[k] == v);
                }
            }
            assert forall|u: T| #[trigger] seen(s, i as int, u) implies seen(s, j as int, u) by {
                let k = choose|k: int| 0 <= k < i && s[k] == u;
                assert(0 <= k < j && s[k] == u);
            }
        }
        if run > best_cnt {
            best = Some(v);
            best_cnt = run;
            proof {
                top = v;
            }
        } else if run == best_cnt {
            proof {
                // a tie: `v` is unseen, so it differs from `top`
                if best is None {
                    // `top` and `rival` both still realize the maximum
                } else {
                    rival = v;
                }
            }
            best = None;
        }
        proof {
            if j < n {
                assert forall|k: int| 0 <= k < j implies s[k] != s[j as int] by {
                    if i <= k {
                        assert(s[k] == v);
                    } else {
                        if s[k] == s[j as int] {
                            assert(leq(s[k], s[i as int]));
                            assert(leq(s[i as int], s[j as int]));
                            T::le_properties(s[i as int], s[j as int], s[k]);
                            T::le_properties(s[k], s[i as int], s[j as int]);
                            assert(s[k] == s[i as int]);
                        }
                    }
                }
            }
        }
        i = j;
    }
    proof {
        assert forall|v: T| ms.count(v) > 0 implies #[trigger] seen(s, n as int, v) by {
            assert(s.contains(v));
        }
        match best {
            Some(v) => {
                assert(ms.count(v) == best_cnt);
                assert forall|u: T| u != v implies ms.count(u) < ms.count(v) by {
                    if ms.count(u) > 0 {
                        assert(seen(s, n as int, u));
                    }
                }
                assert(is_unique_mode(ms, v));
            },
            None => {
                assert forall|v: T| !is_unique_mode(ms, v) by {
                    if ms.count(v) > 0 {
                        assert(seen(s, n as int, v));
                        if v == top {
                            assert(!(ms.count(rival) < ms.count(v)));
                        } else {
                            assert(!(ms.count(top) < ms.count(v)));
                        }
                    }
                }
            },
        }
    }
    best
}

/// A mergeable multiset of samples kept fully sorted, supporting exact
/// median and mode queries.
pub struct Sorted<T> {
    data: Vec<T>,
}

impl<T: TotalOrder> View for Sorted<T> {
    type V = Multiset<T>;

    closed spec fn view(&self) -> Multiset<T> {
        self.data@.to_multiset()
    }
}

impl<T: TotalOrder> Sorted<T> {
    /// Create initial empty state.
    pub fn new() -> (r: Sorted<T>)
        ensures
            r.wf(),
            r@ == Multiset::<T>::empty(),
    {
        let r = Sorted { data: Vec::new() };
        proof {
            assert(r.data@.to_multiset() =~= Multiset::<T>::empty());
        }
        r
    }

    /// Add a new sample.
    pub fn add(&mut self, v: T)
        requires
            old(self).wf(),
        ensures
            final(self).wf(),
            final(self)@ == old(self)@.insert(v),
    {
        insert_sorted(&mut self.data, v);
    }

    /// Record every sample in `samples`, in any order.
    pub fn extend(&mut self, samples: Vec<T>)
        requires
            old(self).wf(),
        ensures
            final(self).wf(),
            final(self)@ == old(self)@.add(samples@.to_multiset()),
    {
        let ghost total = old(self)@.add(samples@.to_multiset());
        let mut rest = samples;
        while rest.len() > 0
            invariant
                self.wf(),
                self@.add(rest@.to_multiset()) == total,
            decreases rest@.len(),
        {
            let ghost before = rest@;
            let ghost s_before = self@;
            let x = rest.pop().unwrap();
            proof {
                assert(rest@ =~= before.remove(before.len() - 1));
            }
            self.add(x);
            proof {
                assert(self@.add(rest@.to_multiset()) =~= s_before.add(before.to_multiset()));
            }
        }
        proof {
            assert(self@.add(rest@.to_multiset()) =~= self@);
        }
    }

    /// The number of samples.
    pub fn len(&self) -> (r: usize)
        ensures
            r == self@.len(),
    {
        self.data.len()
    }

    /// Remove every sample.
    pub fn clear(&mut self)
        ensures
            final(self).wf(),
            final(self)@ == Multiset::<T>::empty(),
    {
        self.data.clear();
        proof {
            assert(self.data@.to_multiset() =~= Multiset::<T>::empty());
        }
    }

    /// Consume the accumulator and hand out its samples in sorted order.
    pub fn into_sorted_vec(self) -> (r: Vec<T>)
        requires
            self.wf(),
        ensures
            r@ == sorted_of::<T>(self@),
            sorted_by(r@, le_fn::<T>()),
            r@.to_multiset() == self@,
    {
        proof {
            lemma_sorted_of_is::<T>(self.data@);
        }
        self.data
    }

    /// Returns the unique mode of the data, if there is one: the value
    /// whose multiplicity strictly exceeds that of every other value.
    ///
    /// `None` is returned for an empty data set and whenever the highest
    /// multiplicity is shared by two or more distinct values. This is the
    /// same tie rule that [`crate::Frequencies::mode`] applies.
    pub fn mode(&self) -> (r: Option<T>)
        requires
            self.wf(),
        ensures
            r matches Some(v) ==> is_unique_mode(self@, v),
            r is None ==> forall|v: T| !is_unique_mode(self@, v),
    {
        mode_on_sorted(&self.data)
    }

    /// The middle elements of the sorted data: `None` when no samples were
    /// added; the two elements surrounding the midpoint for an even number
    /// of samples; twice the middle element for an odd number. The median
    /// is the arithmetic mean of the returned pair.
    pub fn median_pair(&self) -> (r: Option<(T, T)>)
        requires
            self.wf(),
        ensures
            r is None <==> self@.len() == 0,
            self@.len() > 0 ==> {
                let s = sorted_of::<T>(self@);
                let n = s.len() as int;
                if n % 2 == 1 {
                    r == Some((s[n / 2], s[n / 2]))
                } else {
                    r == Some((s[n / 2 - 1], s[n / 2]))
                }
            },
    {
        proof {
            lemma_sorted_of_is::<T>(self.data@);
        }
        let n = self.data.len();
        if n == 0 {
            None
        } else if n % 2 == 1 {
            let m = self.data[n / 2];
            Some((m, m))
        } else {
            Some((self.data[n / 2 - 1], self.data[n / 2]))
        }
    }
}

impl<T: TotalOrder> Commute for Sorted<T> {
    type Model = Multiset<T>;

    closed spec fn model(&self) -> Multiset<T> {
        self@
    }

    closed spec fn wf(&self) -> bool {
        sorted_by(self.data@, le_fn::<T>())
    }

    open spec fn mergeable(m1: Multiset<T>, m2: Multiset<T>) -> bool {
        true
    }

    open spec fn merged(m1: Multiset<T>, m2: Multiset<T>) -> Multiset<T> {
        m1.add(m2)
    }

    /// Bag union: every sample of both operands is kept, duplicates
    /// included.
    fn merge(&mut self, other: Sorted<T>) {
        let ghost total = old(self)@.add(other@);
        let mut rest = other.data;
        while rest.len() > 0
            invariant
                self.wf(),
                self@.add(rest@.to_multiset()) == total,
            decreases rest@.len(),
        {
            let ghost before = rest@;
            let ghost s_before = self@;
            let x = rest.pop().unwrap();
            proof {
                assert(rest@ =~= before.remove(before.len() - 1));
            }
            self.add(x);
            proof {
                assert(self@.add(rest@.to_multiset()) =~= s_before.add(before.to_multiset()));
            }
        }
        proof {
            assert(self@.add(rest@.to_multiset()) =~= self@);
        }
    }
}

impl<T: TotalOrder> Default for Sorted<T> {
    /// The identity for merging: the empty multiset of samples.
    fn default() -> (r: Sorted<T>)
        ensures
            r.wf(),
            r@ == Multiset::<T>::empty(),
    {
        Sorted::new()
    }
}

/// Compute the exact mode of a stream of samples, if it has one: the value
/// occurring strictly more often than every other value.
pub fn mode<T: TotalOrder>(samples: Vec<T>) -> (r: Option<T>)
    ensures
        r matches Some(v) ==> is_unique_mode(samples@.to_multiset(), v),
        r is None ==> forall|v: T| !is_unique_mode(samples@.to_multiset(), v),
{
    let ghost total = samples@.to_multiset();
    let mut acc = Sorted::new();
    acc.extend(samples);
    proof {
        assert(acc@ =~= total);
    }
    acc.mode()
}

/// The middle elements of the stream once sorted; the exact median is the
/// arithmetic mean of the returned pair. `None` only for an empty stream.
pub fn median_pair<T: TotalOrder>(samples: Vec<T>) -> (r: Option<(T, T)>)
    ensures
        r is None <==> samples@.len() == 0,
        samples@.len() > 0 ==> {
            let s = sorted_of::<T>(samples@.to_multiset());
            let n = s.len() as int;
            if n % 2 == 1 {
                r == Some((s[n / 2], s[n / 2]))
            } else {
                r == Some((s[n / 2 - 1], s[n / 2]))
            }
        },
{
    let ghost total = samples@.to_multiset();
    let mut acc = Sorted::new();
    acc.extend(samples);
    proof {
        assert(acc@ =~= total);
    }
    acc.median_pair()
}

/// Merging sorted accumulators is associative.
pub proof fn lemma_sorted_merge_assoc<T: TotalOrder>(
    a: Multiset<T>,
    b: Multiset<T>,
    c: Multiset<T>,
)
    ensures
        Sorted::<T>::merged(Sorted::<T>::merged(a, b), c) == Sorted::<T>::merged(
            a,
            Sorted::<T>::merged(b, c),
        ),
{
    assert(a.add(b).add(c) =~= a.add(b.add(c)));
}

/// The empty accumulator is an identity for merging on either side.
pub proof fn lemma_sorted_merge_identity<T: TotalOrder>(m: Multiset<T>)
    ensures
        Sorted::<T>::merged(m, Multiset::<T>::empty()) == m,
        Sorted::<T>::merged(Multiset::<T>::empty(), m) == m,
{
    assert(m.add(Multiset::<T>::empty()) =~= m);
    assert(Multiset::<T>::empty().add(m) =~= m);
}

/// Merging accumulators built from two sample sequences gives the
/// accumulator of their concatenation: merging partial results is
/// equivalent to sequential processing.
pub proof fn lemma_sorted_merge_concat<T: TotalOrder>(s1: Seq<T>, s2: Seq<T>)
    ensures
        Sorted::<T>::merged(s1.to_multiset(), s2.to_multiset()) == (s1 + s2).to_multiset(),
{
    vstd::seq_lib::lemma_multiset_commutative(s1, s2);
}

} // verus!
