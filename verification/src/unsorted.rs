//! Exact order statistics over lazily sorted data, including sample
//! domains with only a partial order.

use vstd::prelude::*;
use vstd::multiset::Multiset;
use vstd::relations::sorted_by;

use crate::Commute;
use crate::is_unique_mode;
use crate::sorted::TotalOrder;
use crate::sorted::eq_exec;
use crate::sorted::insert_sorted;
use crate::sorted::le_fn;
use crate::sorted::lemma_sorted_of_is;
use crate::sorted::mode_on_sorted;
use crate::sorted::seen;
use crate::sorted::sorted_of;

verus! {

broadcast use
    vstd::multiset::group_multiset_axioms,
    vstd::multiset::group_multiset_properties,
    vstd::seq_lib::group_to_multiset_ensures;

/// A sample from a domain whose order is only partial, wrapped in a total
/// order so that a full deterministic sort is always possible.
///
/// Ordinary samples carry their key and are ordered by it. A sample whose
/// comparisons are undefined (such as a not-a-number reading) is
/// `Unordered`: all such samples are treated as mutually equal and greater
/// than every ordinary sample.
#[derive(Clone, Copy, Debug, PartialEq, Eq, Structural)]
pub enum Partial {
    /// An ordinary, totally ordered sample, identified by its key.
    Val(i64),
    /// A sample whose comparison with ordinary samples is undefined.
    Unordered,
}

impl TotalOrder for Partial {
    open spec fn le(self, other: Self) -> bool {
        match (self, other) {
            (Partial::Val(a), Partial::Val(b)) => a <= b,
            (Partial::Val(_), Partial::Unordered) => true,
            (Partial::Unordered, Partial::Val(_)) => false,
            (Partial::Unordered, Partial::Unordered) => true,
        }
    }

    proof fn le_properties(a: Self, b: Self, c: Self) {
    }

    fn le_exec(self, other: Self) -> (r: bool) {
        match (self, other) {
            (Partial::Val(a), Partial::Val(b)) => a <= b,
            (Partial::Val(_), Partial::Unordered) => true,
            (Partial::Unordered, Partial::Val(_)) => false,
            (Partial::Unordered, Partial::Unordered) => true,
        }
    }
}

/// A mergeable multiset of samples that is sorted lazily.
///
/// `add` and `merge` only append and mark the buffer stale; a query sorts
/// the buffer if and only if it is stale and caches the order until the
/// next mutation. Queries therefore always answer with respect to every
/// sample added so far, and never change the observable contents.
pub struct Unsorted<T> {
    data: Vec<T>,
    sorted: bool,
}

impl<T: TotalOrder> View for Unsorted<T> {
    type V = Multiset<T>;

    closed spec fn view(&self) -> Multiset<T> {
        self.data@.to_multiset()
    }
}

impl<T: TotalOrder> Unsorted<T> {
    /// Create initial empty state.
    pub fn new() -> (r: Unsorted<T>)
        ensures
            r.wf(),
            r@ == Multiset::<T>::empty(),
    {
        let r = Unsorted { data: Vec::new(), sorted: true };
        proof {
            assert(r.data@.to_multiset() =~= Multiset::<T>::empty());
        }
        r
    }

    /// Create an empty accumulator, pre-sizing its buffer for the expected
    /// number of samples.
    pub fn with_size_hint(samples: usize) -> (r: Unsorted<T>)
        ensures
            r.wf(),
            r@ == Multiset::<T>::empty(),
    {
        let r = Unsorted { data: Vec::with_capacity(samples), sorted: true };
        proof {
            assert(r.data@.to_multiset() =~= Multiset::<T>::empty());
        }
        r
    }

    /// Mark the cached sort stale.
    fn dirtied(&mut self)
        ensures
            final(self).data == old(self).data,
            final(self).sorted == false,
    {
        self.sorted = false;
    }

    /// Add a new sample; the buffer becomes stale.
    pub fn add(&mut self, v: T)
        requires
            old(self).wf(),
        ensures
            final(self).wf(),
            final(self)@ == old(self)@.insert(v),
    {
        self.dirtied();
        self.data.push(v);
    }

    /// Record every sample in `samples`; the buffer becomes stale.
    pub fn extend(&mut self, samples: Vec<T>)
        requires
            old(self).wf(),
        ensures
            final(self).wf(),
            final(self)@ == old(self)@.add(samples@.to_multiset()),
    {
        self.dirtied();
        let mut rest = samples;
        let ghost before = self.data@;
        self.data.append(&mut rest);
        proof {
            vstd::seq_lib::lemma_multiset_commutative(before, samples@);
        }
    }

    /// The number of samples.
    pub fn len(&self) -> (r: usize)
        ensures
            r == self@.len(),
    {
        self.data.len()
    }

    /// Sort the buffer if it is stale; the contents are unchanged and the
    /// cached order is reused otherwise.
    fn sort(&mut self)
        requires
            old(self).wf(),
        ensures
            final(self).wf(),
            final(self)@ == old(self)@,
            final(self).sorted == true,
            final(self).data@ == sorted_of::<T>(old(self)@),
    {
        if !self.sorted {
            let ghost total = self@;
            let mut out: Vec<T> = Vec::new();
            proof {
                assert(out@.to_multiset().add(self.data@.to_multiset()) =~= total);
            }
            while self.data.len() > 0
                invariant
                    sorted_by(out@, le_fn::<T>()),
                    out@.to_multiset().add(self.data@.to_multiset()) == total,
                decreases self.data@.len(),
            {
                let ghost before = self.data@;
                let ghost out_before = out@;
                let x = self.data.pop().unwrap();
                proof {
                    assert(self.data@ =~= before.remove(before.len() - 1));
                }
                insert_sorted(&mut out, x);
                proof {
                    assert(out@.to_multiset().add(self.data@.to_multiset())
                        =~= out_before.to_multiset().add(before.to_multiset()));
                }
            }
            proof {
                assert(out@.to_multiset().add(self.data@.to_multiset()) =~= out@.to_multiset());
            }
            self.data = out;
            self.sorted = true;
        }
        proof {
            lemma_sorted_of_is::<T>(self.data@);
        }
    }

    /// The number of distinct samples. Requires equality, not only an
    /// order; sorts the buffer if it is stale.
    pub fn cardinality(&mut self) -> (r: usize)
        requires
            old(self).wf(),
        ensures
            final(self).wf(),
            final(self)@ == old(self)@,
            r == old(self)@.dom().len(),
    {
        self.sort();
        let ghost s = self.data@;
        let ghost ms = self@;
        let n = self.data.len();
        let mut count: usize = 0;
        let mut i: usize = 0;
        let ghost mut vals: Set<T> = Set::empty();
        while i < n
            invariant
                self.wf(),
                self.sorted == true,
                s == self.data@,
                ms == s.to_multiset(),
                n == s.len(),
                i <= n,
                count <= i,
                i < n ==> forall|k: int| 0 <= k < i ==> s[k] != s[i as int],
                vals.finite(),
                vals.len() == count,
                forall|v: T| vals.contains(v) <==> #[trigger] seen(s, i as int, v),
            decreases n - i,
        {
            let v = self.data[i];
            let mut j = i + 1;
            while j < n && eq_exec(v, self.data[j])
                invariant
                    self.wf(),
                    self.sorted == true,
                    s == self.data@,
                    n == s.len(),
                    i < j <= n,
                    v == s[i as int],
                    forall|k: int| i <= k < j ==> s[k] == v,
                decreases n - j,
            {
                j = j + 1;
            }
            let ghost leq = le_fn::<T>();
            proof {
                assert(!seen(s, i as int, v));
                assert(!vals.contains(v));
                let ghost vals0 = vals;
                vals = vals.insert(v);
                assert forall|u: T| vals.contains(u) <==> #[trigger] seen(s, j as int, u) by {
                    if seen(s, j as int, u) {
                        let k = choose|k: int| 0 <= k < j && s[k] == u;
                        if k >= i {
                            assert(s[k] == v);
                        } else {
                            assert(seen(s, i as int, u));
                            assert(vals0.contains(u));
                        }
                    }
                    if vals0.contains(u) {
                        assert(seen(s, i as int, u));
                        let k = choose|k: int| 0 <= k < i && s[k] == u;
                        assert(0 <= k < j && s[k] == u);
                        assert(seen(s, j as int, u));
                    }
                    assert(u == v ==> seen(s, j as int, u));
                }
                if j < n {
                    assert forall|k: int| 0 <= k < j implies s[k] != s[j as int] by {
                        if i <= k {
                            assert(s[k] == v);
                        } else {
                            if s[k] == s[j as int] {
                                assert(leq(s[k], s[i as int]));
                                assert(leq(s[i as int], s[j as int]));
                                T::le_properties(s[i as int], s[j as int], s[k]);
                                T::le_properties(s[k], s[i as int], s[j as int]);
                                assert(s[k] == s[i as int]);
                            }
                        }
                    }
                }
            }
            count = count + 1;
            i = j;
        }
        proof {
            assert forall|v: T| vals.contains(v) <==> #[trigger] ms.dom().contains(v) by {
                if seen(s, n as int, v) {
                    assert(s.contains(v));
                }
                if ms.count(v) > 0 {
                    assert(s.contains(v));
                    assert(seen(s, n as int, v));
                }
            }
            assert(vals =~= ms.dom());
        }
        count
    }

    /// Returns the unique mode of the data, if there is one: the value
    /// whose multiplicity strictly exceeds that of every other value.
    /// Sorts the buffer if it is stale.
    ///
    /// `None` is returned for an empty data set and whenever the highest
    /// multiplicity is shared by two or more distinct values.
    pub fn mode(&mut self) -> (r: Option<T>)
        requires
            old(self).wf(),
        ensures
            final(self).wf(),
            final(self)@ == old(self)@,
            r matches Some(v) ==> is_unique_mode(old(self)@, v),
            r is None ==> forall|v: T| !is_unique_mode(old(self)@, v),
    {
        self.sort();
        mode_on_sorted(&self.data)
    }

    /// The middle elements of the sorted data: `None` when no samples were
    /// added; the two elements surrounding the midpoint for an even number
    /// of samples; twice the middle element for an odd number. The median
    /// is the arithmetic mean of the returned pair. Sorts the buffer if it
    /// is stale.
    pub fn median_pair(&mut self) -> (r: Option<(T, T)>)
        requires
            old(self).wf(),
        ensures
            final(self).wf(),
            final(self)@ == old(self)@,
            r is None <==> old(self)@.len() == 0,
            old(self)@.len() > 0 ==> {
                let s = sorted_of::<T>(old(self)@);
                let n = s.len() as int;
                if n % 2 == 1 {
                    r == Some((s[n / 2], s[n / 2]))
                } else {
                    r == Some((s[n / 2 - 1], s[n / 2]))
                }
            },
    {
        self.sort();
        let n = self.data.len();
        if n == 0 {
            None
        } else if n % 2 == 1 {
            let m = self.data[n / 2];
            Some((m, m))
        } else {
            Some((self.data[n / 2 - 1], self.data[n / 2]))
        }
    }
}

impl<T: TotalOrder> Commute for Unsorted<T> {
    type Model = Multiset<T>;

    closed spec fn model(&self) -> Multiset<T> {
        self@
    }

    closed spec fn wf(&self) -> bool {
        self.sorted ==> sorted_by(self.data@, le_fn::<T>())
    }

    open spec fn mergeable(m1: Multiset<T>, m2: Multiset<T>) -> bool {
        true
    }

    open spec fn merged(m1: Multiset<T>, m2: Multiset<T>) -> Multiset<T> {
        m1.add(m2)
    }

    /// Bag union: the buffers are concatenated and marked stale.
    fn merge(&mut self, other: Unsorted<T>) {
        self.dirtied();
        let mut rest = other.data;
        let ghost before = self.data@;
        let ghost incoming = rest@;
        self.data.append(&mut rest);
        proof {
            vstd::seq_lib::lemma_multiset_commutative(before, incoming);
        }
    }
}

impl<T: TotalOrder> Default for Unsorted<T> {
    /// The identity for merging: the empty multiset of samples.
    fn default() -> (r: Unsorted<T>)
        ensures
            r.wf(),
            r@ == Multiset::<T>::empty(),
    {
        Unsorted::new()
    }
}

/// Compute the exact mode of a stream of samples, if it has one: the value
/// occurring strictly more often than every other value.
pub fn mode<T: TotalOrder>(samples: Vec<T>) -> (r: Option<T>)
    ensures
        r matches Some(v) ==> is_unique_mode(samples@.to_multiset(), v),
        r is None ==> forall|v: T| !is_unique_mode(samples@.to_multiset(), v),
{
    let ghost total = samples@.to_multiset();
    let mut acc = Unsorted::new();
    acc.extend(samples);
    proof {
        assert(acc@ =~= total);
    }
    acc.mode()
}

/// The middle elements of the stream once sorted; the exact median is the
/// arithmetic mean of the returned pair. `None` only for an empty stream.
pub fn median_pair<T: TotalOrder>(samples: Vec<T>) -> (r: Option<(T, T)>)
    ensures
        r is None <==> samples@.len() == 0,
        samples@.len() > 0 ==> {
            let s = sorted_of::<T>(samples@.to_multiset());
            let n = s.len() as int;
            if n % 2 == 1 {
                r == Some((s[n / 2], s[n / 2]))
            } else {
                r == Some((s[n / 2 - 1], s[n / 2]))
            }
        },
{
    let ghost total = samples@.to_multiset();
    let mut acc = Unsorted::new();
    acc.extend(samples);
    proof {
        assert(acc@ =~= total);
    }
    acc.median_pair()
}

/// Merging lazily sorted accumulators is associative.
pub proof fn lemma_unsorted_merge_assoc<T: TotalOrder>(
    a: Multiset<T>,
    b: Multiset<T>,
    c: Multiset<T>,
)
    ensures
        Unsorted::<T>::merged(Unsorted::<T>::merged(a, b), c) == Unsorted::<T>::merged(
            a,
            Unsorted::<T>::merged(b, c),
        ),
{
    assert(a.add(b).add(c) =~= a.add(b.add(c)));
}

/// The empty accumulator is an identity for merging on either side.
pub proof fn lemma_unsorted_merge_identity<T: TotalOrder>(m: Multiset<T>)
    ensures
        Unsorted::<T>::merged(m, Multiset::<T>::empty()) == m,
        Unsorted::<T>::merged(Multiset::<T>::empty(), m) == m,
{
    assert(m.add(Multiset::<T>::empty()) =~= m);
    assert(Multiset::<T>::empty().add(m) =~= m);
}

/// Merging accumulators built from two sample sequences gives the
/// accumulator of their concatenation: merging partial results is
/// equivalent to sequential processing.
pub proof fn lemma_unsorted_merge_concat<T: TotalOrder>(s1: Seq<T>, s2: Seq<T>)
    ensures
        Unsorted::<T>::merged(s1.to_multiset(), s2.to_multiset()) == (s1 + s2).to_multiset(),
{
    vstd::seq_lib::lemma_multiset_commutative(s1, s2);
}

} // verus!
