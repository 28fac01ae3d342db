//! Exact frequency counts per distinct sample value.

use vstd::prelude::*;
use vstd::multiset::Multiset;

use crate::Commute;
use crate::is_unique_mode;

verus! {

broadcast use
    vstd::multiset::group_multiset_axioms,
    vstd::multiset::group_multiset_properties,
    vstd::seq_lib::group_to_multiset_ensures;

/// No two entries of the table share a key.
pub open spec fn keys_unique(s: Seq<(i64, u64)>) -> bool {
    forall|i: int, j: int| 0 <= i < j < s.len() ==> s[i].0 != s[j].0
}

/// Every entry of the table records at least one occurrence.
pub open spec fn counts_positive(s: Seq<(i64, u64)>) -> bool {
    forall|i: int| 0 <= i < s.len() ==> (#[trigger] s[i]).1 >= 1
}

/// The multiset of samples described by a table of (value, count) entries:
/// each entry contributes its count as the multiplicity of its key.
pub open spec fn pairs_ms(s: Seq<(i64, u64)>) -> Multiset<i64>
    decreases s.len(),
{
    if s.len() == 0 {
        Multiset::empty()
    } else {
        pairs_ms(s.drop_last()).update(s.last().0, s.last().1 as nat)
    }
}

/// The multiset with `extra` further copies of `k`.
pub open spec fn ms_bump(m: Multiset<i64>, k: i64, extra: nat) -> Multiset<i64> {
    m.update(k, m.count(k) + extra)
}

/// An entry's key has exactly the entry's count as its multiplicity.
proof fn lemma_pairs_ms_at(s: Seq<(i64, u64)>, i: int)
    requires
        keys_unique(s),
        0 <= i < s.len(),
    ensures
        pairs_ms(s).count(s[i].0) == s[i].1,
    decreases s.len(),
{
    let n = s.len() as int;
    if i == n - 1 {
    } else {
        lemma_pairs_ms_at(s.drop_last(), i);
    }
}

/// A key that appears in no entry has multiplicity zero.
proof fn lemma_pairs_ms_absent(s: Seq<(i64, u64)>, k: i64)
    requires
        forall|i: int| 0 <= i < s.len() ==> (#[trigger] s[i]).0 != k,
    ensures
        pairs_ms(s).count(k) == 0,
    decreases s.len(),
{
    if s.len() > 0 {
        lemma_pairs_ms_absent(s.drop_last(), k);
    }
}

/// Overwriting the count stored in one entry updates the key's multiplicity
/// and touches nothing else.
proof fn lemma_pairs_ms_update(s: Seq<(i64, u64)>, i: int, c: u64)
    requires
        keys_unique(s),
        0 <= i < s.len(),
    ensures
        pairs_ms(s.update(i, (s[i].0, c))) =~= pairs_ms(s).update(s[i].0, c as nat),
    decreases s.len(),
{
    let n = s.len() as int;
    let t = s.update(i, (s[i].0, c));
    if i == n - 1 {
        assert(t.drop_last() =~= s.drop_last());
    } else {
        assert(t.drop_last() =~= s.drop_last().update(i, (s[i].0, c)));
        assert(t.last() == s.last());
        lemma_pairs_ms_update(s.drop_last(), i, c);
    }
}

/// A table of exact occurrence counts per distinct sample value.
///
/// Its abstract state is the multiset of all samples ever added to it or to
/// a table merged into it.
pub struct Frequencies {
    data: Vec<(i64, u64)>,
}

impl View for Frequencies {
    type V = Multiset<i64>;

    closed spec fn view(&self) -> Multiset<i64> {
        pairs_ms(self.data@)
    }
}

impl Frequencies {
    /// Create a new frequency table with no samples.
    pub fn new() -> (r: Frequencies)
        ensures
            r.wf(),
            r@ == Multiset::<i64>::empty(),
    {
        Frequencies { data: Vec::new() }
    }

    /// Create a new empty frequency table, pre-sizing its storage for the
    /// expected number of distinct values.
    pub fn with_size_hint(distinct: usize) -> (r: Frequencies)
        ensures
            r.wf(),
            r@ == Multiset::<i64>::empty(),
    {
        Frequencies { data: Vec::with_capacity(distinct) }
    }

    /// Record `extra` further occurrences of `v`.
    fn bump(&mut self, v: i64, extra: u64)
        requires
            old(self).wf(),
            extra >= 1,
            old(self)@.count(v) + extra <= u64::MAX,
        ensures
            final(self).wf(),
            final(self)@ == ms_bump(old(self)@, v, extra as nat),
    {
        let n = self.data.len();
        let mut i: usize = 0;
        while i < n
            invariant
                self == old(self),
                self.wf(),
                extra >= 1,
                old(self)@.count(v) + extra <= u64::MAX,
                n == self.data@.len(),
                i <= n,
                forall|j: int| 0 <= j < i ==> (#[trigger] self.data@[j]).0 != v,
            decreases n - i,
        {
            if self.data[i].0 == v {
                proof {
                    lemma_pairs_ms_at(self.data@, i as int);
                }
                let c = self.data[i].1;
                let nc = c + extra;
                proof {
                    lemma_pairs_ms_update(self.data@, i as int, nc);
                }
                self.data[i] = (v, nc);
                proof {
                    assert(keys_unique(self.data@));
                    assert(counts_positive(self.data@));
                }
                return;
            }
            i = i + 1;
        }
        proof {
            lemma_pairs_ms_absent(self.data@, v);
            assert(self.data@.push((v, extra)).drop_last() =~= self.data@);
        }
        self.data.push((v, extra));
        proof {
            assert(self@ =~= ms_bump(old(self)@, v, extra as nat));
        }
    }

    /// Add a sample to the frequency table.
    pub fn add(&mut self, v: i64)
        requires
            old(self).wf(),
            old(self)@.count(v) < u64::MAX,
        ensures
            final(self).wf(),
            final(self)@ == old(self)@.insert(v),
    {
        self.bump(v, 1);
        proof {
            assert(ms_bump(old(self)@, v, 1) =~= old(self)@.insert(v));
        }
    }

    /// Record every sample in `samples`, in order.
    pub fn extend(&mut self, samples: Vec<i64>)
        requires
            old(self).wf(),
            forall|k: i64|
                old(self)@.count(k) + samples@.to_multiset().count(k) <= u64::MAX,
        ensures
            final(self).wf(),
            final(self)@ == old(self)@.add(samples@.to_multiset()),
    {
        let n = samples.len();
        let mut i: usize = 0;
        while i < n
            invariant
                self.wf(),
                i <= n,
                n == samples@.len(),
                forall|k: i64|
                    old(self)@.count(k) + samples@.to_multiset().count(k) <= u64::MAX,
                self@ == old(self)@.add(samples@.take(i as int).to_multiset()),
            decreases n - i,
        {
            let v = samples[i];
            proof {
                assert(samples@.take(i + 1).drop_last() =~= samples@.take(i as int));
                assert(samples@.take(i + 1) =~= samples@.take(i as int).push(v));
                assert(samples@ =~= samples@.take(i + 1) + samples@.skip(i + 1));
                vstd::seq_lib::lemma_multiset_commutative(
                    samples@.take(i + 1),
                    samples@.skip(i + 1),
                );
                assert(samples@.take(i + 1).to_multiset().count(v) <= samples@.to_multiset().count(
                    v,
                ));
                assert(samples@.take(i as int).push(v).to_multiset() =~= samples@.take(
                    i as int,
                ).to_multiset().insert(v));
                assert(samples@.take(i + 1).to_multiset() =~= samples@.take(
                    i as int,
                ).to_multiset().insert(v));
                assert(self@.count(v) < u64::MAX);
            }
            self.add(v);
            proof {
                assert(self@ =~= old(self)@.add(samples@.take(i + 1).to_multiset()));
            }
            i = i + 1;
        }
        proof {
            assert(samples@.take(n as int) =~= samples@);
        }
    }

    /// Return the number of occurrences of `v` in the data.
    pub fn count(&self, v: i64) -> (r: u64)
        requires
            self.wf(),
        ensures
            r == self@.count(v),
    {
        let n = self.data.len();
        let mut i: usize = 0;
        while i < n
            invariant
                self.wf(),
                n == self.data@.len(),
                i <= n,
                forall|j: int| 0 <= j < i ==> (#[trigger] self.data@[j]).0 != v,
            decreases n - i,
        {
            if self.data[i].0 == v {
                proof {
                    lemma_pairs_ms_at(self.data@, i as int);
                }
                return self.data[i].1;
            }
            i = i + 1;
        }
        proof {
            lemma_pairs_ms_absent(self.data@, v);
        }
        0
    }
}

/// `ranked` lists exactly the distinct values of `m`, each exactly once,
/// paired with its number of occurrences.
pub open spec fn ranking_of(m: Multiset<i64>, ranked: Seq<(i64, u64)>) -> bool {
    &&& forall|i: int| 0 <= i < ranked.len() ==> m.count((#[trigger] ranked[i]).0) == ranked[i].1
    &&& forall|i: int| 0 <= i < ranked.len() ==> (#[trigger] ranked[i]).1 >= 1
    &&& forall|i: int, j: int| 0 <= i < j < ranked.len() ==> ranked[i].0 != ranked[j].0
    &&& forall|k: i64|
        #[trigger] m.count(k) > 0 ==> exists|i: int|
            0 <= i < ranked.len() && (#[trigger] ranked[i]).0 == k
}

/// The stored counts never increase along the sequence.
pub open spec fn counts_descending(s: Seq<(i64, u64)>) -> bool {
    forall|i: int, j: int| 0 <= i < j < s.len() ==> s[i].1 >= s[j].1
}

/// The stored counts never decrease along the sequence.
pub open spec fn counts_ascending(s: Seq<(i64, u64)>) -> bool {
    forall|i: int, j: int| 0 <= i < j < s.len() ==> s[i].1 <= s[j].1
}

/// A table's own entry sequence is a ranking of its multiset.
proof fn lemma_ranking_self(s: Seq<(i64, u64)>)
    requires
        keys_unique(s),
        counts_positive(s),
    ensures
        ranking_of(pairs_ms(s), s),
{
    let m = pairs_ms(s);
    assert forall|i: int| 0 <= i < s.len() implies m.count((#[trigger] s[i]).0) == s[i].1 by {
        lemma_pairs_ms_at(s, i);
    }
    assert forall|k: i64| #[trigger] m.count(k) > 0 implies exists|i: int|
        0 <= i < s.len() && (#[trigger] s[i]).0 == k by {
        if forall|i: int| 0 <= i < s.len() ==> (#[trigger] s[i]).0 != k {
            lemma_pairs_ms_absent(s, k);
        }
    }
}

/// Two distinct positions of a sequence holding the same value give that
/// value a multiplicity of at least two.
proof fn lemma_two_positions_count(s: Seq<(i64, u64)>, i: int, j: int)
    requires
        0 <= i < j < s.len(),
        s[i] == s[j],
    ensures
        s.to_multiset().count(s[i]) >= 2,
{
    let r = s.remove(i);
    assert(r[j - 1] == s[j]);
    assert(r.contains(s[j]));
    assert(r.to_multiset() == s.to_multiset().remove(s[i]));
    assert(r.to_multiset().count(s[j]) > 0);
}

/// A ranking of `m` stays a ranking under any permutation of its entries.
proof fn lemma_ranking_permuted(m: Multiset<i64>, a: Seq<(i64, u64)>, b: Seq<(i64, u64)>)
    requires
        ranking_of(m, a),
        a.to_multiset() == b.to_multiset(),
    ensures
        ranking_of(m, b),
{
    assert forall|i: int| 0 <= i < b.len() implies m.count((#[trigger] b[i]).0) == b[i].1
        && b[i].1 >= 1 by {
        assert(b.contains(b[i]));
        assert(a.to_multiset().count(b[i]) > 0);
        assert(a.contains(b[i]));
        let j = choose|j: int| 0 <= j < a.len() && a[j] == b[i];
        assert(m.count(a[j].0) == a[j].1);
    }
    assert forall|i: int, j: int| 0 <= i < j < b.len() implies b[i].0 != b[j].0 by {
        if b[i] == b[j] {
            lemma_two_positions_count(b, i, j);
            assert(a.contains(b[i]));
            let p = choose|p: int| 0 <= p < a.len() && a[p] == b[i];
            a.lemma_multiset_has_no_duplicates();
        } else if b[i].0 == b[j].0 {
            assert(b.contains(b[i]));
            assert(a.to_multiset().count(b[i]) > 0);
            assert(a.contains(b[i]));
            assert(b.contains(b[j]));
            assert(a.to_multiset().count(b[j]) > 0);
            assert(a.contains(b[j]));
            let p = choose|p: int| 0 <= p < a.len() && a[p] == b[i];
            let q = choose|q: int| 0 <= q < a.len() && a[q] == b[j];
            assert(p != q);
            assert(a[p].0 != a[q].0);
        }
    }
    assert forall|k: i64| #[trigger] m.count(k) > 0 implies exists|i: int|
        0 <= i < b.len() && (#[trigger] b[i]).0 == k by {
        let j = choose|j: int| 0 <= j < a.len() && (#[trigger] a[j]).0 == k;
        assert(a.contains(a[j]));
        assert(b.to_multiset().count(a[j]) > 0);
        assert(b.contains(a[j]));
        let i = choose|i: int| 0 <= i < b.len() && b[i] == a[j];
        assert(b[i].0 == k);
    }
}

/// Insert one entry into a sequence sorted by descending count, keeping it
/// sorted.
fn insert_pair_desc(out: &mut Vec<(i64, u64)>, p: (i64, u64))
    requires
        counts_descending(old(out)@),
    ensures
        counts_descending(final(out)@),
        final(out)@.to_multiset() == old(out)@.to_multiset().insert(p),
{
    let n = out.len();
    let mut i: usize = 0;
    while i < n && out[i].1 >= p.1
        invariant
            i <= n,
            n == out@.len(),
            forall|j: int| 0 <= j < i ==> (#[trigger] out@[j]).1 >= p.1,
        decreases n - i,
    {
        i = i + 1;
    }
    proof {
        broadcast use vstd::seq_lib::group_to_multiset_ensures;
    }
    out.insert(i, p);
}

/// Sort a sequence of entries by descending count; the entries themselves
/// are preserved.
fn sort_pairs_desc(v: Vec<(i64, u64)>) -> (r: Vec<(i64, u64)>)
    ensures
        counts_descending(r@),
        r@.to_multiset() == v@.to_multiset(),
{
    let ghost total = v@.to_multiset();
    let mut rest = v;
    let mut out: Vec<(i64, u64)> = Vec::new();
    proof {
        assert(out@.to_multiset().add(rest@.to_multiset()) =~= total);
    }
    while rest.len() > 0
        invariant
            counts_descending(out@),
            out@.to_multiset().add(rest@.to_multiset()) == total,
        decreases rest@.len(),
    {
        let ghost before = rest@;
        let ghost out_before = out@;
        let p = rest.pop().unwrap();
        proof {
            assert(rest@ =~= before.remove(before.len() - 1));
        }
        insert_pair_desc(&mut out, p);
        proof {
            assert(out@.to_multiset().add(rest@.to_multiset()) =~= out_before.to_multiset().add(
                before.to_multiset(),
            ));
        }
    }
    proof {
        assert(out@.to_multiset().add(rest@.to_multiset()) =~= out@.to_multiset());
    }
    out
}

impl Frequencies {
    /// The number of distinct values observed.
    pub fn len(&self) -> (r: usize)
        requires
            self.wf(),
        ensures
            r == self@.dom().len(),
    {
        proof {
            lemma_pairs_ms_dom(self.data@);
        }
        self.data.len()
    }

    /// Return the cardinality (number of distinct values) of the data.
    pub fn cardinality(&self) -> (r: u64)
        requires
            self.wf(),
        ensures
            r == self@.dom().len(),
    {
        self.len() as u64
    }

    /// Return the distinct values and their counts, ordered by descending
    /// count. The order of values with equal counts is arbitrary and must
    /// not be relied upon.
    pub fn most_frequent(&self) -> (r: Vec<(i64, u64)>)
        requires
            self.wf(),
        ensures
            ranking_of(self@, r@),
            counts_descending(r@),
    {
        let n = self.data.len();
        let mut entries: Vec<(i64, u64)> = Vec::new();
        let mut i: usize = 0;
        while i < n
            invariant
                self.wf(),
                i <= n,
                n == self.data@.len(),
                entries@ == self.data@.take(i as int),
            decreases n - i,
        {
            let e = self.data[i];
            proof {
                assert(self.data@.take(i + 1) =~= self.data@.take(i as int).push(e));
            }
            entries.push(e);
            i = i + 1;
        }
        proof {
            assert(entries@ =~= self.data@);
        }
        let r = sort_pairs_desc(entries);
        proof {
            lemma_ranking_self(self.data@);
            lemma_ranking_permuted(self@, self.data@, r@);
        }
        r
    }

    /// Return the distinct values and their counts, ordered by ascending
    /// count. The order of values with equal counts is arbitrary and must
    /// not be relied upon.
    pub fn least_frequent(&self) -> (r: Vec<(i64, u64)>)
        requires
            self.wf(),
        ensures
            ranking_of(self@, r@),
            counts_ascending(r@),
    {
        let mut d = self.most_frequent();
        let ghost dd = d@;
        let mut out: Vec<(i64, u64)> = Vec::new();
        while d.len() > 0
            invariant
                d@ == dd.take(d@.len() as int),
                out@.len() + d@.len() == dd.len(),
                forall|i: int| 0 <= i < out@.len() ==> out@[i] == dd[dd.len() - 1 - i],
            decreases d@.len(),
        {
            let ghost before = d@;
            let p = d.pop().unwrap();
            proof {
                assert(d@ =~= dd.take(d@.len() as int));
            }
            out.push(p);
        }
        proof {
            lemma_ranking_reversed(self@, dd, out@);
        }
        out
    }

    /// Returns the value with strictly the highest count, if there is one.
    ///
    /// `None` is returned when the table is empty or when the highest count
    /// is shared by two or more distinct values.
    pub fn mode(&self) -> (r: Option<i64>)
        requires
            self.wf(),
        ensures
            r matches Some(v) ==> is_unique_mode(self@, v),
            r is None ==> forall|v: i64| !is_unique_mode(self@, v),
    {
        let ranked = self.most_frequent();
        if ranked.len() == 0 {
            proof {
                assert forall|v: i64| !is_unique_mode(self@, v) by {
                    if self@.count(v) > 0 {
                        assert(exists|i: int|
                            0 <= i < ranked@.len() && (#[trigger] ranked@[i]).0 == v);
                    }
                }
            }
            None
        } else if ranked.len() >= 2 && ranked[0].1 == ranked[1].1 {
            proof {
                assert forall|v: i64| !is_unique_mode(self@, v) by {
                    if is_unique_mode(self@, v) {
                        let u0 = ranked@[0].0;
                        let u1 = ranked@[1].0;
                        assert(u0 != u1);
                        if v == u0 {
                            assert(self@.count(u1) < self@.count(v));
                        } else {
                            assert(self@.count(u0) < self@.count(v));
                            assert(self@.count(v) > 0);
                            let i = choose|i: int|
                                0 <= i < ranked@.len() && (#[trigger] ranked@[i]).0 == v;
                            assert(i >= 1);
                            assert(ranked@[1].1 >= ranked@[i].1);
                        }
                    }
                }
            }
            None
        } else {
            let v = ranked[0].0;
            proof {
                assert(self@.count(v) == ranked@[0].1);
                assert forall|u: i64| u != v implies self@.count(u) < self@.count(v) by {
                    if self@.count(u) > 0 {
                        let i = choose|i: int|
                            0 <= i < ranked@.len() && (#[trigger] ranked@[i]).0 == u;
                        assert(i >= 1);
                        assert(ranked@.len() >= 2);
                        assert(ranked@[1].1 >= ranked@[i].1);
                        assert(ranked@[0].1 > ranked@[1].1);
                    }
                }
            }
            Some(v)
        }
    }
}

/// The number of distinct values in a table equals the number of entries.
proof fn lemma_pairs_ms_dom(s: Seq<(i64, u64)>)
    requires
        keys_unique(s),
        counts_positive(s),
    ensures
        pairs_ms(s).dom().finite(),
        pairs_ms(s).dom().len() == s.len(),
    decreases s.len(),
{
    if s.len() == 0 {
        assert(pairs_ms(s).dom() =~= Set::<i64>::empty());
    } else {
        let t = s.drop_last();
        let k = s.last().0;
        lemma_pairs_ms_dom(t);
        assert(forall|i: int| 0 <= i < t.len() ==> (#[trigger] t[i]).0 != k);
        lemma_pairs_ms_absent(t, k);
        assert(pairs_ms(s).dom() =~= pairs_ms(t).dom().insert(k));
        assert(!pairs_ms(t).dom().contains(k));
    }
}

/// Reversing a descending ranking yields an ascending ranking of the same
/// multiset.
proof fn lemma_ranking_reversed(m: Multiset<i64>, dd: Seq<(i64, u64)>, out: Seq<(i64, u64)>)
    requires
        ranking_of(m, dd),
        counts_descending(dd),
        out.len() == dd.len(),
        forall|i: int| 0 <= i < out.len() ==> out[i] == dd[dd.len() - 1 - i],
    ensures
        ranking_of(m, out),
        counts_ascending(out),
{
    assert forall|k: i64| #[trigger] m.count(k) > 0 implies exists|i: int|
        0 <= i < out.len() && (#[trigger] out[i]).0 == k by {
        let j = choose|j: int| 0 <= j < dd.len() && (#[trigger] dd[j]).0 == k;
        assert(out[dd.len() - 1 - j].0 == k);
    }
}

impl Commute for Frequencies {
    type Model = Multiset<i64>;

    closed spec fn model(&self) -> Multiset<i64> {
        self@
    }

    closed spec fn wf(&self) -> bool {
        keys_unique(self.data@) && counts_positive(self.data@)
    }

    open spec fn mergeable(m1: Multiset<i64>, m2: Multiset<i64>) -> bool {
        forall|k: i64| m1.count(k) + m2.count(k) <= u64::MAX
    }

    open spec fn merged(m1: Multiset<i64>, m2: Multiset<i64>) -> Multiset<i64> {
        m1.add(m2)
    }

    /// Key-wise sum of counts: the union of both tables, adding the counts
    /// of values present in both.
    fn merge(&mut self, other: Frequencies) {
        let ghost m0 = self@;
        let ghost o = other@;
        let mut rest = other.data;
        while rest.len() > 0
            invariant
                self.wf(),
                keys_unique(rest@),
                counts_positive(rest@),
                Self::mergeable(m0, o),
                self@.add(pairs_ms(rest@)) == m0.add(o),
            decreases rest@.len(),
        {
            let ghost before = rest@;
            let entry = rest.pop().unwrap();
            let k = entry.0;
            let c = entry.1;
            proof {
                assert(rest@ =~= before.drop_last());
                lemma_pairs_ms_absent(rest@, k);
                assert(pairs_ms(before).count(k) == c);
                assert(self@.count(k) + c <= u64::MAX) by {
                    assert(self@.add(pairs_ms(before)).count(k) == m0.add(o).count(k));
                }
            }
            let ghost s_before = self@;
            self.bump(k, c);
            proof {
                assert(self@.add(pairs_ms(rest@)) =~= s_before.add(pairs_ms(before)));
            }
        }
        proof {
            assert(self@.add(pairs_ms(rest@)) =~= self@);
        }
    }
}

impl Default for Frequencies {
    /// The identity for merging: the empty table.
    fn default() -> (r: Frequencies)
        ensures
            r.wf(),
            r@ == Multiset::<i64>::empty(),
    {
        Frequencies::new()
    }
}

/// Merging frequency tables is associative.
pub proof fn lemma_frequencies_merge_assoc(a: Multiset<i64>, b: Multiset<i64>, c: Multiset<i64>)
    ensures
        Frequencies::merged(Frequencies::merged(a, b), c) == Frequencies::merged(
            a,
            Frequencies::merged(b, c),
        ),
{
    assert(a.add(b).add(c) =~= a.add(b.add(c)));
}

/// The empty table is an identity for merging on either side.
pub proof fn lemma_frequencies_merge_identity(m: Multiset<i64>)
    ensures
        Frequencies::merged(m, Multiset::<i64>::empty()) == m,
        Frequencies::merged(Multiset::<i64>::empty(), m) == m,
{
    assert(m.add(Multiset::<i64>::empty()) =~= m);
    assert(Multiset::<i64>::empty().add(m) =~= m);
}

/// Merging tables built from two sample sequences gives the table of their
/// concatenation: merging partial counts is equivalent to sequential
/// processing.
pub proof fn lemma_frequencies_merge_concat(s1: Seq<i64>, s2: Seq<i64>)
    ensures
        Frequencies::merged(s1.to_multiset(), s2.to_multiset()) == (s1 + s2).to_multiset(),
{
    vstd::seq_lib::lemma_multiset_commutative(s1, s2);
}

} // verus!
