//! Running minimum, maximum and sample count.

use vstd::prelude::*;

use crate::Commute;

verus! {

/// Abstract state of a [`MinMax`] tracker: how many samples were seen and
/// the current bounds, which are absent exactly when no sample was seen.
pub struct MinMaxModel {
    pub count: nat,
    pub min: Option<i64>,
    pub max: Option<i64>,
}

/// The state of a tracker that has seen no samples.
pub open spec fn mm_empty() -> MinMaxModel {
    MinMaxModel { count: 0, min: None, max: None }
}

/// The lesser of two optional values; an absent value imposes no bound.
pub open spec fn opt_min(a: Option<i64>, b: Option<i64>) -> Option<i64> {
    match (a, b) {
        (None, _) => b,
        (_, None) => a,
        (Some(x), Some(y)) => if y < x {
            Some(y)
        } else {
            Some(x)
        },
    }
}

/// The greater of two optional values; an absent value imposes no bound.
pub open spec fn opt_max(a: Option<i64>, b: Option<i64>) -> Option<i64> {
    match (a, b) {
        (None, _) => b,
        (_, None) => a,
        (Some(x), Some(y)) => if y > x {
            Some(y)
        } else {
            Some(x)
        },
    }
}

/// The state after observing one more sample.
pub open spec fn mm_add(m: MinMaxModel, sample: i64) -> MinMaxModel {
    MinMaxModel {
        count: m.count + 1,
        min: opt_min(m.min, Some(sample)),
        max: opt_max(m.max, Some(sample)),
    }
}

/// The state combining the observations of two trackers.
pub open spec fn mm_merged(m1: MinMaxModel, m2: MinMaxModel) -> MinMaxModel {
    MinMaxModel {
        count: m1.count + m2.count,
        min: opt_min(m1.min, m2.min),
        max: opt_max(m1.max, m2.max),
    }
}

/// A consistent tracker state: bounds are absent exactly when the count is
/// zero, and the minimum never exceeds the maximum.
pub open spec fn mm_wf(m: MinMaxModel) -> bool {
    &&& m.count == 0 <==> m.min is None
    &&& m.count == 0 <==> m.max is None
    &&& match (m.min, m.max) {
        (Some(mn), Some(mx)) => mn <= mx,
        _ => true,
    }
}

/// The state after observing the samples in `s`, in order, starting empty.
pub open spec fn mm_from(s: Seq<i64>) -> MinMaxModel
    decreases s.len(),
{
    if s.len() == 0 {
        mm_empty()
    } else {
        mm_add(mm_from(s.drop_last()), s.last())
    }
}

/// A mergeable tracker of the minimum, maximum and count of a stream of
/// samples.
pub struct MinMax {
    len: u64,
    min: Option<i64>,
    max: Option<i64>,
}

impl MinMax {
    /// Create an empty tracker, where min and max values do not exist.
    pub fn new() -> (r: MinMax)
        ensures
            r.wf(),
            r.model() == mm_empty(),
    {
        MinMax { len: 0, min: None, max: None }
    }

    /// Record one sample.
    pub fn add(&mut self, sample: i64)
        requires
            old(self).wf(),
            old(self).model().count < u64::MAX,
        ensures
            final(self).wf(),
            final(self).model() == mm_add(old(self).model(), sample),
    {
        self.len = self.len + 1;
        let replace_min = match self.min {
            None => true,
            Some(mn) => sample < mn,
        };
        if replace_min {
            self.min = Some(sample);
        }
        let replace_max = match self.max {
            None => true,
            Some(mx) => sample > mx,
        };
        if replace_max {
            self.max = Some(sample);
        }
    }

    /// Record every sample in `samples`, in order.
    pub fn extend(&mut self, samples: Vec<i64>)
        requires
            old(self).wf(),
            old(self).model().count + samples@.len() <= u64::MAX,
        ensures
            final(self).wf(),
            final(self).model() == mm_extend(old(self).model(), samples@),
    {
        let n = samples.len();
        let mut i: usize = 0;
        while i < n
            invariant
                self.wf(),
                i <= n,
                n == samples@.len(),
                old(self).model().count + samples@.len() <= u64::MAX,
                self.model() == mm_extend(old(self).model(), samples@.take(i as int)),
                self.model().count == old(self).model().count + i,
            decreases n - i,
        {
            proof {
                assert(samples@.take(i + 1).drop_last() =~= samples@.take(i as int));
            }
            self.add(samples[i]);
            i = i + 1;
        }
        proof {
            assert(samples@.take(n as int) =~= samples@);
        }
    }

    /// The minimum of the observed samples.
    ///
    /// `None` is returned if and only if the number of samples is zero.
    pub fn min(&self) -> (r: Option<i64>)
        requires
            self.wf(),
        ensures
            r == self.model().min,
            r is None <==> self.model().count == 0,
    {
        self.min
    }

    /// The maximum of the observed samples.
    ///
    /// `None` is returned if and only if the number of samples is zero.
    pub fn max(&self) -> (r: Option<i64>)
        requires
            self.wf(),
        ensures
            r == self.model().max,
            r is None <==> self.model().count == 0,
    {
        self.max
    }

    /// The number of observed samples.
    pub fn len(&self) -> (r: u64)
        ensures
            r == self.model().count,
    {
        self.len
    }
}

/// The state after observing the samples in `s` on top of the state `m`.
pub open spec fn mm_extend(m: MinMaxModel, s: Seq<i64>) -> MinMaxModel
    decreases s.len(),
{
    if s.len() == 0 {
        m
    } else {
        mm_add(mm_extend(m, s.drop_last()), s.last())
    }
}

impl Commute for MinMax {
    type Model = MinMaxModel;

    closed spec fn model(&self) -> MinMaxModel {
        MinMaxModel { count: self.len as nat, min: self.min, max: self.max }
    }

    closed spec fn wf(&self) -> bool {
        mm_wf(self.model())
    }

    open spec fn mergeable(m1: MinMaxModel, m2: MinMaxModel) -> bool {
        m1.count + m2.count <= u64::MAX
    }

    open spec fn merged(m1: MinMaxModel, m2: MinMaxModel) -> MinMaxModel {
        mm_merged(m1, m2)
    }

    /// Combine the observations of both trackers: counts are summed and each
    /// bound becomes the better of the two.
    fn merge(&mut self, other: MinMax) {
        self.len = self.len + other.len;
        self.min = match (self.min, other.min) {
            (None, m) => m,
            (m, None) => m,
            (Some(x), Some(y)) => if y < x {
                Some(y)
            } else {
                Some(x)
            },
        };
        self.max = match (self.max, other.max) {
            (None, m) => m,
            (m, None) => m,
            (Some(x), Some(y)) => if y > x {
                Some(y)
            } else {
                Some(x)
            },
        };
    }
}

impl Default for MinMax {
    /// The identity for merging: the empty tracker.
    fn default() -> (r: MinMax)
        ensures
            r.wf(),
            r.model() == mm_empty(),
    {
        MinMax::new()
    }
}

/// Merging tracker states is associative.
pub proof fn lemma_minmax_merge_assoc(a: MinMaxModel, b: MinMaxModel, c: MinMaxModel)
    ensures
        mm_merged(mm_merged(a, b), c) == mm_merged(a, mm_merged(b, c)),
{
}

/// The empty tracker state is an identity for merging on either side.
pub proof fn lemma_minmax_merge_identity(m: MinMaxModel)
    ensures
        mm_merged(m, mm_empty()) == m,
        mm_merged(mm_empty(), m) == m,
{
}

/// Observing one more sample commutes with merging: the sample may be added
/// to the right operand before or after the merge.
proof fn lemma_minmax_merge_add(a: MinMaxModel, b: MinMaxModel, sample: i64)
    ensures
        mm_add(mm_merged(a, b), sample) == mm_merged(a, mm_add(b, sample)),
{
}

/// Merging trackers built from two sample sequences gives the state of one
/// tracker built from their concatenation: merging partial results is
/// equivalent to sequential processing.
pub proof fn lemma_minmax_merge_concat(s1: Seq<i64>, s2: Seq<i64>)
    ensures
        mm_merged(mm_from(s1), mm_from(s2)) == mm_from(s1 + s2),
    decreases s2.len(),
{
    if s2.len() == 0 {
        assert(s1 + s2 =~= s1);
        lemma_minmax_merge_identity(mm_from(s1));
    } else {
        assert((s1 + s2).drop_last() =~= s1 + s2.drop_last());
        assert((s1 + s2).last() == s2.last());
        lemma_minmax_merge_concat(s1, s2.drop_last());
        lemma_minmax_merge_add(mm_from(s1), mm_from(s2.drop_last()), s2.last());
    }
}

/// For any partition of a sample stream, folding in the tracker states
/// built from its parts, in order, is the same as absorbing the whole
/// stream at once.
pub proof fn lemma_minmax_merge_partition(init: MinMaxModel, parts: Seq<Seq<i64>>)
    ensures
        crate::fold_models::<MinMax>(init, parts.map_values(|p: Seq<i64>| mm_from(p)))
            == mm_merged(init, mm_from(parts.flatten())),
    decreases parts.len(),
{
    let f = |p: Seq<i64>| mm_from(p);
    if parts.len() == 0 {
        assert(parts.map_values(f).len() == 0);
        assert(parts.flatten() =~= Seq::<i64>::empty());
        lemma_minmax_merge_identity(init);
    } else {
        let rest = parts.drop_first();
        assert(parts.map_values(f)[0] == f(parts[0]));
        assert(parts.map_values(f).drop_first() =~= rest.map_values(f));
        lemma_minmax_merge_partition(mm_merged(init, mm_from(parts[0])), rest);
        assert(parts.flatten() == parts.first() + rest.flatten());
        lemma_minmax_merge_concat(parts.first(), rest.flatten());
        lemma_minmax_merge_assoc(init, mm_from(parts.first()), mm_from(rest.flatten()));
    }
}

} // verus!
