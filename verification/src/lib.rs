//! Mergeable streaming statistics.
//!
//! Each accumulator in this crate digests a stream of samples one at a time
//! and can be combined with another accumulator of the same kind, so that
//! partial results computed over disjoint shards of a stream can be reduced
//! to a single result that matches processing the whole stream at once.

pub mod frequency;
pub mod minmax;
pub mod sorted;
pub mod unsorted;

pub use frequency::Frequencies;
pub use minmax::MinMax;
pub use sorted::mode;
pub use sorted::Sorted;
pub use unsorted::Partial;
pub use unsorted::Unsorted;

use vstd::prelude::*;
use vstd::multiset::Multiset;

verus! {

/// Whether `v` is the unique most frequent value of the multiset `m`: it
/// occurs at least once, and every other value occurs strictly fewer times.
pub open spec fn is_unique_mode<T>(m: Multiset<T>, v: T) -> bool {
    m.count(v) > 0 && forall|u: T| u != v ==> m.count(u) < m.count(v)
}

/// Interface for accumulators that have an identity value and can absorb
/// one another.
///
/// Every implementor chooses a mathematical `Model` of its observable state,
/// and `merge` is required to act on that model exactly as the pure function
/// `merged` describes. Statements such as associativity of merging are then
/// proved once and for all about `merged`.
pub trait Commute: Sized {
    /// Mathematical abstraction of the accumulator's observable state.
    type Model;

    /// The abstract state this accumulator currently represents.
    spec fn model(&self) -> Self::Model;

    /// Representation invariant; established by constructors and preserved
    /// by every operation of the implementing type.
    spec fn wf(&self) -> bool;

    /// When two abstract states may be merged (for example, bounds on
    /// counters that must not overflow, or matching shapes).
    spec fn mergeable(m1: Self::Model, m2: Self::Model) -> bool;

    /// The abstract state obtained by merging two abstract states.
    spec fn merged(m1: Self::Model, m2: Self::Model) -> Self::Model;

    /// Merges the value `other` into `self`, consuming `other`.
    fn merge(&mut self, other: Self)
        requires
            old(self).wf(),
            other.wf(),
            Self::mergeable(old(self).model(), other.model()),
        ensures
            final(self).wf(),
            final(self).model() == Self::merged(old(self).model(), other.model()),
    ;
}

/// Merges every accumulator in `others` into `acc`, in order.
pub fn consume<T: Commute>(acc: &mut T, others: Vec<T>)
    requires
        old(acc).wf(),
        forall|i: int| 0 <= i < others@.len() ==> (#[trigger] others@[i]).wf(),
        fold_mergeable::<T>(old(acc).model(), models_of(others@)),
    ensures
        final(acc).wf(),
        final(acc).model() == fold_models::<T>(old(acc).model(), models_of(others@)),
{
    let ghost goal = fold_models::<T>(old(acc).model(), models_of(others@));
    let mut rest = others;
    while rest.len() > 0
        invariant
            acc.wf(),
            forall|i: int| 0 <= i < rest@.len() ==> (#[trigger] rest@[i]).wf(),
            fold_mergeable::<T>(acc.model(), models_of(rest@)),
            goal == fold_models::<T>(acc.model(), models_of(rest@)),
        decreases rest@.len(),
    {
        let ghost before = models_of(rest@);
        let next = rest.remove(0);
        proof {
            assert(models_of(rest@) =~= before.drop_first());
        }
        acc.merge(next);
    }
}

/// The abstract state after folding the states in `rest`, left to right,
/// into `init`.
pub open spec fn fold_models<T: Commute>(init: T::Model, rest: Seq<T::Model>) -> T::Model
    decreases rest.len(),
{
    if rest.len() == 0 {
        init
    } else {
        fold_models::<T>(T::merged(init, rest[0]), rest.drop_first())
    }
}

/// Whether every merge performed while folding the states in `rest` into
/// `init` is permitted by `Commute::mergeable`.
pub open spec fn fold_mergeable<T: Commute>(init: T::Model, rest: Seq<T::Model>) -> bool
    decreases rest.len(),
{
    rest.len() == 0 || (T::mergeable(init, rest[0]) && fold_mergeable::<T>(
        T::merged(init, rest[0]),
        rest.drop_first(),
    ))
}

/// The models of a sequence of accumulators.
pub open spec fn models_of<T: Commute>(s: Seq<T>) -> Seq<T::Model> {
    s.map_values(|t: T| t.model())
}

/// Merges all accumulators in `items` into one, left to right.
///
/// If `items` is empty, `None` is returned.
pub fn merge_all<T: Commute>(items: Vec<T>) -> (r: Option<T>)
    requires
        forall|i: int| 0 <= i < items@.len() ==> (#[trigger] items@[i]).wf(),
        items@.len() > 0 ==> fold_mergeable::<T>(
            items@[0].model(),
            models_of(items@).drop_first(),
        ),
    ensures
        r is Some <==> items@.len() > 0,
        r matches Some(t) ==> t.wf() && t.model() == fold_models::<T>(
            items@[0].model(),
            models_of(items@).drop_first(),
        ),
{
    let mut rest = items;
    if rest.len() == 0 {
        return None;
    }
    let ghost all = models_of(rest@);
    let mut init = rest.remove(0);
    proof {
        assert(models_of(rest@) =~= all.drop_first());
    }
    consume(&mut init, rest);
    Some(init)
}

/// Merge-order independence against sequential processing, for every
/// accumulator whose model is the multiset of its samples combined by bag
/// union: folding in the per-part states of a partitioned sample stream,
/// in order, is the same as absorbing the whole stream at once.
pub proof fn lemma_fold_bag_union<A, T: Commute<Model = Multiset<A>>>(
    init: Multiset<A>,
    parts: Seq<Seq<A>>,
)
    requires
        forall|x: Multiset<A>, y: Multiset<A>| #[trigger] T::merged(x, y) == x.add(y),
    ensures
        fold_models::<T>(init, parts.map_values(|p: Seq<A>| p.to_multiset())) == init.add(
            parts.flatten().to_multiset(),
        ),
    decreases parts.len(),
{
    broadcast use vstd::multiset::group_multiset_axioms, vstd::seq_lib::group_to_multiset_ensures;

    let f = |p: Seq<A>| p.to_multiset();
    if parts.len() == 0 {
        assert(parts.map_values(f).len() == 0);
        assert forall|a: A| parts.flatten().to_multiset().count(a) == 0 by {
            assert(!parts.flatten().contains(a));
        }
        assert(parts.flatten().to_multiset() =~= Multiset::<A>::empty());
        assert(init.add(Multiset::<A>::empty()) =~= init);
    } else {
        let rest = parts.drop_first();
        assert(parts.map_values(f)[0] == f(parts[0]));
        assert(parts.map_values(f).drop_first() =~= rest.map_values(f));
        lemma_fold_bag_union::<A, T>(init.add(parts[0].to_multiset()), rest);
        assert(parts.flatten() == parts.first() + rest.flatten());
        vstd::seq_lib::lemma_multiset_commutative(parts.first(), rest.flatten());
        assert(init.add(parts[0].to_multiset()).add(rest.flatten().to_multiset()) =~= init.add(
            parts.flatten().to_multiset(),
        ));
    }
}

/// Merging optional accumulators is associative wherever merging the
/// underlying accumulators is.
pub proof fn lemma_option_merge_assoc<T: Commute>(
    a: Option<T::Model>,
    b: Option<T::Model>,
    c: Option<T::Model>,
)
    requires
        forall|x: T::Model, y: T::Model, z: T::Model|
            #[trigger] T::merged(T::merged(x, y), z) == T::merged(x, T::merged(y, z)),
    ensures
        <Option<T> as Commute>::merged(<Option<T> as Commute>::merged(a, b), c) == <Option<
            T,
        > as Commute>::merged(a, <Option<T> as Commute>::merged(b, c)),
{
}

/// An absent accumulator is an identity for merging options on either
/// side.
pub proof fn lemma_option_merge_identity<T: Commute>(m: Option<T::Model>)
    ensures
        <Option<T> as Commute>::merged(m, Option::<T::Model>::None) == m,
        <Option<T> as Commute>::merged(Option::<T::Model>::None, m) == m,
{
}

/// Merging optional accumulators: an absent operand acts as an identity,
/// and two present operands merge their contents.
impl<T: Commute> Commute for Option<T> {
    type Model = Option<T::Model>;

    open spec fn model(&self) -> Option<T::Model> {
        match *self {
            None => None,
            Some(t) => Some(t.model()),
        }
    }

    open spec fn wf(&self) -> bool {
        match *self {
            None => true,
            Some(t) => t.wf(),
        }
    }

    open spec fn mergeable(m1: Option<T::Model>, m2: Option<T::Model>) -> bool {
        match (m1, m2) {
            (Some(a), Some(b)) => T::mergeable(a, b),
            _ => true,
        }
    }

    open spec fn merged(m1: Option<T::Model>, m2: Option<T::Model>) -> Option<T::Model> {
        match (m1, m2) {
            (None, m) => m,
            (m, None) => m,
            (Some(a), Some(b)) => Some(T::merged(a, b)),
        }
    }

    fn merge(&mut self, other: Option<T>) {
        match self {
            None => {
                *self = other;
            },
            Some(v1) => {
                match other {
                    None => {},
                    Some(v2) => {
                        v1.merge(v2);
                    },
                }
            },
        }
    }
}

/// Merging fallible accumulators: an error on either side wins, with the
/// left error kept when both sides hold one; two successes merge their
/// contents.
impl<T: Commute, E> Commute for Result<T, E> {
    type Model = Result<T::Model, E>;

    open spec fn model(&self) -> Result<T::Model, E> {
        match *self {
            Ok(t) => Ok(t.model()),
            Err(e) => Err(e),
        }
    }

    open spec fn wf(&self) -> bool {
        match *self {
            Ok(t) => t.wf(),
            Err(_) => true,
        }
    }

    open spec fn mergeable(m1: Result<T::Model, E>, m2: Result<T::Model, E>) -> bool {
        match (m1, m2) {
            (Ok(a), Ok(b)) => T::mergeable(a, b),
            _ => true,
        }
    }

    open spec fn merged(m1: Result<T::Model, E>, m2: Result<T::Model, E>) -> Result<
        T::Model,
        E,
    > {
        match (m1, m2) {
            (Err(e), _) => Err(e),
            (Ok(_), Err(e)) => Err(e),
            (Ok(a), Ok(b)) => Ok(T::merged(a, b)),
        }
    }

    fn merge(&mut self, other: Result<T, E>) {
        if self.is_ok() && other.is_err() {
            *self = other;
            return;
        }
        match (&mut *self, other) {
            (Ok(v1), Ok(v2)) => {
                v1.merge(v2);
            },
            _ => {},
        }
    }
}

/// Merging vectors of accumulators position by position. The operands
/// must have the same length: a merge of mismatched shapes is a contract
/// violation and is ruled out by `mergeable`.
impl<T: Commute> Commute for Vec<T> {
    type Model = Seq<T::Model>;

    open spec fn model(&self) -> Seq<T::Model> {
        models_of(self@)
    }

    open spec fn wf(&self) -> bool {
        forall|i: int| 0 <= i < self@.len() ==> (#[trigger] self@[i]).wf()
    }

    open spec fn mergeable(m1: Seq<T::Model>, m2: Seq<T::Model>) -> bool {
        m1.len() == m2.len() && forall|i: int|
            0 <= i < m1.len() ==> #[trigger] T::mergeable(m1[i], m2[i])
    }

    open spec fn merged(m1: Seq<T::Model>, m2: Seq<T::Model>) -> Seq<T::Model> {
        Seq::new(m1.len(), |i: int| T::merged(m1[i], m2[i]))
    }

    fn merge(&mut self, other: Vec<T>) {
        let ghost sm = models_of(self@);
        let ghost om = models_of(other@);
        let n = self.len();
        let mut rest = other;
        let mut i: usize = 0;
        while i < n
            invariant
                n == self@.len(),
                i <= n,
                rest@.len() == n - i,
                forall|k: int| 0 <= k < n - i ==> (#[trigger] rest@[k]).model() == om[k + i]
                    && rest@[k].wf(),
                forall|k: int| 0 <= k < n ==> T::mergeable(#[trigger] sm[k], om[k]),
                forall|k: int| i <= k < n ==> (#[trigger] self@[k]).model() == sm[k]
                    && self@[k].wf(),
                forall|k: int| 0 <= k < i ==> (#[trigger] self@[k]).model() == T::merged(
                    sm[k],
                    om[k],
                ) && self@[k].wf(),
            decreases n - i,
        {
            let ghost rest_before = rest@;
            let next = rest.remove(0);
            proof {
                assert(rest@ =~= rest_before.drop_first());
            }
            let slot = vstd::std_specs::vec::vec_index_mut(&mut *self, i);
            slot.merge(next);
            i = i + 1;
        }
        proof {
            assert(models_of(self@) =~= Self::merged(sm, om));
        }
    }
}

} // verus!
