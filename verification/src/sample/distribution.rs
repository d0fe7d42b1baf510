//! A weighted index over canonical outcomes, and the draws made from it.

use super::error::SampleError;
use crate::outcome::Outcome;
use rand::distributions::Distribution;
use rand::distributions::WeightedIndex;
use vstd::prelude::*;

verus! {

/// The weighted index instantiated at machine-word weights.
type WIndex = WeightedIndex<usize>;

#[verifier::external_type_specification]
#[verifier::external_body]
pub struct ExStdRng(rand::rngs::StdRng);

/// Holds rand's weighted index over machine-word weights. The index
/// type's own generic bounds name rand traits the verifier does not
/// accept in a declaration, so the holder is opaque instead.
#[verifier::external_body]
pub struct WeightedIndexHolder {
    index: WIndex,
}

/// The weights the held `WeightedIndex` was built over, in order.
pub uninterp spec fn weighted_index_weights(w: WeightedIndexHolder) -> Seq<nat>;

/// The elements of a sequence of machine words, as naturals.
pub open spec fn nat_seq(s: Seq<usize>) -> Seq<nat> {
    Seq::new(s.len(), |i: int| s[i] as nat)
}

/// The sum of a sequence of machine words.
pub open spec fn usize_sum(s: Seq<usize>) -> nat
    decreases s.len(),
{
    if s.len() == 0 {
        0
    } else {
        usize_sum(s.drop_last()) + (s.last() as nat)
    }
}

/// The values of a list of outcomes, in order.
pub open spec fn values_of(outs: Seq<Outcome>) -> Seq<i32> {
    Seq::new(outs.len(), |i: int| outs[i].value)
}

/// The weights of a list of outcomes, in order.
pub open spec fn weights_of_outcomes(outs: Seq<Outcome>) -> Seq<usize> {
    Seq::new(outs.len(), |i: int| outs[i].weight)
}

/// The total weight of a list of outcomes.
pub open spec fn weight_sum(outs: Seq<Outcome>) -> nat {
    usize_sum(weights_of_outcomes(outs))
}

/// A prefix never sums to more than the whole sequence.
pub proof fn lemma_usize_sum_prefix(s: Seq<usize>, k: int)
    requires
        0 <= k <= s.len(),
    ensures
        usize_sum(s.take(k)) <= usize_sum(s),
    decreases s.len(),
{
    if k == s.len() {
        assert(s.take(k) =~= s);
    } else {
        let front = s.drop_last();
        assert(front.take(k) =~= s.take(k));
        lemma_usize_sum_prefix(front, k);
    }
}

/// Relies on rand's `WeightedIndex::new`: with machine-word weights
/// whose sum does not overflow, it fails with `NoItem` exactly on an
/// empty list and with `AllWeightsZero` exactly on an all-zero total,
/// and otherwise returns an index distribution over those weights.
#[verifier::external_body]
fn weighted_index_new(weights: &Vec<usize>) -> (r: Result<WeightedIndexHolder, SampleError>)
    requires
        usize_sum(weights@) <= usize::MAX,
    ensures
        (r matches Ok(w) ==> weighted_index_weights(w) == nat_seq(weights@) && weights@.len() > 0
            && usize_sum(weights@) > 0),
        (r matches Err(e) ==> (weights@.len() == 0 || usize_sum(weights@) == 0) && e == (
        if weights@.len() == 0 {
            SampleError::NoOutcomes
        } else {
            SampleError::NoWeight
        })),
{
    match WeightedIndex::new(weights) {
        Ok(w) => Ok(WeightedIndexHolder { index: w }),
        Err(rand::distributions::WeightedError::NoItem) => Err(SampleError::NoOutcomes),
        Err(rand::distributions::WeightedError::TooMany) => Err(SampleError::TooManyOutcomes),
        Err(rand::distributions::WeightedError::AllWeightsZero) => Err(SampleError::NoWeight),
        Err(rand::distributions::WeightedError::InvalidWeight) => Err(SampleError::InvalidWeight),
    }
}

/// Relies on rand's `WeightedIndex` sampling: the drawn index is always
/// in range and always lands on a nonzero weight.
#[verifier::external_body]
fn weighted_index_sample(index: &WeightedIndexHolder, rng: &mut rand::rngs::StdRng) -> (r: usize)
    ensures
        r < weighted_index_weights(*index).len(),
        weighted_index_weights(*index)[r as int] > 0,
{
    index.index.sample(rng)
}

/// Relies on `TryInto` from `Vec` to an array: the conversion succeeds
/// exactly when the lengths match.
#[verifier::external_body]
fn vec_to_array<const N: usize>(v: Vec<i32>) -> (r: [i32; N])
    requires
        v@.len() == N,
    ensures
        r@ == v@,
{
    match v.try_into() {
        Ok(a) => a,
        Err(_) => [0; N],
    }
}

/// A sampler: a weighted random index over the values of a list of
/// outcomes. Immutable once constructed; every sampling operation
/// mutates only the supplied random generator.
pub struct OutputDistribution {
    values: Vec<i32>,
    index: WeightedIndexHolder,
}

impl OutputDistribution {
    /// The values draws are made from, in outcome order.
    pub closed spec fn spec_values(self) -> Seq<i32> {
        self.values@
    }

    /// The weights draws are made with, in outcome order.
    pub closed spec fn spec_weights(self) -> Seq<nat> {
        weighted_index_weights(self.index)
    }

    /// The invariant a constructed sampler satisfies.
    pub open spec fn wf(self) -> bool {
        &&& self.spec_values().len() == self.spec_weights().len()
        &&& self.spec_values().len() > 0
    }

    /// `x` is a value this sampler can draw: it appears among the
    /// values with a nonzero weight.
    pub open spec fn can_sample(self, x: i32) -> bool {
        exists|i: int|
            0 <= i < self.spec_values().len() && self.spec_values()[i] == x
                && self.spec_weights()[i] > 0
    }

    /// Builds a sampler over `(value, weight)` outcomes.
    ///
    /// Fails with `TooMuchWeight` when the weights sum past the machine
    /// word range, with `NoOutcomes` on an empty list, and with
    /// `NoWeight` when every weight is zero; otherwise succeeds.
    pub fn new(outcomes: Vec<Outcome>) -> (r: Result<OutputDistribution, SampleError>)
        ensures
            weight_sum(outcomes@) > usize::MAX ==> r == Err::<OutputDistribution, SampleError>(
                SampleError::TooMuchWeight,
            ),
            weight_sum(outcomes@) <= usize::MAX && outcomes@.len() == 0 ==> r == Err::<
                OutputDistribution,
                SampleError,
            >(SampleError::NoOutcomes),
            weight_sum(outcomes@) <= usize::MAX && outcomes@.len() > 0 && weight_sum(outcomes@)
                == 0 ==> r == Err::<OutputDistribution, SampleError>(SampleError::NoWeight),
            r is Ok <==> outcomes@.len() > 0 && 0 < weight_sum(outcomes@) <= usize::MAX,
            (r matches Ok(d) ==> d.wf() && d.spec_values() == values_of(outcomes@)
                && d.spec_weights() == nat_seq(weights_of_outcomes(outcomes@))),
    {
        let ghost ws = weights_of_outcomes(outcomes@);
        let mut values: Vec<i32> = Vec::new();
        let mut weights: Vec<usize> = Vec::new();
        let mut total: usize = 0;
        let n = outcomes.len();
        let mut k: usize = 0;
        while k < n
            invariant
                k <= n,
                n == outcomes@.len(),
                ws == weights_of_outcomes(outcomes@),
                values@ == values_of(outcomes@).take(k as int),
                weights@ == ws.take(k as int),
                total == usize_sum(ws.take(k as int)),
            decreases n - k,
        {
            let o = outcomes[k];
            proof {
                assert(values_of(outcomes@).take(k + 1 as int) =~= values_of(outcomes@).take(
                    k as int,
                ).push(o.value));
                assert(ws.take(k + 1 as int) =~= ws.take(k as int).push(o.weight));
                assert(ws.take(k + 1 as int).drop_last() =~= ws.take(k as int));
            }
            values.push(o.value);
            weights.push(o.weight);
            total = match total.checked_add(o.weight) {
                Some(t) => t,
                None => {
                    proof {
                        lemma_usize_sum_prefix(ws, k + 1 as int);
                    }
                    return Err(SampleError::TooMuchWeight);
                },
            };
            k = k + 1;
        }
        proof {
            assert(values_of(outcomes@).take(n as int) =~= values_of(outcomes@));
            assert(ws.take(n as int) =~= ws);
        }
        let index = match weighted_index_new(&weights) {
            Ok(w) => w,
            Err(e) => {
                return Err(e);
            },
        };
        Ok(OutputDistribution { values, index })
    }

    /// Draws one value according to its weight proportion.
    pub fn sample(&self, rng: &mut rand::rngs::StdRng) -> (r: i32)
        requires
            self.wf(),
        ensures
            self.can_sample(r),
    {
        let i = weighted_index_sample(&self.index, rng);
        self.values[i]
    }

    /// Draws `n` values independently, in draw order.
    pub fn sample_many(&self, n: usize, rng: &mut rand::rngs::StdRng) -> (r: Vec<i32>)
        requires
            self.wf(),
        ensures
            r@.len() == n,
            forall|i: int| 0 <= i < n ==> self.can_sample(#[trigger] r@[i]),
    {
        let mut out: Vec<i32> = Vec::new();
        let mut k: usize = 0;
        while k < n
            invariant
                k <= n,
                self.wf(),
                out@.len() == k,
                forall|i: int| 0 <= i < k ==> self.can_sample(#[trigger] out@[i]),
            decreases n - k,
        {
            let v = self.sample(rng);
            out.push(v);
            k = k + 1;
        }
        out
    }

    /// Draws a fixed number of values into an array.
    pub fn sample_n<const N: usize>(&self, rng: &mut rand::rngs::StdRng) -> (r: [i32; N])
        requires
            self.wf(),
        ensures
            forall|i: int| 0 <= i < N ==> self.can_sample(#[trigger] r@[i]),
    {
        let drawn = self.sample_many(N, rng);
        vec_to_array(drawn)
    }

    /// An unbounded lazy stream of draws bound to this sampler and an
    /// owned random generator; pull as many values as needed.
    pub fn sample_iter(&self, rng: rand::rngs::StdRng) -> (r: SampleIter)
        requires
            self.wf(),
        ensures
            r.spec_source() == *self,
    {
        SampleIter { distribution: self, rng }
    }
}

/// A lazy, unbounded stream of draws from one sampler.
pub struct SampleIter<'a> {
    distribution: &'a OutputDistribution,
    rng: rand::rngs::StdRng,
}

impl<'a> SampleIter<'a> {
    /// The sampler the draws come from.
    pub closed spec fn spec_source(self) -> OutputDistribution {
        *self.distribution
    }

    /// Draws the next value.
    pub fn next(&mut self) -> (r: i32)
        requires
            old(self).spec_source().wf(),
        ensures
            final(self).spec_source() == old(self).spec_source(),
            old(self).spec_source().can_sample(r),
    {
        self.distribution.sample(&mut self.rng)
    }
}

/// The sampling determinism law: a sampler over a single outcome can
/// only ever draw that outcome's value, whatever the generator yields.
pub proof fn lemma_single_outcome_sample(d: OutputDistribution, v: i32, x: i32)
    requires
        d.spec_values().len() == 1,
        d.spec_values()[0] == v,
        d.can_sample(x),
    ensures
        x == v,
{
}

} // verus!
