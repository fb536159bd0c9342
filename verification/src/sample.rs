use vstd::prelude::*;
use itertools::Itertools;
use crate::sort::{lex_lt, stable_sort_by_key, is_stable_sort_by_key};

verus! {

/// A label id is just the number that represents the class.
pub type LabelId = usize;

/// A sample corresponds to a data associated to an order and class.
#[derive(Clone, Copy, Debug, PartialEq, Eq, Structural)]
pub struct Sample {
    pub label: LabelId,
    pub order: usize,
}

/// One line of a sample file: the object id, its ground-truth class,
/// the predicted class and its position in the ordered matrix.
#[derive(Clone, Copy, Debug, PartialEq, Eq, Structural)]
pub struct SampleRecord {
    pub id: usize,
    pub groundtruth: usize,
    pub prediction: usize,
    pub order: usize,
}

impl Sample {
    pub fn new(label: LabelId, order: usize) -> (r: Sample)
        ensures
            r.label == label,
            r.order == order,
    {
        Sample { label, order }
    }

    /// The sample that a record describes: its ground truth is the label.
    pub open spec fn of_record(rec: SampleRecord) -> Sample {
        Sample { label: rec.groundtruth, order: rec.order }
    }
}

impl SampleRecord {
    pub fn new(id: usize, groundtruth: usize, prediction: usize, order: usize) -> (r: SampleRecord)
        ensures
            r == (SampleRecord { id, groundtruth, prediction, order }),
    {
        SampleRecord { id, groundtruth, prediction, order }
    }
}

impl<'a> From<&'a SampleRecord> for Sample {
    fn from(f: &'a SampleRecord) -> (r: Sample) {
        Sample { label: f.groundtruth, order: f.order }
    }
}

impl<'a> vstd::std_specs::convert::FromSpecImpl<&'a SampleRecord> for Sample {
    open spec fn obeys_from_spec() -> bool {
        true
    }

    open spec fn from_spec(f: &'a SampleRecord) -> Sample {
        Sample::of_record(*f)
    }
}


/// The label given to the i-th generated sample: classes of `nb_samples / nb_classes`
/// consecutive samples each.
pub open spec fn generated_label(i: int, nb_samples: int, nb_classes: int) -> int {
    i / (nb_samples / nb_classes)
}

/// The inputs on which generating data succeeds: no sample at all, or enough
/// samples per class for the last label to stay below `nb_classes`.
pub open spec fn can_generate(nb_samples: int, nb_classes: int) -> bool {
    nb_samples == 0 || {
        &&& nb_classes >= 1
        &&& nb_samples / nb_classes >= 1
        &&& nb_samples - 1 < nb_classes * (nb_samples / nb_classes)
    }
}

proof fn lemma_div_step(i: int, s: int)
    requires
        i >= 1,
        s >= 1,
    ensures
        i % s == 0 ==> i / s == (i - 1) / s + 1,
        i % s != 0 ==> i / s == (i - 1) / s,
{
    vstd::arithmetic::div_mod::lemma_fundamental_div_mod(i, s);
    vstd::arithmetic::div_mod::lemma_fundamental_div_mod(i - 1, s);
    let q = i / s;
    let r = i % s;
    let q1 = (i - 1) / s;
    let r1 = (i - 1) % s;
    assert(0 <= r < s && 0 <= r1 < s);
    if r == 0 {
        assert(s * q == s * q1 + r1 + 1);
        assert(q == q1 + 1) by (nonlinear_arith)
            requires s * q == s * q1 + r1 + 1, 0 <= r1 < s, s >= 1;
    } else {
        assert(s * q + r == s * q1 + r1 + 1);
        assert(q == q1) by (nonlinear_arith)
            requires s * q + r == s * q1 + r1 + 1, 0 <= r1 < s, 0 < r < s, s >= 1;
    }
}

/// Fake data generator: `nb_samples` samples ordered 0, 1, ..., split into
/// consecutive classes of `nb_samples / nb_classes` samples.
pub fn generate_random_data(nb_samples: usize, nb_classes: usize) -> (r: Vec<Sample>)
    requires
        can_generate(nb_samples as int, nb_classes as int),
    ensures
        r.len() == nb_samples,
        forall|i: int| 0 <= i < nb_samples ==> (#[trigger] r[i]).order == i
            && r[i].label == generated_label(i, nb_samples as int, nb_classes as int),
        forall|i: int| 0 <= i < nb_samples ==> (#[trigger] r[i]).label < nb_classes,
        forall|i: int, j: int| 0 <= i <= j < nb_samples ==> (#[trigger] r[i]).label <= (#[trigger] r[j]).label,
{
    let mut data: Vec<Sample> = Vec::new();
    let mut current_label: usize = 0;
    if nb_samples == 0 {
        return data;
    }
    let step = nb_samples / nb_classes;
    proof {
        let q = (nb_samples - 1) / (step as int);
        vstd::arithmetic::div_mod::lemma_fundamental_div_mod(nb_samples - 1, step as int);
        assert(q < nb_classes) by (nonlinear_arith)
            requires nb_samples - 1 < nb_classes * step, step >= 1,
                nb_samples - 1 == step * q + (nb_samples - 1) % (step as int), 0 <= (nb_samples - 1) % (step as int);
    }
    for i in 0..nb_samples
        invariant
            nb_samples >= 1,
            step == nb_samples / nb_classes,
            step >= 1,
            (nb_samples - 1) / (step as int) < nb_classes,
            data.len() == i,
            i >= 1 ==> current_label == (i - 1) / (step as int),
            i == 0 ==> current_label == 0,
            forall|k: int| 0 <= k < i ==> (#[trigger] data[k]).order == k
                && data[k].label == k / (step as int),
    {
        let current_order = i;
        if i % step == 0 && i != 0 {
            proof { lemma_div_step(i as int, step as int); }
            current_label = current_label + 1;
        } else if i != 0 {
            proof { lemma_div_step(i as int, step as int); }
        }
        proof {
            vstd::arithmetic::div_mod::lemma_div_is_ordered(i as int, nb_samples - 1, step as int);
        }
        data.push(Sample { order: current_order, label: current_label });
    }
    proof {
        assert forall|i: int, j: int| 0 <= i <= j < nb_samples implies (#[trigger] data[i]).label <= (#[trigger] data[j]).label by {
            vstd::arithmetic::div_mod::lemma_div_is_ordered(i, j, step as int);
        }
        assert forall|i: int| 0 <= i < nb_samples implies (#[trigger] data[i]).label < nb_classes by {
            vstd::arithmetic::div_mod::lemma_div_is_ordered(i, nb_samples - 1, step as int);
        }
    }
    data
}


/// Number of neighbours (previous and next in the sequence) whose label differs
/// from the label of the item at `i`.
pub open spec fn divergence(data: Seq<(usize, Sample)>, i: int) -> usize {
    let before: usize = if i > 0 && data[i].1.label != data[i - 1].1.label { 1 } else { 0 };
    let after: usize = if i < data.len() - 1 && data[i].1.label != data[i + 1].1.label { 1 } else { 0 };
    (before + after) as usize
}

/// There is a divergence when two consecutive labels differ: each item is
/// relabelled with its number of divergences (0, 1 or 2).
pub fn label_to_relative_divergence(data: &[(usize, Sample)]) -> (r: Vec<(usize, Sample)>)
    ensures
        r.len() == data.len(),
        forall|i: int| 0 <= i < data.len() ==> (#[trigger] r[i]).0 == data[i].0
            && r[i].1.order == data[i].1.order
            && r[i].1.label == divergence(data@, i),
        forall|i: int| 0 <= i < data.len() ==> (#[trigger] r[i]).1.label <= 2,
{
    let mut diverged: Vec<(usize, Sample)> = Vec::new();
    let n = data.len();
    for i in 0..n
        invariant
            n == data.len(),
            diverged.len() == i,
            forall|k: int| 0 <= k < i ==> (#[trigger] diverged[k]).0 == data[k].0
                && diverged[k].1.order == data[k].1.order
                && diverged[k].1.label == divergence(data@, k),
    {
        let mut count: usize = 0;
        if i > 0 && data[i].1.label != data[i - 1].1.label {
            count = count + 1;
        }
        if i < n - 1 && data[i].1.label != data[i + 1].1.label {
            count = count + 1;
        }
        let mut clone = data[i];
        clone.1.label = count;
        diverged.push(clone);
    }
    diverged
}

/// The records, each paired with its position in `records`, sorted by order;
/// records with the same order keep the order they had in `records`.
pub open spec fn is_ordered_sampling(records: Seq<SampleRecord>, r: Seq<(usize, Sample)>) -> bool {
    &&& r.len() == records.len()
    &&& forall|k: int| 0 <= k < r.len() ==> (#[trigger] r[k]).0 < records.len()
        && r[k].1 == Sample::of_record(records[r[k].0 as int])
    &&& forall|k1: int, k2: int| 0 <= k1 < k2 < r.len() ==> lex_lt(
        (#[trigger] r[k1]).1.order as int, r[k1].0 as int,
        (#[trigger] r[k2]).1.order as int, r[k2].0 as int)
}

/// Samples of the records, each with the index of its record, ordered by
/// their order (a stable sort).
pub fn samples_in_order(records: &[SampleRecord]) -> (r: Vec<(usize, Sample)>)
    ensures
        is_ordered_sampling(records@, r@),
{
    let n = records.len();
    let mut keyed: Vec<(usize, (usize, Sample))> = Vec::new();
    for i in 0..n
        invariant
            n == records.len(),
            keyed.len() == i,
            forall|k: int| 0 <= k < i ==> #[trigger] keyed[k] == (records[k].order, (k as usize, Sample::of_record(records[k]))),
    {
        let sample = Sample::from(&records[i]);
        keyed.push((records[i].order, (i, sample)));
    }
    let sorted = stable_sort_by_key(&keyed);
    let ghost perm = choose|perm: Seq<int>| is_stable_sort_by_key(keyed@, sorted@, perm);
    let mut out: Vec<(usize, Sample)> = Vec::new();
    for k in 0..n
        invariant
            n == records.len(),
            is_stable_sort_by_key(keyed@, sorted@, perm),
            keyed.len() == n,
            forall|j: int| 0 <= j < n ==> #[trigger] keyed[j] == (records[j].order, (j as usize, Sample::of_record(records[j]))),
            out.len() == k,
            forall|j: int| 0 <= j < k ==> #[trigger] out[j] == sorted[j].1,
    {
        out.push(sorted[k].1);
    }
    proof {
        assert forall|k: int| 0 <= k < n implies (#[trigger] out[k]).0 == perm[k] && out[k].1.order == sorted[k].0 by {
            assert(sorted[k] == keyed[perm[k]]);
        }
        assert forall|k1: int, k2: int| 0 <= k1 < k2 < n implies lex_lt(
            (#[trigger] out[k1]).1.order as int, out[k1].0 as int,
            (#[trigger] out[k2]).1.order as int, out[k2].0 as int) by {
            assert(lex_lt(sorted[k1].0 as int, perm[k1], sorted[k2].0 as int, perm[k2]));
        }
    }
    out
}

/// Number of records in `records` whose prediction is the ground truth.
pub open spec fn nb_correct(records: Seq<SampleRecord>) -> nat
    decreases records.len(),
{
    if records.len() == 0 {
        0
    } else {
        nb_correct(records.drop_last()) + if records.last().groundtruth == records.last().prediction { 1nat } else { 0nat }
    }
}

/// Number of records whose prediction matches the ground truth (the accuracy is
/// this number over the number of records).
pub fn correct_predictions(samples: &[SampleRecord]) -> (r: usize)
    ensures
        r == nb_correct(samples@),
        r <= samples.len(),
{
    let mut count: usize = 0;
    let n = samples.len();
    for i in 0..n
        invariant
            n == samples.len(),
            count == nb_correct(samples@.take(i as int)),
            count <= i,
    {
        assert(samples@.take(i + 1).drop_last() == samples@.take(i as int));
        if samples[i].groundtruth == samples[i].prediction {
            count = count + 1;
        }
    }
    assert(samples@.take(n as int) == samples@);
    count
}

/// The labels of keyed samples, in order.
pub open spec fn labels_of(samples: Seq<(usize, Sample)>) -> Seq<usize> {
    samples.map_values(|s: (usize, Sample)| s.1.label)
}

/// `Itertools::unique_by` (keyed by the label) followed by `count`: the
/// adaptor yields each item whose label has not been seen before, so the count
/// is claimed to be the number of distinct labels.
#[verifier::external_body]
fn count_unique_labels(samples: &Vec<(usize, Sample)>) -> (r: usize)
    ensures
        r == labels_of(samples@).to_set().len(),
{
    samples.iter().unique_by(|s| s.1.label).count()
}

/// Number of classes among the samples: the number of distinct labels.
pub fn class_count(samples: &Vec<(usize, Sample)>) -> (r: usize)
    ensures
        r == labels_of(samples@).to_set().len(),
{
    count_unique_labels(samples)
}


/// All predictions are right (an accuracy of 100%) exactly when the count of
/// correct predictions is the number of records, and none is right (0%)
/// exactly when the count is zero.
pub proof fn lemma_accuracy_extremes(records: Seq<SampleRecord>)
    ensures
        nb_correct(records) <= records.len(),
        nb_correct(records) == records.len() <==> forall|k: int| 0 <= k < records.len() ==> (#[trigger] records[k]).groundtruth == records[k].prediction,
        nb_correct(records) == 0 <==> forall|k: int| 0 <= k < records.len() ==> (#[trigger] records[k]).groundtruth != records[k].prediction,
    decreases records.len(),
{
    if records.len() > 0 {
        let prev = records.drop_last();
        lemma_accuracy_extremes(prev);
        if nb_correct(records) == records.len() {
            assert forall|k: int| 0 <= k < records.len() implies (#[trigger] records[k]).groundtruth == records[k].prediction by {
                if k < records.len() - 1 {
                    assert(records[k] == prev[k]);
                }
            }
        }
        if nb_correct(records) == 0 {
            assert forall|k: int| 0 <= k < records.len() implies (#[trigger] records[k]).groundtruth != records[k].prediction by {
                if k < records.len() - 1 {
                    assert(records[k] == prev[k]);
                }
            }
        }
        if forall|k: int| 0 <= k < records.len() ==> (#[trigger] records[k]).groundtruth == records[k].prediction {
            assert forall|k: int| 0 <= k < prev.len() implies (#[trigger] prev[k]).groundtruth == prev[k].prediction by {
                assert(records[k] == prev[k]);
            }
            assert(records[records.len() - 1] == records.last());
        }
        if forall|k: int| 0 <= k < records.len() ==> (#[trigger] records[k]).groundtruth != records[k].prediction {
            assert forall|k: int| 0 <= k < prev.len() implies (#[trigger] prev[k]).groundtruth != prev[k].prediction by {
                assert(records[k] == prev[k]);
            }
            assert(records[records.len() - 1] == records.last());
        }
    }
}


/// The relabelling counts label changes: each item gets one for a previous
/// item with another label and one for a next item with another label.
pub proof fn lemma_divergence_counts_changes(data: Seq<(usize, Sample)>)
    ensures
        forall|i: int| 0 <= i < data.len() ==> #[trigger] divergence(data, i) as int
            == (if i > 0 && data[i].1.label != data[i - 1].1.label { 1int } else { 0int })
             + (if i + 1 < data.len() && data[i].1.label != data[i + 1].1.label { 1int } else { 0int }),
{
}

/// The relabelled sequence with each label renamed by `f`.
pub open spec fn renamed(data: Seq<(usize, Sample)>, f: spec_fn(usize) -> usize) -> Seq<(usize, Sample)> {
    data.map_values(|s: (usize, Sample)| (s.0, Sample { label: f(s.1.label), order: s.1.order }))
}

/// Divergence only sees whether consecutive labels are equal: renaming the
/// labels one-to-one does not change it.
pub proof fn lemma_divergence_ignores_label_names(data: Seq<(usize, Sample)>, f: spec_fn(usize) -> usize)
    requires
        forall|a: usize, b: usize| a != b ==> #[trigger] f(a) != #[trigger] f(b),
    ensures
        forall|i: int| 0 <= i < data.len() ==> #[trigger] divergence(renamed(data, f), i) == divergence(data, i),
{
    let r = renamed(data, f);
    assert forall|i: int| 0 <= i < data.len() implies #[trigger] divergence(r, i) == divergence(data, i) by {
        assert(r[i].1.label == f(data[i].1.label));
        if i > 0 {
            assert(r[i - 1].1.label == f(data[i - 1].1.label));
        }
        if i + 1 < data.len() {
            assert(r[i + 1].1.label == f(data[i + 1].1.label));
        }
    }
}

/// Divergence looks both ways alike: reversing the sequence reverses the
/// relabelling.
pub proof fn lemma_divergence_reversal(data: Seq<(usize, Sample)>)
    ensures
        forall|i: int| 0 <= i < data.len() ==> #[trigger] divergence(data.reverse(), data.len() - 1 - i) == divergence(data, i),
{
    let n = data.len() as int;
    let r = data.reverse();
    assert forall|i: int| 0 <= i < n implies #[trigger] divergence(r, n - 1 - i) == divergence(data, i) by {
        assert(r[n - 1 - i] == data[i]);
        if i > 0 {
            assert(r[n - 1 - i + 1] == data[i - 1]);
        }
        if i + 1 < n {
            assert(r[n - 1 - i - 1] == data[i + 1]);
        }
    }
}


/// Fake data come in classes of `nb_samples / nb_classes` consecutive
/// samples: sample i has label l exactly when l * size <= i < (l + 1) * size.
pub proof fn lemma_generated_label_bounds(nb_samples: int, nb_classes: int)
    requires
        nb_samples > 0,
        can_generate(nb_samples, nb_classes),
    ensures
        forall|i: int| 0 <= i < nb_samples ==> {
            let size = nb_samples / nb_classes;
            let l = #[trigger] generated_label(i, nb_samples, nb_classes);
            l * size <= i < (l + 1) * size
        },
{
    let size = nb_samples / nb_classes;
    assert forall|i: int| 0 <= i < nb_samples implies {
        let l = #[trigger] generated_label(i, nb_samples, nb_classes);
        l * size <= i < (l + 1) * size
    } by {
        vstd::arithmetic::div_mod::lemma_fundamental_div_mod(i, size);
        let l = i / size;
        assert(l * size <= i < (l + 1) * size) by (nonlinear_arith)
            requires i == size * l + i % size, 0 <= i % size < size;
    }
}

} // verus!
