//! The sparse training instances: one flat buffer of feature indices,
//! cut into one strictly ascending slice per instance.

use vstd::prelude::*;
use vstd::slice::slice_subrange;

use crate::features::views;
use crate::vocab::{known_positions, FeatureIndex};

verus! {

/// Every element of `s` is smaller than the next.
pub open spec fn strictly_ascending(s: Seq<usize>) -> bool {
    forall|a: int, b: int| 0 <= a < b < s.len() ==> s[a] < s[b]
}

/// Inserts `x` into the strictly ascending `v`, where it is not there yet.
fn insert_sorted(v: &mut Vec<usize>, x: usize)
    requires
        strictly_ascending(old(v)@),
    ensures
        strictly_ascending(final(v)@),
        final(v)@.to_set() == old(v)@.to_set().insert(x),
{
    let mut p: usize = 0;
    while p < v.len() && v[p] < x
        invariant
            p <= v.len(),
            v@ == old(v)@,
            forall|a: int| 0 <= a < p ==> v@[a] < x,
        decreases v.len() - p,
    {
        p = p + 1;
    }
    if p < v.len() && v[p] == x {
        assert(old(v)@.to_set().insert(x) =~= old(v)@.to_set());
        return;
    }
    let ghost s0 = v@;
    v.insert(p, x);
    proof {
        assert(v@ == s0.insert(p as int, x));
        assert forall|a: int, b: int| 0 <= a < b < v@.len() implies v@[a] < v@[b] by {
            if b < p {
            } else if b == p {
            } else if a < p {
                assert(v@[b] == s0[b - 1]);
                if p < s0.len() {
                    assert(s0[p as int] > x);
                    assert(s0[p as int] <= s0[b - 1]);
                }
            } else if a == p {
                assert(v@[b] == s0[b - 1]);
                assert(s0[p as int] > x);
                assert(s0[p as int] <= s0[b - 1]);
            } else {
            }
        }
        assert forall|y: usize| v@.to_set().contains(y) <==> s0.to_set().insert(x).contains(y) by {
            if v@.to_set().contains(y) {
                let k = choose|k: int| 0 <= k < v@.len() && v@[k] == y;
                if k < p {
                    assert(s0[k] == y);
                } else if k > p {
                    assert(s0[k - 1] == y);
                }
            }
            if s0.to_set().contains(y) {
                let k = choose|k: int| 0 <= k < s0.len() && s0[k] == y;
                if k < p {
                    assert(v@[k] == y);
                } else {
                    assert(v@[k + 1] == y);
                }
            }
            if y == x {
                assert(v@[p as int] == x);
            }
        }
        assert(v@.to_set() =~= s0.to_set().insert(x));
    }
}

/// How many instances `k` have `pred[k] == want_pred` and a positive label
/// exactly when `want_pos`.
pub open spec fn tally(labels: Seq<i8>, pred: Seq<bool>, want_pred: bool, want_pos: bool) -> nat
    decreases labels.len(),
{
    if labels.len() == 0 || pred.len() == 0 {
        0
    } else {
        tally(labels.drop_last(), pred.drop_last(), want_pred, want_pos) + if pred.last()
            == want_pred && (labels.last() > 0) == want_pos {
            1nat
        } else {
            0nat
        }
    }
}

proof fn lemma_tally_bound(labels: Seq<i8>, pred: Seq<bool>, want_pred: bool, want_pos: bool)
    ensures
        tally(labels, pred, want_pred, want_pos) <= labels.len(),
    decreases labels.len(),
{
    if labels.len() > 0 && pred.len() > 0 {
        lemma_tally_bound(labels.drop_last(), pred.drop_last(), want_pred, want_pos);
    }
}

proof fn lemma_tally_sum(labels: Seq<i8>, pred: Seq<bool>)
    requires
        labels.len() == pred.len(),
    ensures
        tally(labels, pred, true, true) + tally(labels, pred, true, false) + tally(
            labels,
            pred,
            false,
            true,
        ) + tally(labels, pred, false, false) == labels.len(),
    decreases labels.len(),
{
    if labels.len() > 0 {
        lemma_tally_sum(labels.drop_last(), pred.drop_last());
    }
}

/// The confusion counts of predictions against labels.
#[derive(Debug, Clone, Copy, PartialEq, Eq)]
pub struct Confusion {
    /// The number of instances.
    pub num_instances: usize,
    /// Predicted positive, labelled positive.
    pub true_positives: usize,
    /// Predicted positive, labelled otherwise.
    pub false_positives: usize,
    /// Predicted negative, labelled positive.
    pub false_negatives: usize,
    /// Predicted negative, labelled otherwise.
    pub true_negatives: usize,
}

/// The training instances of a learner.
pub struct InstanceStore {
    num_features: usize,
    instances_buf: Vec<usize>,
    instances: Vec<(usize, usize)>,
    labels: Vec<i8>,
}

impl InstanceStore {
    /// Each instance is a strictly ascending slice of the buffer holding
    /// valid feature indices, and has a label.
    pub closed spec fn wf(&self) -> bool {
        &&& self.labels@.len() == self.instances@.len()
        &&& forall|i: int|
            0 <= i < self.instances@.len() ==> {
                let (s, e) = #[trigger] self.instances@[i];
                s <= e <= self.instances_buf@.len()
            }
        &&& forall|i: int|
            0 <= i < self.instances@.len() ==> strictly_ascending(#[trigger] self.instance(i))
        &&& forall|i: int, k: int|
            0 <= i < self.instances@.len() && 0 <= k < self.instance(i).len() ==> #[trigger] self.instance(
                i,
            )[k] < self.num_features
    }

    /// The feature indices of instance `i`.
    pub closed spec fn instance(&self, i: int) -> Seq<usize> {
        self.instances_buf@.subrange(self.instances@[i].0 as int, self.instances@[i].1 as int)
    }

    /// The number of instances.
    pub closed spec fn len(&self) -> nat {
        self.instances@.len()
    }

    /// The label of instance `i`.
    pub closed spec fn label(&self, i: int) -> i8 {
        self.labels@[i]
    }

    /// The number of known features; every index is below it.
    pub closed spec fn feature_count(&self) -> nat {
        self.num_features as nat
    }

    /// A store without instances, for `num_features` features.
    pub fn new(num_features: usize) -> (r: InstanceStore)
        ensures
            r.wf(),
            r.len() == 0,
            r.feature_count() == num_features,
    {
        InstanceStore {
            num_features,
            instances_buf: Vec::new(),
            instances: Vec::new(),
            labels: Vec::new(),
        }
    }

    /// The number of instances.
    pub fn num_instances(&self) -> (r: usize)
        ensures
            r == self.len(),
    {
        self.instances.len()
    }

    /// The number of known features.
    pub fn num_features(&self) -> (r: usize)
        ensures
            r == self.feature_count(),
    {
        self.num_features
    }

    /// Makes room for more features.
    pub fn grow_features(&mut self, n: usize)
        requires
            old(self).wf(),
            n >= old(self).feature_count(),
        ensures
            final(self).wf(),
            final(self).feature_count() == n,
            final(self).len() == old(self).len(),
            forall|i: int|
                0 <= i < old(self).len() ==> final(self).instance(i) == old(self).instance(i)
                    && final(self).label(i) == old(self).label(i),
    {
        self.num_features = n;
        assert forall|i: int| 0 <= i < self.instances@.len() implies strictly_ascending(
            #[trigger] self.instance(i),
        ) by {
            assert(self.instance(i) == old(self).instance(i));
        }
        assert forall|i: int, k: int|
            0 <= i < self.instances@.len() && 0 <= k < self.instance(i).len() implies #[trigger] self.instance(
                i,
            )[k] < self.num_features by {
            assert(self.instance(i) == old(self).instance(i));
            assert(old(self).instance(i)[k] < old(self).num_features);
        }
    }

    /// Adds an instance with the features `indices`, each once and in
    /// ascending order, and its label.
    pub fn add_instance(&mut self, indices: &Vec<usize>, label: i8)
        requires
            old(self).wf(),
            forall|k: int| 0 <= k < indices@.len() ==> #[trigger] indices@[k] < old(self).feature_count(),
        ensures
            final(self).wf(),
            final(self).feature_count() == old(self).feature_count(),
            final(self).len() == old(self).len() + 1,
            forall|i: int|
                0 <= i < old(self).len() ==> final(self).instance(i) == old(self).instance(i)
                    && final(self).label(i) == old(self).label(i),
            final(self).instance(old(self).len() as int).to_set() == indices@.to_set(),
            final(self).label(old(self).len() as int) == label,
    {
        let mut sorted: Vec<usize> = Vec::new();
        let mut k: usize = 0;
        while k < indices.len()
            invariant
                k <= indices.len(),
                strictly_ascending(sorted@),
                sorted@.to_set() == indices@.take(k as int).to_set(),
            decreases indices.len() - k,
        {
            insert_sorted(&mut sorted, indices[k]);
            assert(indices@.take(k + 1) =~= indices@.take(k as int).push(indices@[k as int]));
            proof {
                indices@.take(k as int).lemma_push_to_set_commute(indices@[k as int]);
            }
            k = k + 1;
        }
        assert(indices@.take(k as int) =~= indices@);
        let start = self.instances_buf.len();
        let ghost buf0 = self.instances_buf@;
        let mut j: usize = 0;
        while j < sorted.len()
            invariant
                j <= sorted.len(),
                start == buf0.len(),
                self.instances_buf@ == buf0 + sorted@.take(j as int),
                self.instances@ == old(self).instances@,
                self.labels@ == old(self).labels@,
                self.num_features == old(self).num_features,
                buf0 == old(self).instances_buf@,
            decreases sorted.len() - j,
        {
            self.instances_buf.push(sorted[j]);
            assert(sorted@.take(j + 1) =~= sorted@.take(j as int).push(sorted@[j as int]));
            j = j + 1;
        }
        assert(sorted@.take(j as int) =~= sorted@);
        let end = self.instances_buf.len();
        self.instances.push((start, end));
        self.labels.push(label);
        proof {
            let n = old(self).instances@.len();
            assert forall|i: int| 0 <= i < n implies self.instance(i) == old(self).instance(i) by {
                let (s, e) = old(self).instances@[i];
                assert(self.instances@[i] == old(self).instances@[i]);
                assert(self.instance(i) =~= old(self).instance(i));
            }
            assert(self.instance(n as int) =~= sorted@);
            assert forall|k2: int| 0 <= k2 < sorted@.len() implies #[trigger] sorted@[k2]
                < self.num_features by {
                assert(sorted@.to_set().contains(sorted@[k2]));
                assert(indices@.to_set().contains(sorted@[k2]));
            }
        }
    }

    /// Adds one instance per parsed line: its label, and the positions in
    /// `index` of the feature names it holds; unknown names are passed over.
    pub fn ingest(&mut self, index: &FeatureIndex, lines: &Vec<(i8, Vec<String>)>)
        requires
            old(self).wf(),
            index.wf(),
            index@.len() <= old(self).feature_count(),
        ensures
            final(self).wf(),
            final(self).feature_count() == old(self).feature_count(),
            final(self).len() == old(self).len() + lines@.len(),
            forall|i: int|
                0 <= i < old(self).len() ==> final(self).instance(i) == old(self).instance(i)
                    && final(self).label(i) == old(self).label(i),
            forall|k: int|
                0 <= k < lines@.len() ==> (#[trigger] final(self).instance(old(self).len() + k)).to_set()
                    == known_positions(index@, views(lines@[k].1@)).to_set() && final(self).label(
                    old(self).len() + k,
                ) == lines@[k].0,
    {
        let mut k: usize = 0;
        while k < lines.len()
            invariant
                self.wf(),
                index.wf(),
                index@.len() <= self.feature_count(),
                self.feature_count() == old(self).feature_count(),
                k <= lines@.len(),
                self.len() == old(self).len() + k,
                forall|i: int|
                    0 <= i < old(self).len() ==> self.instance(i) == old(self).instance(i)
                        && self.label(i) == old(self).label(i),
                forall|j: int|
                    0 <= j < k ==> (#[trigger] self.instance(old(self).len() + j)).to_set()
                        == known_positions(index@, views(lines@[j].1@)).to_set() && self.label(
                        old(self).len() + j,
                    ) == lines@[j].0,
            decreases lines.len() - k,
        {
            let positions = index.positions_of(&lines[k].1);
            self.add_instance(&positions, lines[k].0);
            k = k + 1;
        }
    }

    /// The feature indices of instance `i`, ascending.
    pub fn features_of(&self, i: usize) -> (r: &[usize])
        requires
            self.wf(),
            i < self.len(),
        ensures
            r@ == self.instance(i as int),
            strictly_ascending(r@),
    {
        let (s, e) = self.instances[i];
        slice_subrange(self.instances_buf.as_slice(), s, e)
    }

    /// The labels of all instances, in order.
    pub open spec fn labels(&self) -> Seq<i8> {
        Seq::new(self.len(), |i: int| self.label(i))
    }

    /// Counts, over all instances, predictions against labels: `predicted[i]`
    /// says whether instance `i` was predicted positive; a label is positive
    /// when it is above zero.
    pub fn confusion(&self, predicted: &Vec<bool>) -> (r: Confusion)
        requires
            self.wf(),
            predicted@.len() == self.len(),
        ensures
            r.num_instances == self.len(),
            r.true_positives == tally(self.labels(), predicted@, true, true),
            r.false_positives == tally(self.labels(), predicted@, true, false),
            r.false_negatives == tally(self.labels(), predicted@, false, true),
            r.true_negatives == tally(self.labels(), predicted@, false, false),
            r.true_positives + r.false_positives + r.false_negatives + r.true_negatives
                == self.len(),
    {
        assert(self.labels@ =~= self.labels());
        let mut tp: usize = 0;
        let mut fp: usize = 0;
        let mut fne: usize = 0;
        let mut tn: usize = 0;
        let mut i: usize = 0;
        while i < self.labels.len()
            invariant
                self.wf(),
                predicted@.len() == self.labels@.len(),
                i <= self.labels@.len(),
                tp == tally(self.labels@.take(i as int), predicted@.take(i as int), true, true),
                fp == tally(self.labels@.take(i as int), predicted@.take(i as int), true, false),
                fne == tally(self.labels@.take(i as int), predicted@.take(i as int), false, true),
                tn == tally(self.labels@.take(i as int), predicted@.take(i as int), false, false),
            decreases self.labels.len() - i,
        {
            let ghost l1 = self.labels@.take(i + 1);
            let ghost p1 = predicted@.take(i + 1);
            assert(l1.drop_last() =~= self.labels@.take(i as int));
            assert(p1.drop_last() =~= predicted@.take(i as int));
            proof {
                lemma_tally_bound(l1, p1, true, true);
                lemma_tally_bound(l1, p1, true, false);
                lemma_tally_bound(l1, p1, false, true);
                lemma_tally_bound(l1, p1, false, false);
            }
            let pos = self.labels[i] > 0;
            if predicted[i] {
                if pos {
                    tp = tp + 1;
                } else {
                    fp = fp + 1;
                }
            } else {
                if pos {
                    fne = fne + 1;
                } else {
                    tn = tn + 1;
                }
            }
            i = i + 1;
        }
        assert(self.labels@.take(i as int) =~= self.labels@);
        assert(predicted@.take(i as int) =~= predicted@);
        proof {
            lemma_tally_sum(self.labels@, predicted@);
        }
        Confusion {
            num_instances: self.instances.len(),
            true_positives: tp,
            false_positives: fp,
            false_negatives: fne,
            true_negatives: tn,
        }
    }

    /// The label of instance `i`.
    pub fn label_of(&self, i: usize) -> (r: i8)
        requires
            self.wf(),
            i < self.len(),
        ensures
            r == self.label(i as int),
    {
        self.labels[i]
    }

    /// Whether instance `i` has feature `h`, by binary search over its slice.
    pub fn has_feature(&self, i: usize, h: usize) -> (r: bool)
        requires
            self.wf(),
            i < self.len(),
        ensures
            r == self.instance(i as int).contains(h),
    {
        let (s, e) = self.instances[i];
        let ghost inst = self.instance(i as int);
        assert(strictly_ascending(inst));
        let mut lo: usize = s;
        let mut hi: usize = e;
        while lo < hi
            invariant
                s <= lo <= hi <= e <= self.instances_buf@.len(),
                inst == self.instances_buf@.subrange(s as int, e as int),
                inst == self.instance(i as int),
                strictly_ascending(inst),
                forall|k: int| s <= k < lo ==> self.instances_buf@[k] < h,
                forall|k: int| hi <= k < e ==> self.instances_buf@[k] > h,
            decreases hi - lo,
        {
            let mid = lo + (hi - lo) / 2;
            let v = self.instances_buf[mid];
            assert(v == inst[mid - s]);
            if v == h {
                let ghost kk = (mid - s) as int;
                assert(0 <= kk < inst.len() && inst[kk] == h);
                assert(inst.contains(h));
                return true;
            } else if v < h {
                assert forall|k: int| s <= k < mid + 1 implies self.instances_buf@[k] < h by {
                    if k < mid {
                        assert(inst[k - s] < inst[mid - s]);
                    }
                }
                lo = mid + 1;
            } else {
                assert forall|k: int| mid <= k < e implies self.instances_buf@[k] > h by {
                    if k > mid {
                        assert(inst[mid - s] < inst[k - s]);
                    }
                }
                hi = mid;
            }
        }
        assert forall|k: int| 0 <= k < inst.len() implies inst[k] != h by {
            assert(inst[k] == self.instances_buf@[s + k]);
        }
        false
    }
}

/// Every instance of a well-formed store is strictly ascending and names
/// only known features.
pub proof fn lemma_sorted_slices(store: &InstanceStore, i: int)
    requires
        store.wf(),
        0 <= i < store.len(),
    ensures
        strictly_ascending(store.instance(i)),
        forall|k: int| 0 <= k < store.instance(i).len() ==> #[trigger] store.instance(i)[k] < store.feature_count(),
{
}

} // verus!
