//! The data that collectors hand out: metric families, their metrics, and
//! the scalar samples that histogram metrics flatten to.

use vstd::prelude::*;

verus! {

/// The kind of values that the metrics of a family carry.
#[derive(Clone, Copy, Debug, PartialEq, Eq)]
pub enum MetricKind {
    Counter,
    Gauge,
    Histogram,
    Summary,
    Untyped,
}

/// One label of a metric: a name and the value that the metric has for it.
#[derive(Debug, PartialEq, Eq)]
pub struct LabelPair {
    pub name: String,
    pub value: String,
}

/// A label pair as mathematical strings.
pub struct LabelPairView {
    pub name: Seq<char>,
    pub value: Seq<char>,
}

impl View for LabelPair {
    type V = LabelPairView;

    open spec fn view(&self) -> LabelPairView {
        LabelPairView { name: self.name@, value: self.value@ }
    }
}

impl DeepView for LabelPair {
    type V = LabelPairView;

    open spec fn deep_view(&self) -> LabelPairView {
        self@
    }
}

impl Clone for LabelPair {
    fn clone(&self) -> (r: Self)
        ensures
            r@ == self@,
    {
        LabelPair { name: self.name.clone(), value: self.value.clone() }
    }
}

/// The inclusive upper bound of a histogram bucket.
#[derive(Clone, Copy, Debug, PartialEq, Eq)]
pub enum UpperBound {
    /// Observations up to and including this value fall into the bucket.
    Finite(u64),
    /// Every observation falls into the bucket.
    Infinity,
}

impl UpperBound {
    /// Whether an observation of `value` falls under this bound.
    pub open spec fn admits(self, value: u64) -> bool {
        match self {
            UpperBound::Finite(b) => value <= b,
            UpperBound::Infinity => true,
        }
    }

    /// Whether this bound lies strictly below `other`.
    pub open spec fn below(self, other: UpperBound) -> bool {
        match (self, other) {
            (UpperBound::Finite(a), UpperBound::Finite(b)) => a < b,
            (UpperBound::Finite(_), UpperBound::Infinity) => true,
            (UpperBound::Infinity, _) => false,
        }
    }
}

/// One bucket of a histogram: how many observations fell under its bound.
#[derive(Clone, Copy, Debug, PartialEq, Eq)]
pub struct Bucket {
    pub upper_bound: UpperBound,
    pub cumulative_count: u64,
}

/// The accounting of one histogram: its buckets in ascending order of their
/// bounds, the number of observations and their sum.
#[derive(Debug, PartialEq, Eq)]
pub struct HistogramData {
    pub buckets: Vec<Bucket>,
    pub sample_count: u64,
    pub sample_sum: u128,
}

/// A histogram's accounting as mathematical values.
pub struct HistogramView {
    pub buckets: Seq<Bucket>,
    pub sample_count: u64,
    pub sample_sum: u128,
}

impl View for HistogramData {
    type V = HistogramView;

    open spec fn view(&self) -> HistogramView {
        HistogramView {
            buckets: self.buckets@,
            sample_count: self.sample_count,
            sample_sum: self.sample_sum,
        }
    }
}

impl Clone for HistogramData {
    fn clone(&self) -> (r: Self)
        ensures
            r@ == self@,
    {
        let buckets = self.buckets.clone();
        assert(buckets@ =~= self.buckets@);
        HistogramData { buckets, sample_count: self.sample_count, sample_sum: self.sample_sum }
    }
}

/// The label pairs of an optional list: those of the list, or none.
pub open spec fn label_views(labels: Option<Vec<LabelPair>>) -> Seq<LabelPairView> {
    match labels {
        Some(v) => v.deep_view(),
        None => Seq::empty(),
    }
}

/// A copy of `pairs`.
pub fn clone_labels(pairs: &Vec<LabelPair>) -> (r: Vec<LabelPair>)
    ensures
        r.deep_view() == pairs.deep_view(),
{
    let mut r: Vec<LabelPair> = Vec::new();
    let mut i: usize = 0;
    while i < pairs.len()
        invariant
            0 <= i <= pairs@.len(),
            r@.len() == i,
            forall|j: int| 0 <= j < i ==> r@[j]@ == pairs@[j]@,
        decreases pairs@.len() - i,
    {
        r.push(pairs[i].clone());
        i += 1;
    }
    assert(r.deep_view() =~= pairs.deep_view());
    r
}

/// The labels `own` followed by the global labels, where there are any.
pub fn joined_labels(own: &Vec<LabelPair>, globals: &Option<Vec<LabelPair>>) -> (r: Vec<LabelPair>)
    ensures
        r.deep_view() == own.deep_view() + label_views(*globals),
{
    let mut r = clone_labels(own);
    match globals {
        Some(g) => {
            let mut extra = clone_labels(g);
            r.append(&mut extra);
            assert(r.deep_view() =~= own.deep_view() + g.deep_view());
        },
        None => {
            assert(r.deep_view() =~= own.deep_view() + Seq::<LabelPairView>::empty());
        },
    }
    r
}

/// One measured stream of a family: its label pairs in the order of the
/// family's label names, its histogram accounting, and the time of the
/// measurement in milliseconds where it was taken at a stated time.
#[derive(Debug, PartialEq, Eq)]
pub struct Metric {
    pub label_pairs: Vec<LabelPair>,
    pub histogram: HistogramData,
    pub timestamp_ms: Option<i64>,
}

/// A metric as mathematical values.
pub struct MetricView {
    pub label_pairs: Seq<LabelPairView>,
    pub histogram: HistogramView,
    pub timestamp_ms: Option<i64>,
}

impl View for Metric {
    type V = MetricView;

    open spec fn view(&self) -> MetricView {
        MetricView {
            label_pairs: self.label_pairs.deep_view(),
            histogram: self.histogram@,
            timestamp_ms: self.timestamp_ms,
        }
    }
}

impl DeepView for Metric {
    type V = MetricView;

    open spec fn deep_view(&self) -> MetricView {
        self@
    }
}

impl Clone for Metric {
    fn clone(&self) -> (r: Self)
        ensures
            r@ == self@,
    {
        Metric {
            label_pairs: clone_labels(&self.label_pairs),
            histogram: self.histogram.clone(),
            timestamp_ms: self.timestamp_ms,
        }
    }
}

/// The metrics that share one name, with the kind of their values.
#[derive(Debug, PartialEq, Eq)]
pub struct MetricFamily {
    pub name: String,
    pub help: String,
    pub kind: MetricKind,
    pub metrics: Vec<Metric>,
}

/// A metric family as mathematical values.
pub struct FamilyView {
    pub name: Seq<char>,
    pub help: Seq<char>,
    pub kind: MetricKind,
    pub metrics: Seq<MetricView>,
}

impl View for MetricFamily {
    type V = FamilyView;

    open spec fn view(&self) -> FamilyView {
        FamilyView {
            name: self.name@,
            help: self.help@,
            kind: self.kind,
            metrics: self.metrics.deep_view(),
        }
    }
}

impl DeepView for MetricFamily {
    type V = FamilyView;

    open spec fn deep_view(&self) -> FamilyView {
        self@
    }
}

/// A copy of `metrics`.
pub fn clone_metrics(metrics: &Vec<Metric>) -> (r: Vec<Metric>)
    ensures
        r.deep_view() == metrics.deep_view(),
{
    let mut r: Vec<Metric> = Vec::new();
    let mut i: usize = 0;
    while i < metrics.len()
        invariant
            0 <= i <= metrics@.len(),
            r@.len() == i,
            forall|j: int| 0 <= j < i ==> r@[j]@ == metrics@[j]@,
        decreases metrics@.len() - i,
    {
        r.push(metrics[i].clone());
        i += 1;
    }
    assert(r.deep_view() =~= metrics.deep_view());
    r
}

impl Clone for MetricFamily {
    fn clone(&self) -> (r: Self)
        ensures
            r@ == self@,
    {
        MetricFamily {
            name: self.name.clone(),
            help: self.help.clone(),
            kind: self.kind,
            metrics: clone_metrics(&self.metrics),
        }
    }
}

/// One scalar sample: a name, the labels that tell it from the other
/// samples of that name, its value, and the time of the metric it was taken
/// from.
#[derive(Debug, PartialEq, Eq)]
pub struct Sample {
    pub metric_name: String,
    pub labels: Vec<LabelPair>,
    pub value: u128,
    pub timestamp_ms: Option<i64>,
}

/// A sample as mathematical values.
pub struct SampleView {
    pub metric_name: Seq<char>,
    pub labels: Seq<LabelPairView>,
    pub value: u128,
    pub timestamp_ms: Option<i64>,
}

impl View for Sample {
    type V = SampleView;

    open spec fn view(&self) -> SampleView {
        SampleView {
            metric_name: self.metric_name@,
            labels: self.labels.deep_view(),
            value: self.value,
            timestamp_ms: self.timestamp_ms,
        }
    }
}

impl DeepView for Sample {
    type V = SampleView;

    open spec fn deep_view(&self) -> SampleView {
        self@
    }
}

} // verus!
