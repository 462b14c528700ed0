//! The histogram instrument: observations counted into buckets, one
//! histogram for each tuple of label values.

use vstd::prelude::*;
use vstd::string::*;
use crate::descriptor::{describable, identify, stream_identity, Descriptor, DescriptorView};
use crate::flatten::{flatten, flattened, unbounded_counts_all};
use crate::model::{
    clone_metrics, label_views, Bucket, FamilyView, HistogramData, HistogramView, LabelPair,
    LabelPairView, Metric, MetricFamily, MetricKind, MetricView, Sample, UpperBound,
};
use crate::order::label_values;
use crate::registry::Collector;

verus! {

/// What a histogram instrument is made from.
#[derive(Debug)]
pub struct LuaHistogramOpts {
    /// The name of the metric.
    pub name: String,
    /// What the metric measures, in words.
    pub help: String,
    /// The upper bounds of the buckets, ascending. Without them, or with
    /// none, the instrument has the default bounds.
    pub buckets: Option<Vec<UpperBound>>,
}

/// Why no instrument could be made.
#[derive(Clone, Copy, Debug, PartialEq, Eq)]
pub enum ConstructionError {
    /// The bounds of the buckets do not ascend strictly.
    InvalidBucketLadder,
    /// A label has the name `le`, which the bucket bounds are exposed under.
    ReservedLabelName,
    /// The name, the help text or the label names cannot be described.
    InvalidDescriptor,
}

/// Why an instrument refused label values.
#[derive(Clone, Copy, Debug, PartialEq, Eq)]
pub enum ObserveError {
    /// There are more or fewer label values than the instrument has labels.
    LabelCardinalityMismatch,
    /// The instrument holds no histogram for the label values.
    UnknownLabelValues,
}

/// The bounds of an instrument that was given none.
pub open spec fn default_ladder() -> Seq<UpperBound> {
    seq![
        UpperBound::Finite(5),
        UpperBound::Finite(10),
        UpperBound::Finite(25),
        UpperBound::Finite(50),
        UpperBound::Finite(100),
        UpperBound::Finite(250),
        UpperBound::Finite(500),
        UpperBound::Finite(1000),
        UpperBound::Finite(2500),
        UpperBound::Finite(5000),
        UpperBound::Finite(10000),
    ]
}

/// The bounds that an instrument made with `buckets` has.
pub open spec fn chosen_ladder(buckets: Option<Vec<UpperBound>>) -> Seq<UpperBound> {
    match buckets {
        Some(b) => if b@.len() > 0 {
            b@
        } else {
            default_ladder()
        },
        None => default_ladder(),
    }
}

/// Whether the bounds ascend strictly. A bucket without bound can only be
/// the last.
pub open spec fn valid_ladder(ladder: Seq<UpperBound>) -> bool {
    &&& ladder.len() > 0
    &&& forall|i: int, j: int|
        0 <= i < j < ladder.len() ==> (#[trigger] ladder[i]).below(#[trigger] ladder[j])
}

/// Whether one of the label names is `le`.
pub open spec fn has_reserved_label(label_names: Seq<Seq<char>>) -> bool {
    exists|i: int| 0 <= i < label_names.len() && #[trigger] label_names[i] == "le"@
}

/// A histogram with these bounds and no observation.
pub open spec fn fresh(ladder: Seq<UpperBound>) -> HistogramView {
    HistogramView {
        buckets: Seq::new(
            ladder.len(),
            |i: int| Bucket { upper_bound: ladder[i], cumulative_count: 0 },
        ),
        sample_count: 0,
        sample_sum: 0,
    }
}

/// The histogram after one more observation: every bucket whose bound
/// admits the value counts one more, and so does the histogram; the value
/// is added to the sum.
pub open spec fn recorded(h: HistogramView, value: u64) -> HistogramView {
    HistogramView {
        buckets: Seq::new(
            h.buckets.len(),
            |i: int|
                Bucket {
                    upper_bound: h.buckets[i].upper_bound,
                    cumulative_count: if h.buckets[i].upper_bound.admits(value) {
                        (h.buckets[i].cumulative_count + 1) as u64
                    } else {
                        h.buckets[i].cumulative_count
                    },
                },
        ),
        sample_count: (h.sample_count + 1) as u64,
        sample_sum: (h.sample_sum + value) as u128,
    }
}

/// Whether the counts of a histogram fit together: no bucket counts more
/// than the histogram, a bucket without bound counts as much, and the sum
/// is what that many observations can add up to.
pub open spec fn consistent(h: HistogramView) -> bool {
    &&& forall|i: int|
        0 <= i < h.buckets.len() ==> (#[trigger] h.buckets[i]).cumulative_count <= h.sample_count
    &&& unbounded_counts_all(h)
    &&& h.sample_sum <= h.sample_count * 0xffff_ffff_ffff_ffff
}

/// Whether the buckets are in the strict order of their bounds, and none
/// counts less than one before it.
pub open spec fn cumulative(h: HistogramView) -> bool {
    forall|i: int, j: int|
        0 <= i < j < h.buckets.len() ==> (#[trigger] h.buckets[i]).upper_bound.below(
            (#[trigger] h.buckets[j]).upper_bound,
        ) && h.buckets[i].cumulative_count <= h.buckets[j].cumulative_count
}

/// Whether the histogram has exactly the buckets of the ladder.
pub open spec fn on_ladder(h: HistogramView, ladder: Seq<UpperBound>) -> bool {
    &&& h.buckets.len() == ladder.len()
    &&& forall|i: int| 0 <= i < ladder.len() ==> (#[trigger] h.buckets[i]).upper_bound == ladder[i]
}

/// The labels of the histogram for `values`.
pub open spec fn paired(names: Seq<Seq<char>>, values: Seq<Seq<char>>) -> Seq<LabelPairView> {
    Seq::new(names.len(), |i: int| LabelPairView { name: names[i], value: values[i] })
}

/// The first index at or after `from` whose metric has the label values
/// `values`.
pub open spec fn child_index(children: Seq<MetricView>, values: Seq<Seq<char>>, from: int) -> int
    decreases children.len() - from,
{
    if from < 0 || from >= children.len() || label_values(children[from]) == values {
        from
    } else {
        child_index(children, values, from + 1)
    }
}

/// An instrument as mathematical values.
pub struct HistogramVecView {
    pub name: Seq<char>,
    pub help: Seq<char>,
    pub label_names: Seq<Seq<char>>,
    pub ladder: Seq<UpperBound>,
    pub descriptor: DescriptorView,
    /// One metric for each tuple of label values that was observed, in the
    /// order of their first observation.
    pub children: Seq<MetricView>,
}

impl HistogramVecView {
    /// Whether `child` is a histogram of this instrument.
    pub open spec fn owns(self, child: MetricView) -> bool {
        &&& child.label_pairs == paired(self.label_names, label_values(child))
        &&& child.label_pairs.len() == self.label_names.len()
        &&& child.timestamp_ms is None
        &&& on_ladder(child.histogram, self.ladder)
        &&& consistent(child.histogram)
        &&& cumulative(child.histogram)
    }

    /// Whether the instrument is as `new` and `observe` leave one.
    pub open spec fn well_formed(self) -> bool {
        &&& valid_ladder(self.ladder)
        &&& self.descriptor.fq_name == self.name
        &&& forall|i: int| 0 <= i < self.children.len() ==> self.owns(#[trigger] self.children[i])
        &&& forall|i: int, j: int|
            0 <= i < j < self.children.len() ==> label_values(#[trigger] self.children[i])
                != label_values(#[trigger] self.children[j])
    }

    /// How many observations were made with the label values `values`.
    pub open spec fn count_of(self, values: Seq<Seq<char>>) -> u64 {
        let i = child_index(self.children, values, 0);
        if i < self.children.len() {
            self.children[i].histogram.sample_count
        } else {
            0
        }
    }

    /// The instrument after an observation of `value` with the label values
    /// `values`: their histogram has recorded it. The first observation
    /// with some label values adds their histogram after the others.
    pub open spec fn observed(self, value: u64, values: Seq<Seq<char>>) -> HistogramVecView {
        let i = child_index(self.children, values, 0);
        let children = if i < self.children.len() {
            self.children.update(
                i,
                MetricView {
                    label_pairs: self.children[i].label_pairs,
                    histogram: recorded(self.children[i].histogram, value),
                    timestamp_ms: self.children[i].timestamp_ms,
                },
            )
        } else {
            self.children.push(
                MetricView {
                    label_pairs: paired(self.label_names, values),
                    histogram: recorded(fresh(self.ladder), value),
                    timestamp_ms: None,
                },
            )
        };
        HistogramVecView {
            name: self.name,
            help: self.help,
            label_names: self.label_names,
            ladder: self.ladder,
            descriptor: self.descriptor,
            children,
        }
    }

    /// The histogram for the label values `values`: the one that the
    /// instrument holds, or one without observations.
    pub open spec fn histogram_of(self, values: Seq<Seq<char>>) -> HistogramView {
        let i = child_index(self.children, values, 0);
        if i < self.children.len() {
            self.children[i].histogram
        } else {
            fresh(self.ladder)
        }
    }

    /// The instrument after observations of `observations`, first to last,
    /// all with the label values `values`.
    pub open spec fn observed_all(self, observations: Seq<u64>, values: Seq<Seq<char>>)
        -> HistogramVecView
        decreases observations.len(),
    {
        if observations.len() == 0 {
            self
        } else {
            self.observed_all(observations.drop_last(), values).observed(
                observations.last(),
                values,
            )
        }
    }

    /// The instrument without the histogram for the label values `values`.
    pub open spec fn removed(self, values: Seq<Seq<char>>) -> HistogramVecView {
        HistogramVecView {
            name: self.name,
            help: self.help,
            label_names: self.label_names,
            ladder: self.ladder,
            descriptor: self.descriptor,
            children: self.children.remove(child_index(self.children, values, 0)),
        }
    }

    /// What the instrument hands out: one histogram family with a metric
    /// for each tuple of label values.
    pub open spec fn families(self) -> Seq<FamilyView> {
        seq![
            FamilyView {
                name: self.name,
                help: self.help,
                kind: MetricKind::Histogram,
                metrics: self.children,
            },
        ]
    }
}

/// The instrument that `assemble` makes, or why it makes none.
pub open spec fn assembled(
    opts: LuaHistogramOpts,
    label_names: Seq<Seq<char>>,
    identity: Option<(u64, u64)>,
) -> Result<HistogramVecView, ConstructionError> {
    if !valid_ladder(chosen_ladder(opts.buckets)) {
        Err(ConstructionError::InvalidBucketLadder)
    } else if has_reserved_label(label_names) {
        Err(ConstructionError::ReservedLabelName)
    } else {
        match identity {
            None => Err(ConstructionError::InvalidDescriptor),
            Some((id, dim_hash)) => Ok(
                HistogramVecView {
                    name: opts.name@,
                    help: opts.help@,
                    label_names,
                    ladder: chosen_ladder(opts.buckets),
                    descriptor: DescriptorView { id, fq_name: opts.name@, dim_hash },
                    children: Seq::empty(),
                },
            ),
        }
    }
}

/// The identity under which a stream is described, where it can be.
pub open spec fn identity_of(
    fq_name: Seq<char>,
    help: Seq<char>,
    label_names: Seq<Seq<char>>,
) -> Option<(u64, u64)> {
    if describable(fq_name, help, label_names) {
        Some(stream_identity(fq_name, help, label_names))
    } else {
        None
    }
}

/// The label values that an observation is made with.
pub open spec fn values_of(label_values: Option<Vec<String>>) -> Seq<Seq<char>> {
    match label_values {
        Some(v) => v.deep_view(),
        None => Seq::empty(),
    }
}

fn default_bounds() -> (r: Vec<UpperBound>)
    ensures
        r@ == default_ladder(),
{
    let mut r: Vec<UpperBound> = Vec::new();
    r.push(UpperBound::Finite(5));
    r.push(UpperBound::Finite(10));
    r.push(UpperBound::Finite(25));
    r.push(UpperBound::Finite(50));
    r.push(UpperBound::Finite(100));
    r.push(UpperBound::Finite(250));
    r.push(UpperBound::Finite(500));
    r.push(UpperBound::Finite(1000));
    r.push(UpperBound::Finite(2500));
    r.push(UpperBound::Finite(5000));
    r.push(UpperBound::Finite(10000));
    assert(r@ =~= default_ladder());
    r
}

fn bound_below(a: UpperBound, b: UpperBound) -> (r: bool)
    ensures
        r == a.below(b),
{
    match a {
        UpperBound::Finite(x) => match b {
            UpperBound::Finite(y) => x < y,
            UpperBound::Infinity => true,
        },
        UpperBound::Infinity => false,
    }
}

fn bound_admits(bound: UpperBound, value: u64) -> (r: bool)
    ensures
        r == bound.admits(value),
{
    match bound {
        UpperBound::Finite(b) => value <= b,
        UpperBound::Infinity => true,
    }
}

fn ladder_ascends(ladder: &Vec<UpperBound>) -> (r: bool)
    ensures
        r == valid_ladder(ladder@),
{
    if ladder.len() == 0 {
        return false;
    }
    let mut i: usize = 1;
    while i < ladder.len()
        invariant
            1 <= i <= ladder@.len(),
            forall|a: int, b: int|
                0 <= a < b < i ==> (#[trigger] ladder@[a]).below(#[trigger] ladder@[b]),
        decreases ladder@.len() - i,
    {
        if !bound_below(ladder[i - 1], ladder[i]) {
            return false;
        }
        assert forall|a: int, b: int| 0 <= a < b < i + 1 implies (#[trigger] ladder@[a]).below(
            #[trigger] ladder@[b],
        ) by {
            if b == i && a < i - 1 {
                assert(ladder@[a].below(ladder@[i - 1]));
            }
        }
        i += 1;
    }
    true
}

fn names_reserved(label_names: &Vec<String>) -> (r: bool)
    ensures
        r == has_reserved_label(label_names.deep_view()),
{
    let reserved = String::from_str("le");
    let mut i: usize = 0;
    while i < label_names.len()
        invariant
            0 <= i <= label_names@.len(),
            reserved@ == "le"@,
            forall|k: int| 0 <= k < i ==> #[trigger] label_names.deep_view()[k] != "le"@,
        decreases label_names@.len() - i,
    {
        assert(label_names.deep_view()[i as int] == label_names@[i as int]@);
        if label_names[i] == reserved {
            return true;
        }
        i += 1;
    }
    false
}

fn has_values(child: &Metric, values: &Vec<String>) -> (r: bool)
    ensures
        r == (label_values(child@) == values.deep_view()),
{
    let n = child.label_pairs.len();
    let ghost x = label_values(child@);
    let ghost y = values.deep_view();
    assert(x.len() == n && y.len() == values@.len());
    if n != values.len() {
        return false;
    }
    let mut i: usize = 0;
    while i < n
        invariant
            0 <= i <= n,
            n == child.label_pairs@.len(),
            n == values@.len(),
            x == label_values(child@),
            y == values.deep_view(),
            forall|k: int| 0 <= k < i ==> x[k] == y[k],
        decreases n - i,
    {
        assert(x[i as int] == child.label_pairs@[i as int].value@);
        assert(y[i as int] == values@[i as int]@);
        if !(child.label_pairs[i].value == values[i]) {
            return false;
        }
        i += 1;
    }
    assert(x =~= y);
    true
}

fn find_child(children: &Vec<Metric>, values: &Vec<String>) -> (r: usize)
    ensures
        r == child_index(children.deep_view(), values.deep_view(), 0),
        r <= children@.len(),
{
    let mut i: usize = 0;
    while i < children.len()
        invariant
            0 <= i <= children@.len(),
            child_index(children.deep_view(), values.deep_view(), 0) == child_index(
                children.deep_view(),
                values.deep_view(),
                i as int,
            ),
        decreases children@.len() - i,
    {
        if has_values(&children[i], values) {
            return i;
        }
        i += 1;
    }
    i
}

fn record(h: &mut HistogramData, value: u64)
    requires
        old(h).sample_count < u64::MAX,
        consistent(old(h)@),
    ensures
        final(h)@ == recorded(old(h)@, value),
        consistent(final(h)@),
{
    let ghost before = h@;
    let mut k: usize = 0;
    while k < h.buckets.len()
        invariant
            0 <= k <= before.buckets.len(),
            h.buckets@.len() == before.buckets.len(),
            h.sample_count == before.sample_count,
            h.sample_sum == before.sample_sum,
            before.sample_count < u64::MAX,
            consistent(before),
            forall|i: int|
                0 <= i < k ==> #[trigger] h.buckets@[i] == recorded(before, value).buckets[i],
            forall|i: int|
                k <= i < before.buckets.len() ==> #[trigger] h.buckets@[i] == before.buckets[i],
        decreases before.buckets.len() - k,
    {
        let bucket = h.buckets[k];
        assert(bucket == before.buckets[k as int]);
        if bound_admits(bucket.upper_bound, value) {
            h.buckets.set(
                k,
                Bucket {
                    upper_bound: bucket.upper_bound,
                    cumulative_count: bucket.cumulative_count + 1,
                },
            );
        }
        k += 1;
    }
    h.sample_count = h.sample_count + 1;
    h.sample_sum = h.sample_sum + value as u128;
    assert(h@.buckets =~= recorded(before, value).buckets);
    assert(consistent(h@)) by {
        assert forall|i: int| 0 <= i < h@.buckets.len() implies (#[trigger] h@.buckets[i]).cumulative_count
            <= h@.sample_count && (h@.buckets[i].upper_bound == UpperBound::Infinity
            ==> h@.buckets[i].cumulative_count == h@.sample_count) by {
            assert(before.buckets[i].cumulative_count <= before.sample_count);
        }
    }
}

fn fresh_histogram(ladder: &Vec<UpperBound>) -> (r: HistogramData)
    ensures
        r@ == fresh(ladder@),
{
    let mut buckets: Vec<Bucket> = Vec::new();
    let mut i: usize = 0;
    while i < ladder.len()
        invariant
            0 <= i <= ladder@.len(),
            buckets@.len() == i,
            forall|k: int|
                0 <= k < i ==> #[trigger] buckets@[k] == (Bucket {
                    upper_bound: ladder@[k],
                    cumulative_count: 0,
                }),
        decreases ladder@.len() - i,
    {
        buckets.push(Bucket { upper_bound: ladder[i], cumulative_count: 0 });
        i += 1;
    }
    assert(buckets@ =~= fresh(ladder@).buckets);
    HistogramData { buckets, sample_count: 0, sample_sum: 0 }
}

fn pair_up(names: &Vec<String>, values: &Vec<String>) -> (r: Vec<LabelPair>)
    requires
        names@.len() == values@.len(),
    ensures
        r.deep_view() == paired(names.deep_view(), values.deep_view()),
{
    let mut r: Vec<LabelPair> = Vec::new();
    let mut i: usize = 0;
    while i < names.len()
        invariant
            0 <= i <= names@.len(),
            names@.len() == values@.len(),
            r@.len() == i,
            forall|k: int|
                0 <= k < i ==> (#[trigger] r@[k])@ == (LabelPairView {
                    name: names@[k]@,
                    value: values@[k]@,
                }),
        decreases names@.len() - i,
    {
        r.push(LabelPair { name: names[i].clone(), value: values[i].clone() });
        i += 1;
    }
    assert(r.deep_view() =~= paired(names.deep_view(), values.deep_view()));
    r
}

/// A histogram instrument: one histogram for each tuple of label values
/// that was observed. Observations and bucket bounds are whole numbers of
/// the unit that the instrument measures in.
#[derive(Debug)]
pub struct LuaHistogramVec {
    name: String,
    help: String,
    label_names: Vec<String>,
    ladder: Vec<UpperBound>,
    descriptor: Descriptor,
    children: Vec<Metric>,
}

impl View for LuaHistogramVec {
    type V = HistogramVecView;

    closed spec fn view(&self) -> HistogramVecView {
        HistogramVecView {
            name: self.name@,
            help: self.help@,
            label_names: self.label_names.deep_view(),
            ladder: self.ladder@,
            descriptor: self.descriptor@,
            children: self.children.deep_view(),
        }
    }
}

impl LuaHistogramVec {
    /// Whether the instrument is as `new` and `observe` leave one. Every
    /// instrument is.
    pub open spec fn wf(&self) -> bool {
        self@.well_formed()
    }

    #[verifier::type_invariant]
    spec fn inv(&self) -> bool {
        self@.well_formed()
    }

    /// Makes the instrument for a stream whose identity is `identity`, or
    /// `None` where the stream cannot be described.
    pub fn assemble(opts: LuaHistogramOpts, label_names: Vec<String>, identity: Option<(u64, u64)>)
        -> (r: Result<Self, ConstructionError>)
        ensures
            match r {
                Ok(h) => assembled(opts, label_names.deep_view(), identity) == Ok::<
                    HistogramVecView,
                    ConstructionError,
                >(h@) && h.wf(),
                Err(e) => assembled(opts, label_names.deep_view(), identity) == Err::<
                    HistogramVecView,
                    ConstructionError,
                >(e),
            },
    {
        let ladder = match opts.buckets {
            Some(b) => if b.len() > 0 {
                b
            } else {
                default_bounds()
            },
            None => default_bounds(),
        };
        if !ladder_ascends(&ladder) {
            return Err(ConstructionError::InvalidBucketLadder);
        }
        if names_reserved(&label_names) {
            return Err(ConstructionError::ReservedLabelName);
        }
        match identity {
            None => Err(ConstructionError::InvalidDescriptor),
            Some((id, dim_hash)) => {
                let descriptor = Descriptor { id, fq_name: opts.name.clone(), dim_hash };
                let h = LuaHistogramVec {
                    name: opts.name,
                    help: opts.help,
                    label_names,
                    ladder,
                    descriptor,
                    children: Vec::new(),
                };
                assert(h@.children =~= Seq::<MetricView>::empty());
                Ok(h)
            },
        }
    }

    /// Makes an instrument with the labels `label_names`.
    pub fn new(opts: LuaHistogramOpts, label_names: Vec<String>) -> (r: Result<
        Self,
        ConstructionError,
    >)
        ensures
            match r {
                Ok(h) => assembled(
                    opts,
                    label_names.deep_view(),
                    identity_of(opts.name@, opts.help@, label_names.deep_view()),
                ) == Ok::<HistogramVecView, ConstructionError>(h@) && h.wf(),
                Err(e) => assembled(
                    opts,
                    label_names.deep_view(),
                    identity_of(opts.name@, opts.help@, label_names.deep_view()),
                ) == Err::<HistogramVecView, ConstructionError>(e),
            },
    {
        let identity = match identify(&opts.name, &opts.help, &label_names) {
            Ok(identity) => Some(identity),
            Err(_) => None,
        };
        Self::assemble(opts, label_names, identity)
    }

    /// The name of the metric.
    pub fn name(&self) -> (r: &String)
        ensures
            r@ == self@.name,
    {
        &self.name
    }

    /// How many observations were made with the label values, or `None`
    /// where there are more or fewer of them than the instrument has labels.
    pub fn sample_count(&self, label_values: &Vec<String>) -> (r: Option<u64>)
        ensures
            self.wf(),
            r == if label_values@.len() == self@.label_names.len() {
                Some(self@.count_of(label_values.deep_view()))
            } else {
                None::<u64>
            },
    {
        proof {
            use_type_invariant(self);
        }
        if label_values.len() != self.label_names.len() {
            return None;
        }
        let i = find_child(&self.children, label_values);
        if i < self.children.len() {
            Some(self.children[i].histogram.sample_count)
        } else {
            Some(0)
        }
    }

    /// Records an observation of `value` in the histogram for the label
    /// values, which are none where `label_values` is `None`. The histogram
    /// must have room to count one more observation; `sample_count` tells
    /// how many it has counted.
    pub fn observe(&mut self, value: u64, label_values: Option<Vec<String>>) -> (r: Result<
        (),
        ObserveError,
    >)
        requires
            values_of(label_values).len() == old(self)@.label_names.len() ==> old(self)@.count_of(
                values_of(label_values),
            ) < u64::MAX,
        ensures
            final(self).wf(),
            values_of(label_values).len() != old(self)@.label_names.len() ==> r == Err::<
                (),
                ObserveError,
            >(ObserveError::LabelCardinalityMismatch) && final(self)@ == old(self)@,
            values_of(label_values).len() == old(self)@.label_names.len() ==> r is Ok
                && final(self)@ == old(self)@.observed(value, values_of(label_values)),
    {
        proof {
            use_type_invariant(&*self);
        }
        let values = match label_values {
            Some(v) => v,
            None => Vec::new(),
        };
        assert(values.deep_view() =~= values_of(label_values));
        if values.len() != self.label_names.len() {
            return Err(ObserveError::LabelCardinalityMismatch);
        }
        let ghost before = self@;
        proof {
            lemma_child_index(before.children, values.deep_view(), 0);
            lemma_observed_well_formed(before, value, values.deep_view());
        }
        let mut children: Vec<Metric> = Vec::new();
        core::mem::swap(&mut self.children, &mut children);
        let i = find_child(&children, &values);
        if i < children.len() {
            assert(before.owns(before.children[i as int]));
            record(&mut children[i].histogram, value);
        } else {
            let mut histogram = fresh_histogram(&self.ladder);
            record(&mut histogram, value);
            let child = Metric {
                label_pairs: pair_up(&self.label_names, &values),
                histogram,
                timestamp_ms: None,
            };
            children.push(child);
        }
        assert(children.deep_view() =~= before.observed(value, values.deep_view()).children);
        self.children = children;
        Ok(())
    }

    /// Drops the histogram for the label values.
    pub fn remove(&mut self, lv: Vec<String>) -> (r: Result<(), ObserveError>)
        ensures
            final(self).wf(),
            r == if lv@.len() != old(self)@.label_names.len() {
                Err::<(), ObserveError>(ObserveError::LabelCardinalityMismatch)
            } else if child_index(old(self)@.children, lv.deep_view(), 0) >= old(self)@.children.len() {
                Err::<(), ObserveError>(ObserveError::UnknownLabelValues)
            } else {
                Ok::<(), ObserveError>(())
            },
            r is Ok ==> final(self)@ == old(self)@.removed(lv.deep_view()),
            r is Err ==> final(self)@ == old(self)@,
    {
        proof {
            use_type_invariant(&*self);
        }
        if lv.len() != self.label_names.len() {
            return Err(ObserveError::LabelCardinalityMismatch);
        }
        let ghost before = self@;
        let i = find_child(&self.children, &lv);
        if i >= self.children.len() {
            return Err(ObserveError::UnknownLabelValues);
        }
        proof {
            lemma_removed_well_formed(before, lv.deep_view());
        }
        let mut children: Vec<Metric> = Vec::new();
        core::mem::swap(&mut self.children, &mut children);
        children.remove(i);
        assert(children.deep_view() =~= before.children.remove(i as int));
        self.children = children;
        Ok(())
    }

    /// The current values of the instrument as scalar samples, with the
    /// labels of `global_values` on every sample.
    pub fn collect(&self, global_values: Option<Vec<LabelPair>>) -> (r: Vec<Sample>)
        ensures
            r.deep_view() == flattened(self@.families(), label_views(global_values)),
    {
        let families = self.snapshot();
        flatten(&families, &global_values)
    }
}

impl Collector for LuaHistogramVec {
    open spec fn may_describe(&self, descriptors: Seq<DescriptorView>) -> bool {
        descriptors == seq![self@.descriptor]
    }

    fn describe(&self) -> (r: Vec<Descriptor>) {
        let mut r: Vec<Descriptor> = Vec::new();
        r.push(self.descriptor.clone());
        assert(r.deep_view() =~= seq![self@.descriptor]);
        r
    }

    open spec fn may_snapshot(&self, families: Seq<FamilyView>) -> bool {
        families == self@.families()
    }

    fn snapshot(&self) -> (r: Vec<MetricFamily>) {
        let family = MetricFamily {
            name: self.name.clone(),
            help: self.help.clone(),
            kind: MetricKind::Histogram,
            metrics: clone_metrics(&self.children),
        };
        let mut r: Vec<MetricFamily> = Vec::new();
        r.push(family);
        assert(r.deep_view() =~= self@.families());
        r
    }
}

/// `child_index` lies between `from` and the end; the metric at it has the
/// label values, and none between `from` and it has.
pub proof fn lemma_child_index(children: Seq<MetricView>, values: Seq<Seq<char>>, from: int)
    requires
        0 <= from <= children.len(),
    ensures
        from <= child_index(children, values, from) <= children.len(),
        child_index(children, values, from) < children.len() ==> label_values(
            children[child_index(children, values, from)],
        ) == values,
        forall|i: int|
            from <= i < child_index(children, values, from) ==> label_values(
                #[trigger] children[i],
            ) != values,
    decreases children.len() - from,
{
    if from >= children.len() || label_values(children[from]) == values {
    } else {
        lemma_child_index(children, values, from + 1);
    }
}

/// A histogram that has recorded one more observation is consistent, and
/// on the ladder that it was on.
pub proof fn lemma_recorded(h: HistogramView, value: u64, ladder: Seq<UpperBound>)
    requires
        consistent(h),
        on_ladder(h, ladder),
        h.sample_count < u64::MAX,
    ensures
        consistent(recorded(h, value)),
        on_ladder(recorded(h, value), ladder),
        cumulative(h) ==> cumulative(recorded(h, value)),
{
    if cumulative(h) {
        let r = recorded(h, value);
        assert forall|i: int, j: int| 0 <= i < j < r.buckets.len() implies (
        #[trigger] r.buckets[i]).upper_bound.below((#[trigger] r.buckets[j]).upper_bound)
            && r.buckets[i].cumulative_count <= r.buckets[j].cumulative_count by {
            assert(h.buckets[i].upper_bound.below(h.buckets[j].upper_bound));
            assert(h.buckets[i].cumulative_count <= h.buckets[j].cumulative_count);
            assert(h.buckets[j].cumulative_count <= h.sample_count);
        }
    }
    let r = recorded(h, value);
    assert forall|i: int| 0 <= i < r.buckets.len() implies (#[trigger] r.buckets[i]).cumulative_count
        <= r.sample_count && (r.buckets[i].upper_bound == UpperBound::Infinity
        ==> r.buckets[i].cumulative_count == r.sample_count) by {
        assert(h.buckets[i].cumulative_count <= h.sample_count);
    }
}

/// An observation with as many label values as the instrument has labels
/// leaves the instrument well formed.
pub proof fn lemma_observed_well_formed(h: HistogramVecView, value: u64, values: Seq<Seq<char>>)
    requires
        h.well_formed(),
        values.len() == h.label_names.len(),
        h.count_of(values) < u64::MAX,
    ensures
        h.observed(value, values).well_formed(),
{
    let after = h.observed(value, values);
    let i = child_index(h.children, values, 0);
    lemma_child_index(h.children, values, 0);
    if i < h.children.len() {
        assert(h.owns(h.children[i]));
        lemma_recorded(h.children[i].histogram, value, h.ladder);
        assert forall|k: int| 0 <= k < after.children.len() implies after.owns(
            #[trigger] after.children[k],
        ) by {
            if k != i {
                assert(after.children[k] == h.children[k]);
                assert(h.owns(h.children[k]));
            }
        }
        assert forall|a: int, b: int| 0 <= a < b < after.children.len() implies label_values(
            #[trigger] after.children[a],
        ) != label_values(#[trigger] after.children[b]) by {
            assert(label_values(after.children[a]) == label_values(h.children[a]));
            assert(label_values(after.children[b]) == label_values(h.children[b]));
        }
    } else {
        assert(cumulative(fresh(h.ladder)));
        lemma_recorded(fresh(h.ladder), value, h.ladder);
        let child = after.children[h.children.len() as int];
        assert(label_values(child) =~= values);
        assert forall|k: int| 0 <= k < after.children.len() implies after.owns(
            #[trigger] after.children[k],
        ) by {
            if k < h.children.len() {
                assert(after.children[k] == h.children[k]);
                assert(h.owns(h.children[k]));
            }
        }
        assert forall|a: int, b: int| 0 <= a < b < after.children.len() implies label_values(
            #[trigger] after.children[a],
        ) != label_values(#[trigger] after.children[b]) by {
            assert(after.children[a] == h.children[a]);
            if b < h.children.len() {
                assert(after.children[b] == h.children[b]);
            }
        }
    }
}

/// An instrument without one of its histograms is well formed.
pub proof fn lemma_removed_well_formed(h: HistogramVecView, values: Seq<Seq<char>>)
    requires
        h.well_formed(),
        child_index(h.children, values, 0) < h.children.len(),
    ensures
        h.removed(values).well_formed(),
{
    lemma_child_index(h.children, values, 0);
    let i = child_index(h.children, values, 0);
    let after = h.removed(values);
    assert forall|k: int| 0 <= k < after.children.len() implies after.owns(
        #[trigger] after.children[k],
    ) by {
        let o = if k < i { k } else { k + 1 };
        assert(after.children[k] == h.children[o]);
        assert(h.owns(h.children[o]));
    }
    assert forall|a: int, b: int| 0 <= a < b < after.children.len() implies label_values(
        #[trigger] after.children[a],
    ) != label_values(#[trigger] after.children[b]) by {
        let oa = if a < i { a } else { a + 1 };
        let ob = if b < i { b } else { b + 1 };
        assert(after.children[a] == h.children[oa]);
        assert(after.children[b] == h.children[ob]);
    }
}

/// The sum of the values.
pub open spec fn total(values: Seq<u64>) -> nat
    decreases values.len(),
{
    if values.len() == 0 {
        0
    } else {
        total(values.drop_last()) + values.last() as nat
    }
}

/// How many of the values the bound admits.
pub open spec fn admitted(bound: UpperBound, values: Seq<u64>) -> nat
    decreases values.len(),
{
    if values.len() == 0 {
        0
    } else {
        admitted(bound, values.drop_last()) + if bound.admits(values.last()) {
            1nat
        } else {
            0nat
        }
    }
}

/// The histogram after it has recorded the values, first to last.
pub open spec fn recorded_all(h: HistogramView, values: Seq<u64>) -> HistogramView
    decreases values.len(),
{
    if values.len() == 0 {
        h
    } else {
        recorded(recorded_all(h, values.drop_last()), values.last())
    }
}

/// A histogram that records observations counts every one of them, adds
/// every value to its sum, and counts in each bucket the values that the
/// bucket's bound admits.
pub proof fn lemma_recorded_all(h: HistogramView, values: Seq<u64>)
    requires
        consistent(h),
        h.sample_count + values.len() <= u64::MAX,
    ensures
        consistent(recorded_all(h, values)),
        recorded_all(h, values).sample_count == h.sample_count + values.len(),
        recorded_all(h, values).sample_sum == h.sample_sum + total(values),
        recorded_all(h, values).buckets.len() == h.buckets.len(),
        forall|i: int|
            0 <= i < h.buckets.len() ==> (#[trigger] recorded_all(h, values).buckets[i]).upper_bound
                == h.buckets[i].upper_bound && recorded_all(h, values).buckets[i].cumulative_count
                == h.buckets[i].cumulative_count + admitted(h.buckets[i].upper_bound, values),
    decreases values.len(),
{
    if values.len() > 0 {
        let rest = values.drop_last();
        let before = recorded_all(h, rest);
        lemma_recorded_all(h, rest);
        lemma_recorded(before, values.last(), before.buckets.map_values(|b: Bucket| b.upper_bound));
        let after = recorded_all(h, values);
        assert forall|i: int| 0 <= i < h.buckets.len() implies (#[trigger] after.buckets[i]).upper_bound
            == h.buckets[i].upper_bound && after.buckets[i].cumulative_count
            == h.buckets[i].cumulative_count + admitted(h.buckets[i].upper_bound, values) by {
            assert(before.buckets[i].cumulative_count <= before.sample_count);
        }
    }
}

/// Two lists of metrics with the same label values, metric by metric, hold
/// the metric for given label values at the same place.
pub proof fn lemma_child_index_by_labels(
    a: Seq<MetricView>,
    b: Seq<MetricView>,
    values: Seq<Seq<char>>,
    from: int,
)
    requires
        0 <= from <= a.len(),
        a.len() == b.len(),
        forall|i: int| 0 <= i < a.len() ==> label_values(#[trigger] a[i]) == label_values(b[i]),
    ensures
        child_index(a, values, from) == child_index(b, values, from),
    decreases a.len() - from,
{
    if from < a.len() {
        assert(label_values(a[from]) == label_values(b[from]));
        if label_values(a[from]) != values {
            lemma_child_index_by_labels(a, b, values, from + 1);
        }
    }
}

/// Where a list of metrics grows by one, the metric for given label values
/// stays where it was; where there was none, the new one is it if it has
/// the label values.
pub proof fn lemma_child_index_push(
    children: Seq<MetricView>,
    child: MetricView,
    values: Seq<Seq<char>>,
    from: int,
)
    requires
        0 <= from <= children.len(),
    ensures
        child_index(children.push(child), values, from) == if child_index(children, values, from)
            < children.len() || label_values(child) == values {
            child_index(children, values, from)
        } else {
            children.len() as int + 1
        },
    decreases children.len() - from,
{
    let more = children.push(child);
    lemma_child_index(children, values, from);
    if from < children.len() {
        assert(more[from] == children[from]);
        if label_values(children[from]) != values {
            lemma_child_index_push(children, child, values, from + 1);
        }
    } else {
        assert(more[from] == child);
        if label_values(child) != values {
            assert(child_index(more, values, from + 1) == from + 1);
        }
    }
}

/// The histogram for any label values is consistent, on the ladder of the
/// instrument, and counts what `count_of` says.
pub proof fn lemma_histogram_of(h: HistogramVecView, values: Seq<Seq<char>>)
    requires
        h.well_formed(),
    ensures
        consistent(h.histogram_of(values)),
        on_ladder(h.histogram_of(values), h.ladder),
        h.histogram_of(values).sample_count == h.count_of(values),
{
    lemma_child_index(h.children, values, 0);
    let i = child_index(h.children, values, 0);
    if i < h.children.len() {
        assert(h.owns(h.children[i]));
    }
}

/// An observation is recorded in the histogram for its label values, and
/// in no other.
pub proof fn lemma_observed_histograms(
    h: HistogramVecView,
    value: u64,
    values: Seq<Seq<char>>,
    others: Seq<Seq<char>>,
)
    requires
        h.well_formed(),
        values.len() == h.label_names.len(),
        others != values,
    ensures
        h.observed(value, values).histogram_of(values) == recorded(h.histogram_of(values), value),
        h.observed(value, values).histogram_of(others) == h.histogram_of(others),
{
    let after = h.observed(value, values);
    let i = child_index(h.children, values, 0);
    lemma_child_index(h.children, values, 0);
    lemma_child_index(h.children, others, 0);
    if i < h.children.len() {
        assert forall|k: int| 0 <= k < h.children.len() implies label_values(
            #[trigger] after.children[k],
        ) == label_values(h.children[k]) by {}
        lemma_child_index_by_labels(after.children, h.children, values, 0);
        lemma_child_index_by_labels(after.children, h.children, others, 0);
        let j = child_index(h.children, others, 0);
        if j < h.children.len() {
            assert(j != i);
            assert(after.children[j] == h.children[j]);
        }
    } else {
        let child = after.children[h.children.len() as int];
        assert(label_values(child) =~= values);
        lemma_child_index_push(h.children, child, values, 0);
        lemma_child_index_push(h.children, child, others, 0);
        let j = child_index(h.children, others, 0);
        if j < h.children.len() {
            assert(after.children[j] == h.children[j]);
        }
    }
}

/// What an instrument holds after a run of observations with one tuple of
/// label values: the histogram of that tuple has recorded every one of
/// them, so that it counts them all, sums them all up, and counts in every
/// bucket those that the bucket's bound admits; the histogram of every
/// other tuple is as it was.
pub proof fn lemma_observed_all(
    h: HistogramVecView,
    observations: Seq<u64>,
    values: Seq<Seq<char>>,
    others: Seq<Seq<char>>,
)
    requires
        h.well_formed(),
        values.len() == h.label_names.len(),
        h.count_of(values) + observations.len() <= u64::MAX,
        others != values,
    ensures
        h.observed_all(observations, values).well_formed(),
        h.observed_all(observations, values).label_names == h.label_names,
        h.observed_all(observations, values).ladder == h.ladder,
        h.observed_all(observations, values).histogram_of(values) == recorded_all(
            h.histogram_of(values),
            observations,
        ),
        h.observed_all(observations, values).histogram_of(others) == h.histogram_of(others),
        h.observed_all(observations, values).count_of(values) == h.count_of(values)
            + observations.len(),
        h.observed_all(observations, values).histogram_of(values).sample_sum == h.histogram_of(
            values,
        ).sample_sum + total(observations),
        forall|i: int|
            0 <= i < h.ladder.len() ==> (#[trigger] h.observed_all(
                observations,
                values,
            ).histogram_of(values).buckets[i]).cumulative_count == h.histogram_of(
                values,
            ).buckets[i].cumulative_count + admitted(h.ladder[i], observations),
    decreases observations.len(),
{
    lemma_histogram_of(h, values);
    lemma_recorded_all(h.histogram_of(values), observations);
    if observations.len() > 0 {
        let before = h.observed_all(observations.drop_last(), values);
        lemma_observed_all(h, observations.drop_last(), values, others);
        lemma_observed_well_formed(before, observations.last(), values);
        lemma_observed_histograms(before, observations.last(), values, others);
        lemma_histogram_of(before, values);
        lemma_histogram_of(h.observed_all(observations, values), values);
    }
    assert forall|i: int| 0 <= i < h.ladder.len() implies (#[trigger] h.observed_all(
        observations,
        values,
    ).histogram_of(values).buckets[i]).cumulative_count == h.histogram_of(
        values,
    ).buckets[i].cumulative_count + admitted(h.ladder[i], observations) by {
        assert(h.histogram_of(values).buckets[i].upper_bound == h.ladder[i]);
    }
}

} // verus!
