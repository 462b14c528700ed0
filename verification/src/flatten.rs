//! Flattening of histogram families into scalar samples.
//!
//! Every metric gives one `_bucket` sample for each of its buckets, in the
//! order in which it holds them, one more for the bucket without bound
//! where it holds none, then its `_sum` and its `_count`.

use vstd::prelude::*;
use vstd::string::*;
use crate::model::{
    clone_labels, joined_labels, label_views, Bucket, FamilyView, HistogramView, LabelPair,
    LabelPairView, Metric, MetricFamily, MetricView, Sample, SampleView, UpperBound,
};
use crate::text::{decimal, digit_char, render_decimal, with_suffix};

verus! {

/// The value of the `le` label for a bucket bound.
pub open spec fn le_text(bound: UpperBound) -> Seq<char> {
    match bound {
        UpperBound::Finite(n) => decimal(n as nat),
        UpperBound::Infinity => "+Inf"@,
    }
}

/// The `le` label for a bucket bound.
pub open spec fn le_pair(bound: UpperBound) -> LabelPairView {
    LabelPairView { name: "le"@, value: le_text(bound) }
}

/// The sample of one bucket of the metric called `name`, whose labels are
/// `labels`.
pub open spec fn bucket_sample(
    name: Seq<char>,
    labels: Seq<LabelPairView>,
    timestamp_ms: Option<i64>,
    bucket: Bucket,
) -> SampleView {
    SampleView {
        metric_name: name + "_bucket"@,
        labels: labels.push(le_pair(bucket.upper_bound)),
        value: bucket.cumulative_count as u128,
        timestamp_ms,
    }
}

/// Whether one of the first `upto` buckets has no bound.
pub open spec fn has_unbounded_bucket(buckets: Seq<Bucket>, upto: int) -> bool {
    exists|i: int| 0 <= i < upto && (#[trigger] buckets[i]).upper_bound == UpperBound::Infinity
}

/// The samples of the first `upto` buckets of a histogram.
pub open spec fn listed_bucket_samples(
    name: Seq<char>,
    labels: Seq<LabelPairView>,
    timestamp_ms: Option<i64>,
    buckets: Seq<Bucket>,
    upto: int,
) -> Seq<SampleView> {
    Seq::new(upto as nat, |i: int| bucket_sample(name, labels, timestamp_ms, buckets[i]))
}

/// The bucket that takes every observation of a histogram.
pub open spec fn unbounded_bucket(histogram: HistogramView) -> Bucket {
    Bucket { upper_bound: UpperBound::Infinity, cumulative_count: histogram.sample_count }
}

/// The bucket samples of a histogram: one for each bucket that it holds,
/// and one for the bucket without bound where it holds none.
pub open spec fn bucket_samples(
    name: Seq<char>,
    labels: Seq<LabelPairView>,
    timestamp_ms: Option<i64>,
    histogram: HistogramView,
) -> Seq<SampleView> {
    let buckets = histogram.buckets;
    let listed = listed_bucket_samples(name, labels, timestamp_ms, buckets, buckets.len() as int);
    if has_unbounded_bucket(buckets, buckets.len() as int) {
        listed
    } else {
        listed.push(bucket_sample(name, labels, timestamp_ms, unbounded_bucket(histogram)))
    }
}

/// The samples of one metric of the family called `name`: its buckets, its
/// sum, its count. Each carries the metric's own labels followed by the
/// global ones; a bucket sample carries its `le` label after them.
pub open spec fn metric_samples(
    name: Seq<char>,
    metric: MetricView,
    globals: Seq<LabelPairView>,
) -> Seq<SampleView> {
    let labels = metric.label_pairs + globals;
    bucket_samples(name, labels, metric.timestamp_ms, metric.histogram).push(
        SampleView {
            metric_name: name + "_sum"@,
            labels,
            value: metric.histogram.sample_sum,
            timestamp_ms: metric.timestamp_ms,
        },
    ).push(
        SampleView {
            metric_name: name + "_count"@,
            labels,
            value: metric.histogram.sample_count as u128,
            timestamp_ms: metric.timestamp_ms,
        },
    )
}

/// The samples of the metrics of one family, metric after metric.
pub open spec fn metrics_samples(
    name: Seq<char>,
    metrics: Seq<MetricView>,
    globals: Seq<LabelPairView>,
) -> Seq<SampleView>
    decreases metrics.len(),
{
    if metrics.len() == 0 {
        Seq::empty()
    } else {
        metrics_samples(name, metrics.drop_last(), globals) + metric_samples(
            name,
            metrics.last(),
            globals,
        )
    }
}

/// The samples of a list of families, family after family.
pub open spec fn flattened(families: Seq<FamilyView>, globals: Seq<LabelPairView>) -> Seq<
    SampleView,
>
    decreases families.len(),
{
    if families.len() == 0 {
        Seq::empty()
    } else {
        flattened(families.drop_last(), globals) + metrics_samples(
            families.last().name,
            families.last().metrics,
            globals,
        )
    }
}

fn le_label(bound: UpperBound) -> (r: LabelPair)
    ensures
        r@ == le_pair(bound),
{
    let value = match bound {
        UpperBound::Finite(n) => render_decimal(n),
        UpperBound::Infinity => String::from_str("+Inf"),
    };
    LabelPair { name: String::from_str("le"), value }
}

fn push_bucket_sample(
    out: &mut Vec<Sample>,
    name: &String,
    labels: &Vec<LabelPair>,
    timestamp_ms: Option<i64>,
    bucket: Bucket,
)
    ensures
        final(out).deep_view() == old(out).deep_view().push(
            bucket_sample(name@, labels.deep_view(), timestamp_ms, bucket),
        ),
{
    let mut with_le = clone_labels(labels);
    with_le.push(le_label(bucket.upper_bound));
    assert(with_le.deep_view() =~= labels.deep_view().push(le_pair(bucket.upper_bound)));
    let sample = Sample {
        metric_name: with_suffix(name, "_bucket"),
        labels: with_le,
        value: bucket.cumulative_count as u128,
        timestamp_ms,
    };
    out.push(sample);
    assert(out.deep_view() =~= old(out).deep_view().push(
        bucket_sample(name@, labels.deep_view(), timestamp_ms, bucket),
    ));
}

fn push_metric_samples(
    out: &mut Vec<Sample>,
    name: &String,
    metric: &Metric,
    globals: &Option<Vec<LabelPair>>,
)
    ensures
        final(out).deep_view() == old(out).deep_view() + metric_samples(
            name@,
            metric@,
            label_views(*globals),
        ),
{
    let labels = joined_labels(&metric.label_pairs, globals);
    let ts = metric.timestamp_ms;
    let ghost base = out.deep_view();
    let ghost buckets = metric.histogram.buckets@;
    let mut unbounded = false;
    let mut k: usize = 0;
    while k < metric.histogram.buckets.len()
        invariant
            0 <= k <= buckets.len(),
            buckets == metric.histogram.buckets@,
            ts == metric.timestamp_ms,
            out.deep_view() == base + listed_bucket_samples(
                name@,
                labels.deep_view(),
                ts,
                buckets,
                k as int,
            ),
            unbounded == has_unbounded_bucket(buckets, k as int),
        decreases buckets.len() - k,
    {
        let bucket = metric.histogram.buckets[k];
        let ghost before = out.deep_view();
        push_bucket_sample(out, name, &labels, ts, bucket);
        match bucket.upper_bound {
            UpperBound::Infinity => {
                unbounded = true;
            },
            UpperBound::Finite(_) => {},
        }
        k += 1;
        assert(out.deep_view() =~= base + listed_bucket_samples(
            name@,
            labels.deep_view(),
            ts,
            buckets,
            k as int,
        ));
        assert(unbounded == has_unbounded_bucket(buckets, k as int)) by {
            if has_unbounded_bucket(buckets, k as int) {
                let i = choose|i: int|
                    0 <= i < k && (#[trigger] buckets[i]).upper_bound == UpperBound::Infinity;
                if i < k - 1 {
                    assert(has_unbounded_bucket(buckets, k - 1));
                }
            }
            if has_unbounded_bucket(buckets, k - 1) {
                let i = choose|i: int|
                    0 <= i < k - 1 && (#[trigger] buckets[i]).upper_bound == UpperBound::Infinity;
                assert(buckets[i].upper_bound == UpperBound::Infinity);
            }
        }
    }
    if !unbounded {
        let closing = Bucket {
            upper_bound: UpperBound::Infinity,
            cumulative_count: metric.histogram.sample_count,
        };
        push_bucket_sample(out, name, &labels, ts, closing);
    }
    assert(out.deep_view() =~= base + bucket_samples(
        name@,
        labels.deep_view(),
        ts,
        metric.histogram@,
    ));
    let ghost lv = labels.deep_view();
    let ghost mid = out.deep_view();
    let sum = Sample {
        metric_name: with_suffix(name, "_sum"),
        labels: clone_labels(&labels),
        value: metric.histogram.sample_sum,
        timestamp_ms: ts,
    };
    let ghost sum_view = sum@;
    out.push(sum);
    assert(out.deep_view() =~= mid.push(sum_view));
    let count = Sample {
        metric_name: with_suffix(name, "_count"),
        labels,
        value: metric.histogram.sample_count as u128,
        timestamp_ms: ts,
    };
    let ghost count_view = count@;
    out.push(count);
    assert(out.deep_view() =~= mid.push(sum_view).push(count_view));
    assert(lv == metric@.label_pairs + label_views(*globals));
    assert(metric_samples(name@, metric@, label_views(*globals)) == bucket_samples(
        name@,
        lv,
        ts,
        metric.histogram@,
    ).push(sum_view).push(count_view));
    assert(out.deep_view() =~= base + metric_samples(name@, metric@, label_views(*globals)));
}

fn push_family_samples(
    out: &mut Vec<Sample>,
    family: &MetricFamily,
    globals: &Option<Vec<LabelPair>>,
)
    ensures
        final(out).deep_view() == old(out).deep_view() + metrics_samples(
            family@.name,
            family@.metrics,
            label_views(*globals),
        ),
{
    let ghost base = out.deep_view();
    let ghost metrics = family@.metrics;
    let mut j: usize = 0;
    assert(out.deep_view() =~= base + metrics_samples(
        family@.name,
        metrics.subrange(0, 0),
        label_views(*globals),
    ));
    while j < family.metrics.len()
        invariant
            0 <= j <= metrics.len(),
            metrics == family@.metrics,
            metrics.len() == family.metrics@.len(),
            out.deep_view() == base + metrics_samples(
                family@.name,
                metrics.subrange(0, j as int),
                label_views(*globals),
            ),
        decreases metrics.len() - j,
    {
        let ghost before = out.deep_view();
        push_metric_samples(out, &family.name, &family.metrics[j], globals);
        j += 1;
        proof {
            let upto = metrics.subrange(0, j as int);
            assert(upto.drop_last() =~= metrics.subrange(0, j - 1));
            assert(upto.last() == family.metrics@[j - 1]@);
            assert(out.deep_view() =~= base + metrics_samples(
                family@.name,
                upto,
                label_views(*globals),
            ));
        }
    }
    assert(metrics.subrange(0, j as int) =~= metrics);
}

/// Flattens `families` into scalar samples. The labels of `global_values`
/// are added to every sample, after the metric's own.
pub fn flatten(families: &Vec<MetricFamily>, global_values: &Option<Vec<LabelPair>>) -> (r: Vec<
    Sample,
>)
    ensures
        r.deep_view() == flattened(families.deep_view(), label_views(*global_values)),
{
    let mut out: Vec<Sample> = Vec::new();
    let ghost all = families.deep_view();
    let mut i: usize = 0;
    assert(out.deep_view() =~= flattened(all.subrange(0, 0), label_views(*global_values)));
    while i < families.len()
        invariant
            0 <= i <= all.len(),
            all == families.deep_view(),
            all.len() == families@.len(),
            out.deep_view() == flattened(all.subrange(0, i as int), label_views(*global_values)),
        decreases all.len() - i,
    {
        push_family_samples(&mut out, &families[i], global_values);
        i += 1;
        proof {
            let upto = all.subrange(0, i as int);
            assert(upto.drop_last() =~= all.subrange(0, i - 1));
            assert(upto.last() == families@[i - 1]@);
        }
    }
    assert(all.subrange(0, i as int) =~= all);
    out
}

/// A decimal numeral starts with a digit.
pub proof fn lemma_decimal_starts_with_digit(n: nat)
    ensures
        decimal(n).len() > 0,
        exists|d: nat| d < 10 && decimal(n)[0] == #[trigger] digit_char(d),
    decreases n,
{
    if n < 10 {
        assert(decimal(n)[0] == digit_char(n));
    } else {
        lemma_decimal_starts_with_digit(n / 10);
        let d = choose|d: nat| d < 10 && decimal(n / 10)[0] == #[trigger] digit_char(d);
        assert(decimal(n)[0] == digit_char(d));
    }
}

/// Only the bucket without bound has the `le` label `+Inf`.
pub proof fn lemma_le_text_of_unbounded(bound: UpperBound)
    ensures
        le_text(bound) == "+Inf"@ <==> bound == UpperBound::Infinity,
{
    reveal_strlit("+Inf");
    match bound {
        UpperBound::Finite(n) => {
            lemma_decimal_starts_with_digit(n as nat);
            assert("+Inf"@[0] == '+');
        },
        UpperBound::Infinity => {},
    }
}

/// Whether every bucket without bound counts as much as the histogram.
pub open spec fn unbounded_counts_all(histogram: HistogramView) -> bool {
    forall|k: int|
        0 <= k < histogram.buckets.len() && (#[trigger] histogram.buckets[k]).upper_bound
            == UpperBound::Infinity ==> histogram.buckets[k].cumulative_count
            == histogram.sample_count
}

/// Whether the sample carries the `le` label of the bucket without bound.
pub open spec fn is_unbounded_sample(sample: SampleView) -> bool {
    sample.labels.len() > 0 && sample.labels.last() == le_pair(UpperBound::Infinity)
}

/// Whether `samples` are laid out as the samples of `metric` are: bucket
/// samples with an `le` label as their last, one of them for the bucket
/// without bound; then the sum; then the count. Every sample has the
/// metric's own labels and then the global ones as its first labels. Where
/// every bucket without bound counts as much as the histogram, every sample
/// for such a bucket has the value of the count.
pub open spec fn laid_out(
    name: Seq<char>,
    metric: MetricView,
    globals: Seq<LabelPairView>,
    samples: Seq<SampleView>,
) -> bool {
    let n = samples.len() - 2;
    let labels = metric.label_pairs + globals;
    &&& n >= 1
    &&& forall|i: int|
        0 <= i < n ==> (#[trigger] samples[i]).metric_name == name + "_bucket"@
            && samples[i].labels.len() == labels.len() + 1 && samples[i].labels.drop_last()
            == labels && samples[i].labels.last().name == "le"@
    &&& exists|i: int| 0 <= i < n && is_unbounded_sample(#[trigger] samples[i])
    &&& samples[n].metric_name == name + "_sum"@
    &&& samples[n].labels == labels
    &&& samples[n].value == metric.histogram.sample_sum
    &&& samples[n + 1].metric_name == name + "_count"@
    &&& samples[n + 1].labels == labels
    &&& samples[n + 1].value == metric.histogram.sample_count
    &&& unbounded_counts_all(metric.histogram) ==> forall|i: int|
        0 <= i < n && is_unbounded_sample(#[trigger] samples[i]) ==> samples[i].value
            == samples[n + 1].value
}

/// The samples of a metric are laid out as `laid_out` says: in particular,
/// the global labels are on every sample, and the sample of the bucket
/// without bound is there, whether the metric holds that bucket or not,
/// and has the value of the count.
pub proof fn lemma_metric_samples(name: Seq<char>, metric: MetricView, globals: Seq<LabelPairView>)
    ensures
        laid_out(name, metric, globals, metric_samples(name, metric, globals)),
{
    let h = metric.histogram;
    let labels = metric.label_pairs + globals;
    let ts = metric.timestamp_ms;
    let all = metric_samples(name, metric, globals);
    let b = bucket_samples(name, labels, ts, h);
    let n = h.buckets.len() as int;
    assert(all.len() == b.len() + 2);
    assert forall|i: int| 0 <= i < b.len() implies all[i] == b[i] by {}
    assert forall|i: int| 0 <= i < n implies b[i] == bucket_sample(
        name,
        labels,
        ts,
        #[trigger] h.buckets[i],
    ) by {}
    assert forall|i: int| 0 <= i < all.len() - 2 implies (#[trigger] all[i]).metric_name == name
        + "_bucket"@ && all[i].labels.len() == labels.len() + 1 && all[i].labels.drop_last()
        == labels && all[i].labels.last().name == "le"@ by {
        assert(all[i] == b[i]);
        let bucket = if i < n {
            h.buckets[i]
        } else {
            unbounded_bucket(h)
        };
        assert(b[i] == bucket_sample(name, labels, ts, bucket));
        assert(labels.push(le_pair(bucket.upper_bound)).drop_last() =~= labels);
    }
    if has_unbounded_bucket(h.buckets, n) {
        let k = choose|k: int|
            0 <= k < n && (#[trigger] h.buckets[k]).upper_bound == UpperBound::Infinity;
        assert(all[k] == b[k]);
        assert(b[k] == bucket_sample(name, labels, ts, h.buckets[k]));
        assert(is_unbounded_sample(all[k]));
    } else {
        assert(all[n] == b[n]);
        assert(is_unbounded_sample(all[n]));
    }
    if unbounded_counts_all(h) {
        assert forall|i: int|
            0 <= i < all.len() - 2 && is_unbounded_sample(#[trigger] all[i]) implies all[i].value
            == h.sample_count by {
            assert(all[i] == b[i]);
            if i < n {
                assert(b[i] == bucket_sample(name, labels, ts, h.buckets[i]));
                lemma_le_text_of_unbounded(h.buckets[i].upper_bound);
            }
        }
    }
}

} // verus!
