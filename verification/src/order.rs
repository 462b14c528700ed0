//! The order in which the metrics of one family are listed.
//!
//! Metrics with fewer labels come first. Metrics with the same number of
//! labels are ordered by their label values, label after label, and metrics
//! with the same label values by their time, those without a time last.

use vstd::prelude::*;
use crate::model::{LabelPairView, Metric, MetricView};
use crate::text::{
    first_difference, lemma_first_difference, lemma_first_difference_is, lemma_text_less_order,
    str_less, text_less,
};

verus! {

/// The label values of a metric, in the order of its labels.
pub open spec fn label_values(metric: MetricView) -> Seq<Seq<char>> {
    metric.label_pairs.map_values(|p: LabelPairView| p.value)
}

/// Whether the time `a` comes strictly before the time `b`: an earlier time
/// before a later one, and any time before none.
pub open spec fn time_less(a: Option<i64>, b: Option<i64>) -> bool {
    match (a, b) {
        (Some(x), Some(y)) => x < y,
        (Some(_), None) => true,
        (None, _) => false,
    }
}

/// Whether metric `a` is listed strictly before metric `b`.
pub open spec fn metric_less(a: MetricView, b: MetricView) -> bool {
    let x = label_values(a);
    let y = label_values(b);
    if x.len() != y.len() {
        x.len() < y.len()
    } else {
        let k = first_difference(x, y, 0);
        if k < x.len() {
            text_less(x[k], y[k])
        } else {
            time_less(a.timestamp_ms, b.timestamp_ms)
        }
    }
}

/// Whether two metrics have the same place in the order: the same label
/// values and the same time.
pub open spec fn same_place(a: MetricView, b: MetricView) -> bool {
    label_values(a) == label_values(b) && a.timestamp_ms == b.timestamp_ms
}

/// Whether no metric of `s` is listed before one that precedes it in `s`.
pub open spec fn sorted_metrics(s: Seq<MetricView>) -> bool {
    forall|i: int, j: int| 0 <= i < j < s.len() ==> !metric_less(#[trigger] s[j], #[trigger] s[i])
}

/// Of two metrics at most one is listed before the other.
pub proof fn lemma_metric_less_asymmetric(a: MetricView, b: MetricView)
    ensures
        !(metric_less(a, b) && metric_less(b, a)),
{
    let x = label_values(a);
    let y = label_values(b);
    if x.len() == y.len() {
        lemma_first_difference(x, y, 0);
        let k = first_difference(x, y, 0);
        lemma_first_difference_is(y, x, k);
        if k < x.len() {
            lemma_text_less_order(x[k], y[k], x[k]);
        }
    }
}

/// Two metrics are listed one before the other, or have the same place.
pub proof fn lemma_metric_less_total(a: MetricView, b: MetricView)
    ensures
        metric_less(a, b) || metric_less(b, a) || same_place(a, b),
        same_place(a, b) ==> !metric_less(a, b) && !metric_less(b, a),
{
    let x = label_values(a);
    let y = label_values(b);
    if x.len() == y.len() {
        lemma_first_difference(x, y, 0);
        let k = first_difference(x, y, 0);
        lemma_first_difference_is(y, x, k);
        if k < x.len() {
            lemma_text_less_order(x[k], y[k], x[k]);
        } else {
            assert(x =~= y);
        }
    }
}

/// The order of metrics is transitive.
pub proof fn lemma_metric_less_transitive(a: MetricView, b: MetricView, c: MetricView)
    requires
        metric_less(a, b),
        metric_less(b, c),
    ensures
        metric_less(a, c),
{
    let x = label_values(a);
    let y = label_values(b);
    let z = label_values(c);
    if x.len() == y.len() && y.len() == z.len() {
        lemma_first_difference(x, y, 0);
        lemma_first_difference(y, z, 0);
        let j = first_difference(x, y, 0);
        let k = first_difference(y, z, 0);
        let m = if j <= k { j } else { k };
        assert forall|i: int| 0 <= i < m implies x[i] == z[i] by {
            assert(x[i] == y[i]);
            assert(y[i] == z[i]);
        }
        if m < x.len() {
            if j < k {
                lemma_text_less_order(x[m], y[m], x[m]);
            } else if k < j {
                lemma_text_less_order(y[m], z[m], y[m]);
            } else {
                lemma_text_less_order(x[m], y[m], z[m]);
                lemma_text_less_order(x[m], z[m], x[m]);
            }
        }
        lemma_first_difference_is(x, z, m);
    }
}

/// A metric that is not listed before a second, which is not listed before
/// a third, is not listed before the third.
pub proof fn lemma_metric_not_less_transitive(a: MetricView, b: MetricView, c: MetricView)
    requires
        !metric_less(a, b),
        !metric_less(b, c),
    ensures
        !metric_less(a, c),
{
    lemma_metric_less_total(a, b);
    lemma_metric_less_total(b, c);
    if metric_less(a, c) {
        if metric_less(b, a) {
            lemma_metric_less_transitive(b, a, c);
        }
    }
}

/// The first index at or after `from` whose metric is not listed before
/// `metric`.
pub open spec fn insertion_point(metric: MetricView, sorted: Seq<MetricView>, from: int) -> int
    decreases sorted.len() - from,
{
    if from < 0 || from >= sorted.len() || !metric_less(sorted[from], metric) {
        from
    } else {
        insertion_point(metric, sorted, from + 1)
    }
}

/// The metrics of `s` in their order. Metrics with the same place keep the
/// order that they have in `s`.
pub open spec fn sort_metrics(s: Seq<MetricView>) -> Seq<MetricView>
    decreases s.len(),
{
    if s.len() == 0 {
        s
    } else {
        let rest = sort_metrics(s.drop_first());
        rest.insert(insertion_point(s.first(), rest, 0), s.first())
    }
}

/// `insertion_point` lies between `from` and the end; the metrics between
/// `from` and it are listed before `metric`, and the one at it is not.
pub proof fn lemma_insertion_point(metric: MetricView, sorted: Seq<MetricView>, from: int)
    requires
        0 <= from <= sorted.len(),
    ensures
        from <= insertion_point(metric, sorted, from) <= sorted.len(),
        forall|i: int|
            from <= i < insertion_point(metric, sorted, from) ==> metric_less(
                #[trigger] sorted[i],
                metric,
            ),
        insertion_point(metric, sorted, from) < sorted.len() ==> !metric_less(
            sorted[insertion_point(metric, sorted, from)],
            metric,
        ),
    decreases sorted.len() - from,
{
    if from >= sorted.len() || !metric_less(sorted[from], metric) {
    } else {
        lemma_insertion_point(metric, sorted, from + 1);
    }
}

/// Inserting a metric at its insertion point keeps a sorted list sorted.
pub proof fn lemma_insert_keeps_sorted(metric: MetricView, sorted: Seq<MetricView>)
    requires
        sorted_metrics(sorted),
    ensures
        sorted_metrics(sorted.insert(insertion_point(metric, sorted, 0), metric)),
{
    lemma_insertion_point(metric, sorted, 0);
    let p = insertion_point(metric, sorted, 0);
    let r = sorted.insert(p, metric);
    assert forall|i: int, j: int| 0 <= i < j < r.len() implies !metric_less(
        #[trigger] r[j],
        #[trigger] r[i],
    ) by {
        if j == p {
            assert(r[i] == sorted[i]);
            lemma_metric_less_asymmetric(sorted[i], metric);
        } else if i == p {
            assert(r[j] == sorted[j - 1]);
            if j - 1 > p {
                lemma_metric_not_less_transitive(sorted[j - 1], sorted[p], metric);
            }
        } else {
            let oi = if i < p { i } else { i - 1 };
            let oj = if j < p { j } else { j - 1 };
            assert(r[i] == sorted[oi]);
            assert(r[j] == sorted[oj]);
        }
    }
}

/// Sorting gives a sorted list of the same metrics, each as often as it was
/// given.
pub proof fn lemma_sort_metrics(s: Seq<MetricView>)
    ensures
        sorted_metrics(sort_metrics(s)),
        sort_metrics(s).to_multiset() == s.to_multiset(),
        sort_metrics(s).len() == s.len(),
    decreases s.len(),
{
    broadcast use vstd::seq_lib::group_to_multiset_ensures;

    if s.len() == 0 {
    } else {
        let rest = sort_metrics(s.drop_first());
        lemma_sort_metrics(s.drop_first());
        lemma_insertion_point(s.first(), rest, 0);
        lemma_insert_keeps_sorted(s.first(), rest);
        let p = insertion_point(s.first(), rest, 0);
        vstd::seq_lib::to_multiset_insert(rest, p, s.first());
        assert(s =~= s.drop_first().insert(0, s.first()));
        vstd::seq_lib::to_multiset_insert(s.drop_first(), 0, s.first());
    }
}

/// The test whether a metric has the place of `m`.
pub open spec fn at_place_of(m: MetricView) -> spec_fn(MetricView) -> bool {
    |x: MetricView| same_place(x, m)
}

proof fn lemma_filter_none(s: Seq<MetricView>, pred: spec_fn(MetricView) -> bool)
    requires
        forall|i: int| 0 <= i < s.len() ==> !pred(#[trigger] s[i]),
    ensures
        s.filter(pred) == Seq::<MetricView>::empty(),
    decreases s.len(),
{
    reveal(Seq::filter);
    if s.len() > 0 {
        assert forall|i: int| 0 <= i < s.drop_last().len() implies !pred(
            #[trigger] s.drop_last()[i],
        ) by {
            assert(s.drop_last()[i] == s[i]);
        }
        lemma_filter_none(s.drop_last(), pred);
        assert(!pred(s[s.len() - 1]));
    }
}

proof fn lemma_filter_one(m: MetricView, pred: spec_fn(MetricView) -> bool)
    ensures
        seq![m].filter(pred) == if pred(m) {
            seq![m]
        } else {
            Seq::<MetricView>::empty()
        },
{
    reveal_with_fuel(Seq::filter, 2);
    assert(seq![m].drop_last() =~= Seq::<MetricView>::empty());
    assert(seq![m].last() == m);
    assert(Seq::<MetricView>::empty().push(m) =~= seq![m]);
}

/// Sorting is stable: the metrics that have one place stand in the sorted
/// list in the order in which they were given.
pub proof fn lemma_sort_is_stable(s: Seq<MetricView>, m: MetricView)
    ensures
        sort_metrics(s).filter(at_place_of(m)) == s.filter(at_place_of(m)),
    decreases s.len(),
{
    if s.len() > 0 {
        let pred = at_place_of(m);
        let first = s.first();
        let rest = sort_metrics(s.drop_first());
        lemma_sort_is_stable(s.drop_first(), m);
        lemma_insertion_point(first, rest, 0);
        let p = insertion_point(first, rest, 0);
        let head = rest.subrange(0, p);
        let tail = rest.subrange(p, rest.len() as int);
        assert(rest.insert(p, first) =~= head + seq![first] + tail);
        assert(rest =~= head + tail);
        assert(s =~= seq![first] + s.drop_first());
        Seq::filter_distributes_over_add(head + seq![first], tail, pred);
        Seq::filter_distributes_over_add(head, seq![first], pred);
        Seq::filter_distributes_over_add(head, tail, pred);
        Seq::filter_distributes_over_add(seq![first], s.drop_first(), pred);
        lemma_filter_one(first, pred);
        if pred(first) {
            assert forall|i: int| 0 <= i < head.len() implies !pred(#[trigger] head[i]) by {
                assert(head[i] == rest[i]);
                assert(metric_less(rest[i], first));
                lemma_metric_less_total(head[i], first);
            }
            lemma_filter_none(head, pred);
            assert(head.filter(pred) + seq![first] + tail.filter(pred) =~= seq![first] + (
            head.filter(pred) + tail.filter(pred)));
        } else {
            assert(head.filter(pred) + Seq::<MetricView>::empty() + tail.filter(pred)
                =~= head.filter(pred) + tail.filter(pred));
            assert(Seq::<MetricView>::empty() + s.drop_first().filter(pred)
                =~= s.drop_first().filter(pred));
        }
    }
}

/// Whether `a` is listed strictly before `b`.
pub fn metric_before(a: &Metric, b: &Metric) -> (r: bool)
    ensures
        r == metric_less(a@, b@),
{
    let n = a.label_pairs.len();
    let ghost x = label_values(a@);
    let ghost y = label_values(b@);
    assert(x.len() == n && y.len() == b.label_pairs@.len());
    if n != b.label_pairs.len() {
        return n < b.label_pairs.len();
    }
    let mut i: usize = 0;
    while i < n
        invariant
            0 <= i <= n,
            n == a.label_pairs@.len(),
            n == b.label_pairs@.len(),
            x == label_values(a@),
            y == label_values(b@),
            x.len() == n,
            y.len() == n,
            first_difference(x, y, 0) == first_difference(x, y, i as int),
        decreases n - i,
    {
        assert(x[i as int] == a.label_pairs@[i as int].value@);
        assert(y[i as int] == b.label_pairs@[i as int].value@);
        let same = a.label_pairs[i].value == b.label_pairs[i].value;
        assert(same == (x[i as int] == y[i as int]));
        if !same {
            return str_less(a.label_pairs[i].value.as_str(), b.label_pairs[i].value.as_str());
        }
        i += 1;
    }
    match (a.timestamp_ms, b.timestamp_ms) {
        (Some(s), Some(t)) => s < t,
        (Some(_), None) => true,
        (None, _) => false,
    }
}

/// Sorts `metrics` into the order of their labels. Metrics with the same
/// place keep their order.
pub fn sort_by_labels(metrics: Vec<Metric>) -> (r: Vec<Metric>)
    ensures
        r.deep_view() == sort_metrics(metrics.deep_view()),
        sorted_metrics(r.deep_view()),
        r.deep_view().to_multiset() == metrics.deep_view().to_multiset(),
{
    let ghost all = metrics.deep_view();
    let mut input = metrics;
    let mut out: Vec<Metric> = Vec::new();
    assert(all.subrange(all.len() as int, all.len() as int) =~= Seq::<MetricView>::empty());
    while input.len() > 0
        invariant
            input@.len() <= all.len(),
            input.deep_view() == all.subrange(0, input@.len() as int),
            out.deep_view() == sort_metrics(all.subrange(input@.len() as int, all.len() as int)),
        decreases input@.len(),
    {
        let ghost n = input@.len() as int;
        let ghost before = input.deep_view();
        let metric = input.pop().unwrap();
        assert(metric@ == before[n - 1]);
        assert(input.deep_view() =~= all.subrange(0, n - 1));
        let ghost sorted = out.deep_view();
        let mut p: usize = 0;
        let mut searching = true;
        while searching && p < out.len()
            invariant
                0 <= p <= out@.len(),
                out.deep_view() == sorted,
                insertion_point(metric@, sorted, 0) == insertion_point(metric@, sorted, p as int),
                !searching ==> p < out@.len() && !metric_less(sorted[p as int], metric@),
            decreases out@.len() - p + (if searching { 1int } else { 0int }),
        {
            if metric_before(&out[p], &metric) {
                p += 1;
            } else {
                searching = false;
            }
        }
        out.insert(p, metric);
        proof {
            let tail = all.subrange(n - 1, all.len() as int);
            assert(tail.drop_first() =~= all.subrange(n, all.len() as int));
            assert(tail.first() == metric@);
            assert(out.deep_view() =~= sorted.insert(p as int, metric@));
        }
    }
    proof {
        assert(all.subrange(0, all.len() as int) =~= all);
        lemma_sort_metrics(all);
    }
    out
}

} // verus!
