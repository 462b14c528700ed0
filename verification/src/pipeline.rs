//! From the families that the collectors hand out to the list that is
//! exposed: families without metrics are dropped, families of one name are
//! merged, the metrics of each family are sorted, the families are listed
//! by name, and the global labels are added to every metric.

use vstd::prelude::*;
use crate::model::{
    joined_labels, label_views, FamilyView, LabelPair, LabelPairView, Metric, MetricFamily,
    MetricView,
};
use crate::order::{
    label_values, lemma_sort_metrics, metric_less, sort_by_labels, sort_metrics, sorted_metrics,
};
use crate::text::{
    first_difference, lemma_first_difference, lemma_first_difference_is, lemma_text_less_order,
    str_less, text_less,
};
use crate::vecs::reversed;

verus! {

/// The first index at or after `from` whose family has a name that is not
/// less than `name`.
pub open spec fn name_point(families: Seq<FamilyView>, name: Seq<char>, from: int) -> int
    decreases families.len() - from,
{
    if from < 0 || from >= families.len() || !text_less(families[from].name, name) {
        from
    } else {
        name_point(families, name, from + 1)
    }
}

/// The family `into` with the metrics `more` after its own.
pub open spec fn with_more_metrics(into: FamilyView, more: Seq<MetricView>) -> FamilyView {
    FamilyView { name: into.name, help: into.help, kind: into.kind, metrics: into.metrics + more }
}

/// The list `merged` after it has taken in `family`. A family without
/// metrics changes nothing. The first family of a name is put at the place
/// of its name; the metrics of a later one go after those of the first,
/// whose help and kind stay.
pub open spec fn merged_into(merged: Seq<FamilyView>, family: FamilyView) -> Seq<FamilyView> {
    let p = name_point(merged, family.name, 0);
    if family.metrics.len() == 0 {
        merged
    } else if p < merged.len() && merged[p].name == family.name {
        merged.update(p, with_more_metrics(merged[p], family.metrics))
    } else {
        merged.insert(p, family)
    }
}

/// The families of `families` merged by name, taken in first to last.
pub open spec fn merged(families: Seq<FamilyView>) -> Seq<FamilyView>
    decreases families.len(),
{
    if families.len() == 0 {
        Seq::empty()
    } else {
        merged_into(merged(families.drop_last()), families.last())
    }
}

/// The metric with the global labels after its own.
pub open spec fn with_labels(metric: MetricView, globals: Seq<LabelPairView>) -> MetricView {
    MetricView {
        label_pairs: metric.label_pairs + globals,
        histogram: metric.histogram,
        timestamp_ms: metric.timestamp_ms,
    }
}

/// The metrics with the global labels after their own.
pub open spec fn all_with_labels(metrics: Seq<MetricView>, globals: Seq<LabelPairView>) -> Seq<
    MetricView,
> {
    metrics.map_values(|m: MetricView| with_labels(m, globals))
}

/// The family with the global labels on every metric, after its own.
pub open spec fn labelled(family: FamilyView, globals: Seq<LabelPairView>) -> FamilyView {
    FamilyView {
        name: family.name,
        help: family.help,
        kind: family.kind,
        metrics: all_with_labels(family.metrics, globals),
    }
}

/// The families with the global labels on every metric, after its own.
pub open spec fn all_labelled_with(families: Seq<FamilyView>, globals: Seq<LabelPairView>) -> Seq<
    FamilyView,
> {
    families.map_values(|f: FamilyView| labelled(f, globals))
}

/// The family as it is exposed: its metrics sorted, each with the global
/// labels after its own.
pub open spec fn finished(family: FamilyView, globals: Seq<LabelPairView>) -> FamilyView {
    FamilyView {
        name: family.name,
        help: family.help,
        kind: family.kind,
        metrics: all_with_labels(sort_metrics(family.metrics), globals),
    }
}

/// What is exposed of the families that the collectors handed out.
pub open spec fn gathered(families: Seq<FamilyView>, globals: Seq<LabelPairView>) -> Seq<
    FamilyView,
> {
    merged(families).map_values(|f: FamilyView| finished(f, globals))
}

/// Whether the names of the families ascend strictly.
pub open spec fn names_ascending(families: Seq<FamilyView>) -> bool {
    forall|i: int, j: int|
        0 <= i < j < families.len() ==> text_less(
            (#[trigger] families[i]).name,
            (#[trigger] families[j]).name,
        )
}

/// Whether every family has a metric.
pub open spec fn none_empty(families: Seq<FamilyView>) -> bool {
    forall|i: int| 0 <= i < families.len() ==> (#[trigger] families[i]).metrics.len() > 0
}

/// Whether the metrics of every family are in their order.
pub open spec fn all_sorted(families: Seq<FamilyView>) -> bool {
    forall|i: int| 0 <= i < families.len() ==> sorted_metrics((#[trigger] families[i]).metrics)
}

/// Whether the labels `labels` end with the labels `globals`.
pub open spec fn ends_with(labels: Seq<LabelPairView>, globals: Seq<LabelPairView>) -> bool {
    labels.len() >= globals.len() && labels.subrange(
        labels.len() - globals.len(),
        labels.len() as int,
    ) == globals
}

/// Whether the labels of every metric of every family end with `globals`.
pub open spec fn all_labelled(families: Seq<FamilyView>, globals: Seq<LabelPairView>) -> bool {
    forall|i: int, j: int|
        0 <= i < families.len() && 0 <= j < families[i].metrics.len() ==> ends_with(
            (#[trigger] families[i].metrics[j]).label_pairs,
            globals,
        )
}

/// `name_point` lies between `from` and the end; the names between `from`
/// and it are less than `name`, and the one at it is not.
pub proof fn lemma_name_point(families: Seq<FamilyView>, name: Seq<char>, from: int)
    requires
        0 <= from <= families.len(),
    ensures
        from <= name_point(families, name, from) <= families.len(),
        forall|i: int|
            from <= i < name_point(families, name, from) ==> text_less(
                (#[trigger] families[i]).name,
                name,
            ),
        name_point(families, name, from) < families.len() ==> !text_less(
            families[name_point(families, name, from)].name,
            name,
        ),
    decreases families.len() - from,
{
    if from >= families.len() || !text_less(families[from].name, name) {
    } else {
        lemma_name_point(families, name, from + 1);
    }
}

/// Taking in one more family keeps the names ascending and every family
/// with a metric.
pub proof fn lemma_merged_into(acc: Seq<FamilyView>, family: FamilyView)
    requires
        names_ascending(acc),
        none_empty(acc),
    ensures
        names_ascending(merged_into(acc, family)),
        none_empty(merged_into(acc, family)),
{
    lemma_name_point(acc, family.name, 0);
    let p = name_point(acc, family.name, 0);
    let r = merged_into(acc, family);
    if family.metrics.len() == 0 {
    } else if p < acc.len() && acc[p].name == family.name {
        assert forall|i: int, j: int| 0 <= i < j < r.len() implies text_less(
            (#[trigger] r[i]).name,
            (#[trigger] r[j]).name,
        ) by {
            assert(r[i].name == acc[i].name);
            assert(r[j].name == acc[j].name);
        }
        assert forall|i: int| 0 <= i < r.len() implies (#[trigger] r[i]).metrics.len() > 0 by {
            if i != p {
                assert(r[i] == acc[i]);
            }
        }
    } else {
        assert forall|i: int, j: int| 0 <= i < j < r.len() implies text_less(
            (#[trigger] r[i]).name,
            (#[trigger] r[j]).name,
        ) by {
            if j == p {
                assert(r[i] == acc[i]);
            } else if i == p {
                assert(r[j] == acc[j - 1]);
                lemma_text_less_order(family.name, acc[p].name, acc[j - 1].name);
                lemma_text_less_order(acc[p].name, family.name, acc[p].name);
            } else {
                let oi = if i < p { i } else { i - 1 };
                let oj = if j < p { j } else { j - 1 };
                assert(r[i] == acc[oi]);
                assert(r[j] == acc[oj]);
            }
        }
        assert forall|i: int| 0 <= i < r.len() implies (#[trigger] r[i]).metrics.len() > 0 by {
            if i < p {
                assert(r[i] == acc[i]);
            } else if i > p {
                assert(r[i] == acc[i - 1]);
            }
        }
    }
}

/// The metrics of the families called `name`, family after family.
pub open spec fn metrics_named(families: Seq<FamilyView>, name: Seq<char>) -> Seq<MetricView>
    decreases families.len(),
{
    if families.len() == 0 {
        Seq::empty()
    } else if families.last().name == name {
        metrics_named(families.drop_last(), name) + families.last().metrics
    } else {
        metrics_named(families.drop_last(), name)
    }
}

/// The first index at or after `from` of a family called `name` that has a
/// metric.
pub open spec fn first_named(families: Seq<FamilyView>, name: Seq<char>, from: int) -> int
    decreases families.len() - from,
{
    if from < 0 || from >= families.len() || (families[from].name == name
        && families[from].metrics.len() > 0) {
        from
    } else {
        first_named(families, name, from + 1)
    }
}

/// Whether `merged` holds under `name` what `families` hold under it: where
/// a family of that name has a metric, one family with the help and kind
/// of the first such, and with the metrics of all of them, family after
/// family; else no family.
pub open spec fn merged_as_named(
    families: Seq<FamilyView>,
    merged: Seq<FamilyView>,
    name: Seq<char>,
) -> bool {
    let p = name_point(merged, name, 0);
    let first = first_named(families, name, 0);
    if first < families.len() {
        &&& p < merged.len()
        &&& merged[p].name == name
        &&& merged[p].help == families[first].help
        &&& merged[p].kind == families[first].kind
        &&& merged[p].metrics == metrics_named(families, name)
    } else {
        &&& metrics_named(families, name).len() == 0
        &&& (p >= merged.len() || merged[p].name != name)
    }
}

proof fn lemma_name_point_is(families: Seq<FamilyView>, name: Seq<char>, k: int)
    requires
        0 <= k <= families.len(),
        forall|i: int| 0 <= i < k ==> text_less((#[trigger] families[i]).name, name),
        k < families.len() ==> !text_less(families[k].name, name),
    ensures
        name_point(families, name, 0) == k,
{
    lemma_name_point(families, name, 0);
    let p = name_point(families, name, 0);
    if p < k {
        assert(text_less(families[p].name, name));
    }
}

proof fn lemma_first_named_push(
    families: Seq<FamilyView>,
    family: FamilyView,
    name: Seq<char>,
    from: int,
)
    requires
        0 <= from <= families.len(),
    ensures
        first_named(families.push(family), name, from) == if first_named(families, name, from)
            < families.len() {
            first_named(families, name, from)
        } else if family.name == name && family.metrics.len() > 0 {
            families.len() as int
        } else {
            families.len() as int + 1
        },
        from <= first_named(families, name, from) <= families.len(),
    decreases families.len() - from,
{
    let more = families.push(family);
    if from < families.len() {
        assert(more[from] == families[from]);
        if !(families[from].name == name && families[from].metrics.len() > 0) {
            lemma_first_named_push(families, family, name, from + 1);
        }
    } else {
        assert(more[from] == family);
        if !(family.name == name && family.metrics.len() > 0) {
            assert(first_named(more, name, from + 1) == from + 1);
        }
    }
}

proof fn lemma_name_point_by_names(
    a: Seq<FamilyView>,
    b: Seq<FamilyView>,
    name: Seq<char>,
    from: int,
)
    requires
        0 <= from <= a.len(),
        a.len() == b.len(),
        forall|i: int| 0 <= i < a.len() ==> (#[trigger] a[i]).name == b[i].name,
    ensures
        name_point(a, name, from) == name_point(b, name, from),
    decreases a.len() - from,
{
    if from < a.len() {
        assert(a[from].name == b[from].name);
        if text_less(a[from].name, name) {
            lemma_name_point_by_names(a, b, name, from + 1);
        }
    }
}

proof fn lemma_merged_into_by_name(
    rest: Seq<FamilyView>,
    acc: Seq<FamilyView>,
    family: FamilyView,
    name: Seq<char>,
)
    requires
        names_ascending(acc),
        merged_as_named(rest, acc, name),
        merged_as_named(rest, acc, family.name),
    ensures
        merged_as_named(rest.push(family), merged_into(acc, family), name),
{
    let all = rest.push(family);
    let m = merged_into(acc, family);
    assert(all.drop_last() =~= rest);
    assert(all.last() == family);
    lemma_first_named_push(rest, family, name, 0);
    lemma_first_named_push(rest, family, family.name, 0);
    lemma_name_point(acc, name, 0);
    lemma_name_point(acc, family.name, 0);
    let q = name_point(acc, family.name, 0);
    let p = name_point(acc, name, 0);
    let first = first_named(rest, name, 0);
    if first < rest.len() {
        assert(all[first] == rest[first]);
    }
    if family.metrics.len() == 0 {
        assert(metrics_named(all, name) =~= metrics_named(rest, name));
    } else if q < acc.len() && acc[q].name == family.name {
        assert forall|i: int| 0 <= i < m.len() implies (#[trigger] m[i]).name == acc[i].name by {}
        lemma_name_point_by_names(m, acc, name, 0);
        if name == family.name {
            assert(first < rest.len());
        } else if p < acc.len() && p != q {
            assert(m[p] == acc[p]);
        }
    } else {
        if q < acc.len() {
            lemma_text_less_order(acc[q].name, family.name, acc[q].name);
        }
        if name == family.name {
            assert forall|i: int| 0 <= i < q implies text_less((#[trigger] m[i]).name, name) by {
                assert(m[i] == acc[i]);
            }
            lemma_text_less_order(name, name, name);
            lemma_name_point_is(m, name, q);
            assert(metrics_named(rest, name).len() == 0);
            assert(metrics_named(all, name) =~= family.metrics);
        } else {
            lemma_text_less_order(name, family.name, name);
            if text_less(name, family.name) {
                if p > q {
                    assert(text_less(acc[q].name, name));
                    lemma_text_less_order(name, family.name, acc[q].name);
                    lemma_text_less_order(name, acc[q].name, name);
                }
                assert forall|i: int| 0 <= i < p implies text_less(
                    (#[trigger] m[i]).name,
                    name,
                ) by {
                    assert(m[i] == acc[i]);
                }
                if p < q {
                    assert(m[p] == acc[p]);
                } else {
                    assert(m[p] == family);
                }
                lemma_name_point_is(m, name, p);
            } else {
                assert(text_less(family.name, name));
                if p < q {
                    assert(!text_less(acc[p].name, name));
                    assert(text_less(acc[p].name, family.name));
                    lemma_text_less_order(acc[p].name, family.name, name);
                }
                assert forall|i: int| 0 <= i < p + 1 implies text_less(
                    (#[trigger] m[i]).name,
                    name,
                ) by {
                    if i < q {
                        assert(m[i] == acc[i]);
                    } else if i == q {
                        assert(m[i] == family);
                    } else {
                        assert(m[i] == acc[i - 1]);
                    }
                }
                if p < acc.len() {
                    assert(m[p + 1] == acc[p]);
                }
                lemma_name_point_is(m, name, p + 1);
            }
        }
    }
}

/// Merging gives for every name what the families hold under it: one
/// family with the metrics of all the families of that name, in the order
/// in which they were given, and with the help and kind of the first of
/// them that has a metric; and no family where none of them has a metric.
pub proof fn lemma_merged_by_name(families: Seq<FamilyView>, name: Seq<char>)
    ensures
        merged_as_named(families, merged(families), name),
    decreases families.len(),
{
    if families.len() > 0 {
        let rest = families.drop_last();
        lemma_merged(rest);
        lemma_merged_by_name(rest, name);
        lemma_merged_by_name(rest, families.last().name);
        lemma_merged_into_by_name(rest, merged(rest), families.last(), name);
        assert(rest.push(families.last()) =~= families);
    }
}

/// Merged families are listed by ascending name, no name twice, and none of
/// them is without metrics.
pub proof fn lemma_merged(families: Seq<FamilyView>)
    ensures
        names_ascending(merged(families)),
        none_empty(merged(families)),
    decreases families.len(),
{
    if families.len() > 0 {
        lemma_merged(families.drop_last());
        lemma_merged_into(merged(families.drop_last()), families.last());
    }
}

/// The global labels do not change the order of two metrics.
pub proof fn lemma_labels_keep_order(a: MetricView, b: MetricView, globals: Seq<LabelPairView>)
    ensures
        metric_less(with_labels(a, globals), with_labels(b, globals)) == metric_less(a, b),
{
    let x = label_values(a);
    let y = label_values(b);
    let g = globals.map_values(|p: LabelPairView| p.value);
    let xg = label_values(with_labels(a, globals));
    let yg = label_values(with_labels(b, globals));
    assert(xg =~= x + g);
    assert(yg =~= y + g);
    if x.len() == y.len() {
        lemma_first_difference(x, y, 0);
        let k = first_difference(x, y, 0);
        if k < x.len() {
            lemma_first_difference_is(xg, yg, k);
        } else {
            assert(x =~= y);
            lemma_first_difference_is(xg, yg, xg.len() as int);
        }
    }
}

/// What is exposed is listed by ascending name, the metrics of every family
/// are in their order, and the labels of every metric end with the global
/// labels.
pub proof fn lemma_gathered(families: Seq<FamilyView>, globals: Seq<LabelPairView>)
    ensures
        names_ascending(gathered(families, globals)),
        none_empty(gathered(families, globals)),
        all_sorted(gathered(families, globals)),
        all_labelled(gathered(families, globals), globals),
{
    lemma_merged(families);
    let m = merged(families);
    let r = gathered(families, globals);
    assert forall|i: int, j: int| 0 <= i < j < r.len() implies text_less(
        (#[trigger] r[i]).name,
        (#[trigger] r[j]).name,
    ) by {
        assert(r[i].name == m[i].name);
        assert(r[j].name == m[j].name);
    }
    assert forall|i: int| 0 <= i < r.len() implies (#[trigger] r[i]).metrics.len() > 0
        && sorted_metrics(r[i].metrics) by {
        let s = sort_metrics(m[i].metrics);
        lemma_sort_metrics(m[i].metrics);
        assert(r[i].metrics == all_with_labels(s, globals));
        assert forall|u: int, v: int| 0 <= u < v < r[i].metrics.len() implies !metric_less(
            #[trigger] r[i].metrics[v],
            #[trigger] r[i].metrics[u],
        ) by {
            lemma_labels_keep_order(s[v], s[u], globals);
        }
    }
    assert forall|i: int, j: int| 0 <= i < r.len() && 0 <= j < r[i].metrics.len() implies ends_with(
        (#[trigger] r[i].metrics[j]).label_pairs,
        globals,
    ) by {
        let s = sort_metrics(m[i].metrics);
        assert(r[i].metrics[j] == with_labels(s[j], globals));
        let l = r[i].metrics[j].label_pairs;
        assert(l.subrange(l.len() - globals.len(), l.len() as int) =~= globals);
    }
}

fn merge_one(out: &mut Vec<MetricFamily>, family: MetricFamily)
    ensures
        final(out).deep_view() == merged_into(old(out).deep_view(), family@),
{
    if family.metrics.len() == 0 {
        return ;
    }
    let ghost acc = out.deep_view();
    let mut p: usize = 0;
    let mut searching = true;
    while searching && p < out.len()
        invariant
            0 <= p <= out@.len(),
            out.deep_view() == acc,
            name_point(acc, family@.name, 0) == name_point(acc, family@.name, p as int),
            !searching ==> p < out@.len() && !text_less(acc[p as int].name, family@.name),
        decreases out@.len() - p + (if searching { 1int } else { 0int }),
    {
        if str_less(out[p].name.as_str(), family.name.as_str()) {
            p += 1;
        } else {
            searching = false;
        }
    }
    let found = p < out.len() && out[p].name == family.name;
    if found {
        let mut existing = out.remove(p);
        let mut more = family.metrics;
        let ghost first = existing@;
        let ghost added = more.deep_view();
        existing.metrics.append(&mut more);
        assert(existing.metrics.deep_view() =~= first.metrics + added);
        out.insert(p, existing);
        assert(out.deep_view() =~= acc.update(p as int, with_more_metrics(acc[p as int], added)));
    } else {
        let ghost view = family@;
        out.insert(p, family);
        assert(out.deep_view() =~= acc.insert(p as int, view));
    }
}

/// Merges `families` by name, dropping those without metrics.
pub fn merge_families(families: Vec<MetricFamily>) -> (r: Vec<MetricFamily>)
    ensures
        r.deep_view() == merged(families.deep_view()),
{
    let ghost all = families.deep_view();
    let ghost n = all.len() as int;
    let mut stack = reversed(families);
    let mut out: Vec<MetricFamily> = Vec::new();
    assert(all.subrange(0, 0) =~= Seq::<FamilyView>::empty());
    while stack.len() > 0
        invariant
            n == all.len(),
            stack@.len() <= n,
            forall|j: int| 0 <= j < stack@.len() ==> (#[trigger] stack@[j])@ == all[n - 1 - j],
            out.deep_view() == merged(all.subrange(0, n - stack@.len())),
        decreases stack@.len(),
    {
        let ghost i = n - stack@.len();
        let family = stack.pop().unwrap();
        assert(family@ == all[i]);
        merge_one(&mut out, family);
        proof {
            let upto = all.subrange(0, i + 1);
            assert(upto.drop_last() =~= all.subrange(0, i));
            assert(upto.last() == all[i]);
        }
    }
    assert(all.subrange(0, n) =~= all);
    out
}

/// Adds the global labels to every metric, after its own.
pub fn add_labels(metrics: Vec<Metric>, labels: &Option<Vec<LabelPair>>) -> (r: Vec<Metric>)
    ensures
        r.deep_view() == all_with_labels(metrics.deep_view(), label_views(*labels)),
{
    let ghost all = metrics.deep_view();
    let ghost n = all.len() as int;
    let mut stack = reversed(metrics);
    let mut out: Vec<Metric> = Vec::new();
    while stack.len() > 0
        invariant
            n == all.len(),
            stack@.len() + out@.len() == n,
            forall|j: int| 0 <= j < stack@.len() ==> (#[trigger] stack@[j])@ == all[n - 1 - j],
            forall|j: int|
                0 <= j < out@.len() ==> (#[trigger] out@[j])@ == with_labels(
                    all[j],
                    label_views(*labels),
                ),
        decreases stack@.len(),
    {
        let metric = stack.pop().unwrap();
        let label_pairs = joined_labels(&metric.label_pairs, labels);
        out.push(Metric { label_pairs, histogram: metric.histogram, timestamp_ms: metric.timestamp_ms });
    }
    assert(out.deep_view() =~= all_with_labels(all, label_views(*labels)));
    out
}

/// Adds the global labels to every metric of every family, after its own.
pub fn label_families(families: Vec<MetricFamily>, labels: &Option<Vec<LabelPair>>) -> (r: Vec<
    MetricFamily,
>)
    ensures
        r.deep_view() == all_labelled_with(families.deep_view(), label_views(*labels)),
        all_labelled(r.deep_view(), label_views(*labels)),
{
    let ghost all = families.deep_view();
    let ghost n = all.len() as int;
    let ghost globals = label_views(*labels);
    let mut stack = reversed(families);
    let mut out: Vec<MetricFamily> = Vec::new();
    while stack.len() > 0
        invariant
            n == all.len(),
            globals == label_views(*labels),
            stack@.len() + out@.len() == n,
            forall|j: int| 0 <= j < stack@.len() ==> (#[trigger] stack@[j])@ == all[n - 1 - j],
            forall|j: int| 0 <= j < out@.len() ==> (#[trigger] out@[j])@ == labelled(all[j], globals),
        decreases stack@.len(),
    {
        let family = stack.pop().unwrap();
        let metrics = add_labels(family.metrics, labels);
        out.push(MetricFamily { name: family.name, help: family.help, kind: family.kind, metrics });
    }
    proof {
        let r = out.deep_view();
        assert(r =~= all_labelled_with(all, globals));
        assert forall|i: int, j: int| 0 <= i < r.len() && 0 <= j < r[i].metrics.len() implies ends_with(
            (#[trigger] r[i].metrics[j]).label_pairs,
            globals,
        ) by {
            assert(r[i].metrics[j] == with_labels(all[i].metrics[j], globals));
            let l = r[i].metrics[j].label_pairs;
            assert(l.subrange(l.len() - globals.len(), l.len() as int) =~= globals);
        }
    }
    out
}

/// Turns the families that the collectors handed out into what is exposed:
/// merged by name, listed by name, the metrics of each in their order, and
/// the global labels on every metric.
pub fn gather_from(families: Vec<MetricFamily>, labels: &Option<Vec<LabelPair>>) -> (r: Vec<
    MetricFamily,
>)
    ensures
        r.deep_view() == gathered(families.deep_view(), label_views(*labels)),
        names_ascending(r.deep_view()),
        none_empty(r.deep_view()),
        all_sorted(r.deep_view()),
        all_labelled(r.deep_view(), label_views(*labels)),
{
    let ghost given = families.deep_view();
    let merged_families = merge_families(families);
    let ghost all = merged_families.deep_view();
    let ghost n = all.len() as int;
    let mut stack = reversed(merged_families);
    let mut out: Vec<MetricFamily> = Vec::new();
    while stack.len() > 0
        invariant
            n == all.len(),
            stack@.len() + out@.len() == n,
            forall|j: int| 0 <= j < stack@.len() ==> (#[trigger] stack@[j])@ == all[n - 1 - j],
            forall|j: int|
                0 <= j < out@.len() ==> (#[trigger] out@[j])@ == finished(
                    all[j],
                    label_views(*labels),
                ),
        decreases stack@.len(),
    {
        let family = stack.pop().unwrap();
        let metrics = add_labels(sort_by_labels(family.metrics), labels);
        out.push(MetricFamily { name: family.name, help: family.help, kind: family.kind, metrics });
    }
    proof {
        assert(out.deep_view() =~= gathered(given, label_views(*labels)));
        lemma_gathered(given, label_views(*labels));
    }
    out
}

} // verus!
