use metrics_rs::order::{metric_before, sort_by_labels};
use metrics_rs::pipeline::{add_labels, label_families, merge_families};
use metrics_rs::{
    gather_from, HistogramData, LabelPair, Metric, MetricFamily, MetricKind,
};

fn pair(name: &str, value: &str) -> LabelPair {
    LabelPair { name: name.to_string(), value: value.to_string() }
}

fn metric(values: &[&str], tag: u64, timestamp_ms: Option<i64>) -> Metric {
    Metric {
        label_pairs: values.iter().map(|v| pair("l", v)).collect(),
        histogram: HistogramData { buckets: vec![], sample_count: tag, sample_sum: 0 },
        timestamp_ms,
    }
}

fn family(name: &str, help: &str, kind: MetricKind, metrics: Vec<Metric>) -> MetricFamily {
    MetricFamily { name: name.to_string(), help: help.to_string(), kind, metrics }
}

fn tags(metrics: &[Metric]) -> Vec<u64> {
    metrics.iter().map(|m| m.histogram.sample_count).collect()
}

#[test]
fn metrics_are_ordered_by_their_label_values() {
    let a = metric(&["a", "z"], 0, None);
    let b = metric(&["b", "a"], 0, None);
    assert!(metric_before(&a, &b));
    assert!(!metric_before(&b, &a));
    assert!(!metric_before(&a, &a));
    assert!(metric_before(&metric(&["a", "a"], 0, None), &metric(&["a", "b"], 0, None)));
    assert!(!metric_before(&metric(&["a", "b"], 0, None), &metric(&["a", "a"], 0, None)));
}

#[test]
fn fewer_labels_come_first() {
    let short = metric(&["z"], 0, None);
    let long = metric(&["a", "a"], 0, None);
    assert!(metric_before(&short, &long));
    assert!(!metric_before(&long, &short));
    assert!(metric_before(&metric(&[], 0, None), &short));
}

#[test]
fn equal_labels_are_ordered_by_time_and_no_time_is_last() {
    let early = metric(&["a"], 0, Some(-5));
    let late = metric(&["a"], 0, Some(9));
    let never = metric(&["a"], 0, None);
    assert!(metric_before(&early, &late));
    assert!(!metric_before(&late, &early));
    assert!(metric_before(&late, &never));
    assert!(!metric_before(&never, &late));
    assert!(!metric_before(&never, &never));
    assert!(!metric_before(&late, &late));
    assert!(metric_before(&metric(&["a"], 0, None), &metric(&["b"], 0, Some(1))));
}

#[test]
fn sorting_keeps_the_order_of_metrics_with_the_same_place() {
    let given = vec![
        metric(&["b"], 1, None),
        metric(&["a"], 2, Some(3)),
        metric(&["b"], 3, None),
        metric(&["a", "a"], 4, None),
        metric(&["a"], 5, None),
        metric(&["a"], 6, Some(3)),
        metric(&["a"], 7, Some(1)),
        metric(&[], 8, None),
    ];
    let sorted = sort_by_labels(given);
    assert_eq!(tags(&sorted), vec![8, 7, 2, 6, 5, 1, 3, 4]);
    for i in 1..sorted.len() {
        assert!(!metric_before(&sorted[i], &sorted[i - 1]));
    }
    assert_eq!(sort_by_labels(vec![]), vec![]);
}

#[test]
fn the_first_family_of_a_name_gives_help_and_kind() {
    let merged = merge_families(vec![
        family("m", "first", MetricKind::Histogram, vec![metric(&["b"], 1, None)]),
        family("a", "x", MetricKind::Counter, vec![]),
        family("m", "second", MetricKind::Gauge, vec![metric(&["a"], 2, None)]),
        family("b", "y", MetricKind::Summary, vec![metric(&[], 3, None)]),
        family("m", "third", MetricKind::Untyped, vec![metric(&["c"], 4, None)]),
    ]);
    assert_eq!(merged.len(), 2);
    assert_eq!(merged[0].name, "b");
    assert_eq!(merged[0].kind, MetricKind::Summary);
    assert_eq!(merged[1].name, "m");
    assert_eq!(merged[1].help, "first");
    assert_eq!(merged[1].kind, MetricKind::Histogram);
    assert_eq!(tags(&merged[1].metrics), vec![1, 2, 4]);
}

#[test]
fn labels_are_added_after_the_own() {
    let labelled = add_labels(
        vec![metric(&["a"], 1, Some(4)), metric(&[], 2, None)],
        &Some(vec![pair("env", "prod"), pair("dc", "x")]),
    );
    assert_eq!(
        labelled[0].label_pairs,
        vec![pair("l", "a"), pair("env", "prod"), pair("dc", "x")]
    );
    assert_eq!(labelled[0].timestamp_ms, Some(4));
    assert_eq!(labelled[1].label_pairs, vec![pair("env", "prod"), pair("dc", "x")]);
    let plain = add_labels(vec![metric(&["a"], 1, None)], &None);
    assert_eq!(plain, vec![metric(&["a"], 1, None)]);
}

#[test]
fn what_is_exposed_is_merged_sorted_and_labelled() {
    let got = gather_from(
        vec![
            family("up", "u", MetricKind::Gauge, vec![metric(&["2"], 1, None)]),
            family("down", "d", MetricKind::Gauge, vec![
                metric(&["x", "y"], 2, None),
                metric(&["z"], 3, None),
            ]),
            family("none", "n", MetricKind::Gauge, vec![]),
            family("up", "other", MetricKind::Counter, vec![
                metric(&["10"], 4, None),
                metric(&["2"], 5, Some(0)),
            ]),
        ],
        &Some(vec![pair("env", "prod")]),
    );
    let names: Vec<&str> = got.iter().map(|f| f.name.as_str()).collect();
    assert_eq!(names, vec!["down", "up"]);
    assert_eq!(tags(&got[0].metrics), vec![3, 2]);
    assert_eq!(tags(&got[1].metrics), vec![4, 5, 1]);
    assert_eq!(got[1].help, "u");
    assert_eq!(got[1].kind, MetricKind::Gauge);
    for f in got.iter() {
        for m in f.metrics.iter() {
            assert_eq!(m.label_pairs.last(), Some(&pair("env", "prod")));
        }
    }
    assert_eq!(gather_from(vec![], &None), vec![]);
}

#[test]
fn labels_go_on_every_metric_of_every_family() {
    let got = label_families(
        vec![
            family("b", "", MetricKind::Gauge, vec![metric(&["x"], 1, None), metric(&[], 2, Some(5))]),
            family("a", "h", MetricKind::Counter, vec![]),
            family("b", "", MetricKind::Gauge, vec![metric(&["w"], 3, None)]),
        ],
        &Some(vec![pair("env", "prod")]),
    );
    let names: Vec<&str> = got.iter().map(|f| f.name.as_str()).collect();
    assert_eq!(names, vec!["b", "a", "b"]);
    assert_eq!(got[0].metrics[0].label_pairs, vec![pair("l", "x"), pair("env", "prod")]);
    assert_eq!(got[0].metrics[1].label_pairs, vec![pair("env", "prod")]);
    assert_eq!(got[0].metrics[1].timestamp_ms, Some(5));
    assert_eq!(got[1].metrics, vec![]);
    assert_eq!(got[1].help, "h");
    assert_eq!(got[1].kind, MetricKind::Counter);
    assert_eq!(got[2].metrics[0].label_pairs, vec![pair("l", "w"), pair("env", "prod")]);
    let same = label_families(vec![family("a", "", MetricKind::Gauge, vec![metric(&["x"], 1, None)])], &None);
    assert_eq!(same, vec![family("a", "", MetricKind::Gauge, vec![metric(&["x"], 1, None)])]);
}
