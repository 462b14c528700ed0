use metrics_rs::{
    flatten, Bucket, HistogramData, LabelPair, Metric, MetricFamily, MetricKind, Sample, UpperBound,
};

fn pair(name: &str, value: &str) -> LabelPair {
    LabelPair { name: name.to_string(), value: value.to_string() }
}

fn bucket(bound: u64, count: u64) -> Bucket {
    Bucket { upper_bound: UpperBound::Finite(bound), cumulative_count: count }
}

fn sample(name: &str, labels: Vec<LabelPair>, value: u128, timestamp_ms: Option<i64>) -> Sample {
    Sample { metric_name: name.to_string(), labels, value, timestamp_ms }
}

fn family(name: &str, metrics: Vec<Metric>) -> MetricFamily {
    MetricFamily {
        name: name.to_string(),
        help: "help".to_string(),
        kind: MetricKind::Histogram,
        metrics,
    }
}

#[test]
fn buckets_then_the_unbounded_bucket_then_sum_then_count() {
    let metric = Metric {
        label_pairs: vec![pair("path", "/")],
        histogram: HistogramData {
            buckets: vec![bucket(2, 1), bucket(5, 2), bucket(10, 3)],
            sample_count: 3,
            sample_sum: 15,
        },
        timestamp_ms: None,
    };
    let got = flatten(&vec![family("latency", vec![metric])], &None);
    let expected = vec![
        sample("latency_bucket", vec![pair("path", "/"), pair("le", "2")], 1, None),
        sample("latency_bucket", vec![pair("path", "/"), pair("le", "5")], 2, None),
        sample("latency_bucket", vec![pair("path", "/"), pair("le", "10")], 3, None),
        sample("latency_bucket", vec![pair("path", "/"), pair("le", "+Inf")], 3, None),
        sample("latency_sum", vec![pair("path", "/")], 15, None),
        sample("latency_count", vec![pair("path", "/")], 3, None),
    ];
    assert_eq!(got, expected);
}

#[test]
fn no_unbounded_bucket_is_added_where_the_metric_holds_one() {
    let metric = Metric {
        label_pairs: vec![],
        histogram: HistogramData {
            buckets: vec![
                bucket(1, 4),
                Bucket { upper_bound: UpperBound::Infinity, cumulative_count: 6 },
            ],
            sample_count: 6,
            sample_sum: 40,
        },
        timestamp_ms: Some(1700),
    };
    let got = flatten(&vec![family("size", vec![metric])], &None);
    let expected = vec![
        sample("size_bucket", vec![pair("le", "1")], 4, Some(1700)),
        sample("size_bucket", vec![pair("le", "+Inf")], 6, Some(1700)),
        sample("size_sum", vec![], 40, Some(1700)),
        sample("size_count", vec![], 6, Some(1700)),
    ];
    assert_eq!(got, expected);
}

#[test]
fn global_labels_follow_the_own_labels_on_every_sample() {
    let metric = Metric {
        label_pairs: vec![pair("code", "200")],
        histogram: HistogramData { buckets: vec![bucket(100, 0)], sample_count: 0, sample_sum: 0 },
        timestamp_ms: None,
    };
    let globals = Some(vec![pair("env", "prod"), pair("zone", "a")]);
    let got = flatten(&vec![family("rtt", vec![metric])], &globals);
    let own = || vec![pair("code", "200"), pair("env", "prod"), pair("zone", "a")];
    let with_le = |le: &str| {
        let mut l = own();
        l.push(pair("le", le));
        l
    };
    let expected = vec![
        sample("rtt_bucket", with_le("100"), 0, None),
        sample("rtt_bucket", with_le("+Inf"), 0, None),
        sample("rtt_sum", own(), 0, None),
        sample("rtt_count", own(), 0, None),
    ];
    assert_eq!(got, expected);
}

#[test]
fn a_metric_without_buckets_still_has_its_three_samples() {
    let metric = Metric {
        label_pairs: vec![],
        histogram: HistogramData { buckets: vec![], sample_count: 2, sample_sum: 9 },
        timestamp_ms: None,
    };
    let got = flatten(&vec![family("m", vec![metric])], &None);
    let expected = vec![
        sample("m_bucket", vec![pair("le", "+Inf")], 2, None),
        sample("m_sum", vec![], 9, None),
        sample("m_count", vec![], 2, None),
    ];
    assert_eq!(got, expected);
}

#[test]
fn families_and_metrics_are_flattened_in_their_order() {
    let metric = |value: &str, count: u64| Metric {
        label_pairs: vec![pair("k", value)],
        histogram: HistogramData { buckets: vec![], sample_count: count, sample_sum: 0 },
        timestamp_ms: None,
    };
    let families = vec![
        family("b", vec![metric("y", 1), metric("x", 2)]),
        family("empty", vec![]),
        family("a", vec![metric("z", 3)]),
    ];
    let got = flatten(&families, &None);
    let names: Vec<(String, u128)> =
        got.iter().map(|s| (s.metric_name.clone(), s.value)).collect();
    let expected: Vec<(String, u128)> = vec![
        ("b_bucket".to_string(), 1),
        ("b_sum".to_string(), 0),
        ("b_count".to_string(), 1),
        ("b_bucket".to_string(), 2),
        ("b_sum".to_string(), 0),
        ("b_count".to_string(), 2),
        ("a_bucket".to_string(), 3),
        ("a_sum".to_string(), 0),
        ("a_count".to_string(), 3),
    ];
    assert_eq!(names, expected);
    assert_eq!(got[0].labels, vec![pair("k", "y"), pair("le", "+Inf")]);
    assert_eq!(got[3].labels, vec![pair("k", "x"), pair("le", "+Inf")]);
}

#[test]
fn nothing_comes_of_no_families() {
    assert_eq!(flatten(&vec![], &Some(vec![pair("env", "prod")])), vec![]);
}
