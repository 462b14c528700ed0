use metrics_rs::{
    Collector, ConstructionError, LabelPair, LuaHistogramOpts, LuaHistogramVec, MetricKind,
    ObserveError, Sample, UpperBound,
};

fn opts(name: &str, bounds: Option<Vec<u64>>) -> LuaHistogramOpts {
    LuaHistogramOpts {
        name: name.to_string(),
        help: "what is measured".to_string(),
        buckets: bounds.map(|b| b.into_iter().map(UpperBound::Finite).collect()),
    }
}

fn strings(items: &[&str]) -> Vec<String> {
    items.iter().map(|s| s.to_string()).collect()
}

fn pair(name: &str, value: &str) -> LabelPair {
    LabelPair { name: name.to_string(), value: value.to_string() }
}

fn sample(name: &str, labels: Vec<LabelPair>, value: u128) -> Sample {
    Sample { metric_name: name.to_string(), labels, value, timestamp_ms: None }
}

#[test]
fn observations_of_1_5_9_in_buckets_2_5_10() {
    let mut h = LuaHistogramVec::new(opts("latency", Some(vec![2, 5, 10])), vec![]).unwrap();
    assert_eq!(h.observe(1, None), Ok(()));
    assert_eq!(h.observe(5, None), Ok(()));
    assert_eq!(h.observe(9, None), Ok(()));
    let expected = vec![
        sample("latency_bucket", vec![pair("le", "2")], 1),
        sample("latency_bucket", vec![pair("le", "5")], 2),
        sample("latency_bucket", vec![pair("le", "10")], 3),
        sample("latency_bucket", vec![pair("le", "+Inf")], 3),
        sample("latency_sum", vec![], 15),
        sample("latency_count", vec![], 3),
    ];
    assert_eq!(h.collect(None), expected);
}

#[test]
fn a_value_beyond_every_bound_counts_in_the_histogram_only() {
    let mut h = LuaHistogramVec::new(opts("m", Some(vec![2, 5])), vec![]).unwrap();
    h.observe(100, None).unwrap();
    h.observe(2, None).unwrap();
    let families = h.snapshot();
    assert_eq!(families.len(), 1);
    assert_eq!(families[0].name, "m");
    assert_eq!(families[0].help, "what is measured");
    assert_eq!(families[0].kind, MetricKind::Histogram);
    let histogram = &families[0].metrics[0].histogram;
    assert_eq!(histogram.sample_count, 2);
    assert_eq!(histogram.sample_sum, 102);
    assert_eq!(histogram.buckets[0].cumulative_count, 1);
    assert_eq!(histogram.buckets[1].cumulative_count, 1);
    assert_eq!(families[0].metrics[0].timestamp_ms, None);
}

#[test]
fn a_bucket_without_bound_counts_every_observation() {
    let ladder = vec![UpperBound::Finite(3), UpperBound::Infinity];
    let options = LuaHistogramOpts {
        name: "m".to_string(),
        help: "h".to_string(),
        buckets: Some(ladder),
    };
    let mut h = LuaHistogramVec::new(options, vec![]).unwrap();
    h.observe(1, None).unwrap();
    h.observe(7, None).unwrap();
    h.observe(u64::MAX, None).unwrap();
    let got = h.collect(None);
    assert_eq!(got.len(), 4);
    assert_eq!(got[0], sample("m_bucket", vec![pair("le", "3")], 1));
    assert_eq!(got[1], sample("m_bucket", vec![pair("le", "+Inf")], 3));
    assert_eq!(got[2], sample("m_sum", vec![], 8 + u64::MAX as u128));
    assert_eq!(got[3], sample("m_count", vec![], 3));
}

#[test]
fn each_tuple_of_label_values_has_its_own_histogram() {
    let mut h =
        LuaHistogramVec::new(opts("req", Some(vec![10])), strings(&["method", "code"])).unwrap();
    for _ in 0..3 {
        h.observe(4, Some(strings(&["GET", "200"]))).unwrap();
    }
    for _ in 0..5 {
        h.observe(40, Some(strings(&["POST", "500"]))).unwrap();
    }
    h.observe(1, Some(strings(&["GET", "200"]))).unwrap();
    assert_eq!(h.sample_count(&strings(&["GET", "200"])), Some(4));
    assert_eq!(h.sample_count(&strings(&["POST", "500"])), Some(5));
    assert_eq!(h.sample_count(&strings(&["GET", "500"])), Some(0));
    assert_eq!(h.sample_count(&strings(&["GET"])), None);
    let families = h.snapshot();
    let metrics = &families[0].metrics;
    assert_eq!(metrics.len(), 2);
    assert_eq!(metrics[0].label_pairs, vec![pair("method", "GET"), pair("code", "200")]);
    assert_eq!(metrics[0].histogram.sample_sum, 13);
    assert_eq!(metrics[0].histogram.buckets[0].cumulative_count, 4);
    assert_eq!(metrics[1].label_pairs, vec![pair("method", "POST"), pair("code", "500")]);
    assert_eq!(metrics[1].histogram.sample_sum, 200);
    assert_eq!(metrics[1].histogram.buckets[0].cumulative_count, 0);
}

#[test]
fn the_number_of_label_values_must_be_that_of_the_labels() {
    let mut h = LuaHistogramVec::new(opts("req", None), strings(&["method"])).unwrap();
    assert_eq!(h.observe(1, None), Err(ObserveError::LabelCardinalityMismatch));
    assert_eq!(h.observe(1, Some(vec![])), Err(ObserveError::LabelCardinalityMismatch));
    assert_eq!(
        h.observe(1, Some(strings(&["a", "b"]))),
        Err(ObserveError::LabelCardinalityMismatch)
    );
    assert_eq!(h.snapshot()[0].metrics.len(), 0);
    assert_eq!(h.observe(1, Some(strings(&["a"]))), Ok(()));

    let mut plain = LuaHistogramVec::new(opts("plain", None), vec![]).unwrap();
    assert_eq!(plain.observe(1, Some(vec![])), Ok(()));
    assert_eq!(plain.observe(1, None), Ok(()));
    assert_eq!(
        plain.observe(1, Some(strings(&["a"]))),
        Err(ObserveError::LabelCardinalityMismatch)
    );
    assert_eq!(plain.sample_count(&vec![]), Some(2));
}

#[test]
fn removing_drops_the_histogram_of_the_label_values() {
    let mut h = LuaHistogramVec::new(opts("req", None), strings(&["method"])).unwrap();
    h.observe(1, Some(strings(&["GET"]))).unwrap();
    h.observe(1, Some(strings(&["PUT"]))).unwrap();
    h.observe(1, Some(strings(&["POST"]))).unwrap();
    assert_eq!(h.remove(strings(&["PUT"])), Ok(()));
    assert_eq!(h.remove(strings(&["PUT"])), Err(ObserveError::UnknownLabelValues));
    assert_eq!(h.remove(strings(&["GET", "x"])), Err(ObserveError::LabelCardinalityMismatch));
    assert_eq!(h.remove(vec![]), Err(ObserveError::LabelCardinalityMismatch));
    let families = h.snapshot();
    let values: Vec<String> =
        families[0].metrics.iter().map(|m| m.label_pairs[0].value.clone()).collect();
    assert_eq!(values, strings(&["GET", "POST"]));
    h.observe(8, Some(strings(&["PUT"]))).unwrap();
    assert_eq!(h.sample_count(&strings(&["PUT"])), Some(1));
}

#[test]
fn without_bounds_the_instrument_has_the_default_ones() {
    let expected: Vec<u64> = vec![5, 10, 25, 50, 100, 250, 500, 1000, 2500, 5000, 10000];
    for given in [None, Some(vec![])] {
        let mut h = LuaHistogramVec::new(opts("d", given), vec![]).unwrap();
        h.observe(30, None).unwrap();
        let families = h.snapshot();
        let buckets = &families[0].metrics[0].histogram.buckets;
        let bounds: Vec<UpperBound> = buckets.iter().map(|b| b.upper_bound).collect();
        let wanted: Vec<UpperBound> = expected.iter().map(|b| UpperBound::Finite(*b)).collect();
        assert_eq!(bounds, wanted);
        let counts: Vec<u64> = buckets.iter().map(|b| b.cumulative_count).collect();
        assert_eq!(counts, vec![0, 0, 0, 1, 1, 1, 1, 1, 1, 1, 1]);
    }
}

#[test]
fn bounds_must_ascend_strictly() {
    for bad in [vec![5, 5], vec![5, 2], vec![1, 2, 3, 3], vec![2, 1, 3]] {
        let r = LuaHistogramVec::new(opts("m", Some(bad)), vec![]);
        assert_eq!(r.err(), Some(ConstructionError::InvalidBucketLadder));
    }
    let unbounded_first = LuaHistogramOpts {
        name: "m".to_string(),
        help: "h".to_string(),
        buckets: Some(vec![UpperBound::Infinity, UpperBound::Finite(1)]),
    };
    assert_eq!(
        LuaHistogramVec::new(unbounded_first, vec![]).err(),
        Some(ConstructionError::InvalidBucketLadder)
    );
    let twice_unbounded = LuaHistogramOpts {
        name: "m".to_string(),
        help: "h".to_string(),
        buckets: Some(vec![UpperBound::Infinity, UpperBound::Infinity]),
    };
    assert_eq!(
        LuaHistogramVec::new(twice_unbounded, vec![]).err(),
        Some(ConstructionError::InvalidBucketLadder)
    );
    assert!(LuaHistogramVec::new(opts("m", Some(vec![7])), vec![]).is_ok());
}

#[test]
fn the_label_le_is_reserved() {
    let r = LuaHistogramVec::new(opts("m", None), strings(&["a", "le"]));
    assert_eq!(r.err(), Some(ConstructionError::ReservedLabelName));
    let bad_ladder_first = LuaHistogramVec::new(opts("m", Some(vec![2, 1])), strings(&["le"]));
    assert_eq!(bad_ladder_first.err(), Some(ConstructionError::InvalidBucketLadder));
}

#[test]
fn name_help_and_labels_must_be_describable() {
    let bad = |name: &str, help: &str, labels: &[&str]| {
        let options =
            LuaHistogramOpts { name: name.to_string(), help: help.to_string(), buckets: None };
        LuaHistogramVec::new(options, strings(labels)).err()
    };
    assert_eq!(bad("9lives", "h", &[]), Some(ConstructionError::InvalidDescriptor));
    assert_eq!(bad("", "h", &[]), Some(ConstructionError::InvalidDescriptor));
    assert_eq!(bad("a-b", "h", &[]), Some(ConstructionError::InvalidDescriptor));
    assert_eq!(bad("ok", "", &[]), Some(ConstructionError::InvalidDescriptor));
    assert_eq!(bad("ok", "h", &["a", "a"]), Some(ConstructionError::InvalidDescriptor));
    assert_eq!(bad("ok", "h", &["a:b"]), Some(ConstructionError::InvalidDescriptor));
    assert_eq!(bad("ok", "h", &["1a"]), Some(ConstructionError::InvalidDescriptor));
    assert_eq!(bad("ok", "h", &[""]), Some(ConstructionError::InvalidDescriptor));
    assert_eq!(bad("caf\u{e9}", "h", &[]), Some(ConstructionError::InvalidDescriptor));
    assert_eq!(bad("ok", "h", &["\u{e9}"]), Some(ConstructionError::InvalidDescriptor));
    assert_eq!(bad("ok", "h", &["a b"]), Some(ConstructionError::InvalidDescriptor));
    assert_eq!(bad("ok", "h", &["a", "b", "a"]), Some(ConstructionError::InvalidDescriptor));
    assert_eq!(bad("a:b", "h", &["__name__", "A9"]), None);
    assert_eq!(bad("ok:_9", "h", &["a_1", "_b"]), None);
    assert_eq!(bad(":", "h", &["_"]), None);
}

#[test]
fn the_instrument_describes_itself_as_prometheus_does() {
    let labels = strings(&["method", "code"]);
    let h = LuaHistogramVec::new(opts("http_requests", None), labels.clone()).unwrap();
    let theirs = prometheus::core::Desc::new(
        "http_requests".to_string(),
        "what is measured".to_string(),
        labels,
        std::collections::HashMap::new(),
    )
    .unwrap();
    let ours = h.describe();
    assert_eq!(ours.len(), 1);
    assert_eq!(ours[0].id, theirs.id);
    assert_eq!(ours[0].dim_hash, theirs.dim_hash);
    assert_eq!(ours[0].fq_name, "http_requests");
    assert_eq!(h.name(), "http_requests");

    let other = LuaHistogramVec::new(opts("http_requests", None), strings(&["code"])).unwrap();
    assert_eq!(other.describe()[0].id, ours[0].id);
    assert_ne!(other.describe()[0].dim_hash, ours[0].dim_hash);
    let third = LuaHistogramVec::new(opts("http_errors", None), strings(&["code"])).unwrap();
    assert_ne!(third.describe()[0].id, ours[0].id);
}
