use metrics_rs::{
    Bucket, Collector, Descriptor, HistogramData, LabelPair, LuaHistogramOpts, LuaHistogramVec,
    Metric, MetricFamily, MetricKind, Registry, RegistryError, UpperBound,
};

struct Fixed {
    descriptors: Vec<Descriptor>,
    families: Vec<MetricFamily>,
}

impl Collector for Fixed {
    fn describe(&self) -> Vec<Descriptor> {
        self.descriptors.clone()
    }

    fn snapshot(&self) -> Vec<MetricFamily> {
        self.families.clone()
    }
}

fn desc(id: u64, name: &str, dim_hash: u64) -> Descriptor {
    Descriptor { id, fq_name: name.to_string(), dim_hash }
}

fn describing(descriptors: Vec<Descriptor>) -> Fixed {
    Fixed { descriptors, families: vec![] }
}

fn pair(name: &str, value: &str) -> LabelPair {
    LabelPair { name: name.to_string(), value: value.to_string() }
}

fn metric(values: &[&str], count: u64, timestamp_ms: Option<i64>) -> Metric {
    Metric {
        label_pairs: values.iter().enumerate().map(|(i, v)| pair(&format!("l{}", i), v)).collect(),
        histogram: HistogramData {
            buckets: vec![Bucket { upper_bound: UpperBound::Finite(1), cumulative_count: 0 }],
            sample_count: count,
            sample_sum: 0,
        },
        timestamp_ms,
    }
}

fn family(name: &str, help: &str, kind: MetricKind, metrics: Vec<Metric>) -> MetricFamily {
    MetricFamily { name: name.to_string(), help: help.to_string(), kind, metrics }
}

fn handing_out(id: u64, families: Vec<MetricFamily>) -> Fixed {
    Fixed { descriptors: vec![desc(id, &format!("c{}", id), id)], families }
}

fn instrument(name: &str, labels: &[&str]) -> LuaHistogramVec {
    let options =
        LuaHistogramOpts { name: name.to_string(), help: "help".to_string(), buckets: None };
    LuaHistogramVec::new(options, labels.iter().map(|s| s.to_string()).collect()).unwrap()
}

#[test]
fn a_name_with_another_shape_is_inconsistent() {
    let mut r: Registry<Fixed> = Registry::new();
    assert_eq!(r.register(describing(vec![desc(1, "requests", 10)])), Ok(()));
    assert_eq!(
        r.register(describing(vec![desc(2, "requests", 11)])),
        Err(RegistryError::InconsistentMetricDescriptor)
    );
    assert_eq!(r.collector_count(), 1);
    assert!(!r.has_descriptor(2));
    assert_eq!(r.dim_hash(&"requests".to_string()), Some(10));
    assert_eq!(r.register(describing(vec![desc(2, "requests", 10)])), Ok(()));
}

#[test]
fn the_shape_of_a_name_outlives_its_collector() {
    let mut r: Registry<LuaHistogramVec> = Registry::new();
    assert_eq!(r.register(instrument("requests", &["method"])), Ok(()));
    assert_eq!(
        r.register(instrument("requests", &["code"])),
        Err(RegistryError::AlreadyRegistered)
    );
    assert_eq!(r.unregister(instrument("requests", &["method"])), Ok(()));
    assert_eq!(r.collector_count(), 0);
    assert_eq!(
        r.register(instrument("requests", &["code"])),
        Err(RegistryError::InconsistentMetricDescriptor)
    );
    assert_eq!(r.register(instrument("requests", &["method"])), Ok(()));
    assert_eq!(r.collector_count(), 1);
}

#[test]
fn registering_twice_is_refused_and_changes_nothing() {
    let mut r: Registry<Fixed> = Registry::new();
    let twice = || describing(vec![desc(7, "a", 1), desc(8, "b", 2)]);
    assert_eq!(r.register(twice()), Ok(()));
    assert_eq!(r.collector_count(), 1);
    assert_eq!(r.register(twice()), Err(RegistryError::AlreadyRegistered));
    assert_eq!(r.collector_count(), 1);
    assert!(r.has_descriptor(7));
    assert!(r.has_descriptor(8));

    let mut h: Registry<LuaHistogramVec> = Registry::new();
    assert_eq!(h.register(instrument("latency", &[])), Ok(()));
    assert_eq!(h.register(instrument("latency", &[])), Err(RegistryError::AlreadyRegistered));
    assert_eq!(h.collector_count(), 1);
}

#[test]
fn a_collector_without_descriptors_is_registered_once() {
    let mut r: Registry<Fixed> = Registry::new();
    assert_eq!(r.register(describing(vec![])), Ok(()));
    assert_eq!(r.register(describing(vec![])), Err(RegistryError::AlreadyRegistered));
    assert_eq!(r.collector_count(), 1);
    assert_eq!(r.unregister(describing(vec![])), Ok(()));
    assert_eq!(r.collector_count(), 0);
}

#[test]
fn unregistering_what_was_never_registered_changes_nothing() {
    let mut r: Registry<Fixed> = Registry::new();
    assert_eq!(r.register(describing(vec![desc(1, "a", 5)])), Ok(()));
    assert_eq!(
        r.unregister(describing(vec![desc(2, "a", 5)])),
        Err(RegistryError::NotRegistered)
    );
    assert_eq!(r.collector_count(), 1);
    assert!(r.has_descriptor(1));
    assert_eq!(r.dim_hash(&"a".to_string()), Some(5));
    assert_eq!(
        r.unregister(describing(vec![desc(3, "never", 9)])),
        Err(RegistryError::NotRegistered)
    );
    assert_eq!(r.dim_hash(&"never".to_string()), None);
}

#[test]
fn unregistering_frees_the_ids_and_keeps_the_shapes() {
    let mut r: Registry<Fixed> = Registry::new();
    let it = || describing(vec![desc(1, "a", 5), desc(2, "b", 6)]);
    assert_eq!(r.register(it()), Ok(()));
    assert_eq!(r.unregister(it()), Ok(()));
    assert_eq!(r.collector_count(), 0);
    assert!(!r.has_descriptor(1));
    assert!(!r.has_descriptor(2));
    assert_eq!(r.dim_hash(&"a".to_string()), Some(5));
    assert_eq!(r.dim_hash(&"b".to_string()), Some(6));
    assert_eq!(r.unregister(it()), Err(RegistryError::NotRegistered));
    assert_eq!(r.register(it()), Ok(()));
}

#[test]
fn a_descriptor_twice_in_one_collector_is_refused() {
    let mut r: Registry<Fixed> = Registry::new();
    assert_eq!(
        r.register(describing(vec![desc(1, "a", 5), desc(2, "b", 6), desc(1, "a", 5)])),
        Err(RegistryError::DuplicateDescriptorInCollector)
    );
    assert_eq!(r.collector_count(), 0);
    assert!(!r.has_descriptor(1));
    assert!(!r.has_descriptor(2));
    assert_eq!(r.dim_hash(&"a".to_string()), Some(5));
    assert_eq!(r.dim_hash(&"b".to_string()), Some(6));
}

#[test]
fn a_registered_descriptor_is_refused_in_another_collector() {
    let mut r: Registry<Fixed> = Registry::new();
    assert_eq!(r.register(describing(vec![desc(1, "a", 5)])), Ok(()));
    assert_eq!(
        r.register(describing(vec![desc(3, "c", 7), desc(1, "a", 5)])),
        Err(RegistryError::AlreadyRegistered)
    );
    assert_eq!(r.dim_hash(&"c".to_string()), Some(7));
    assert!(!r.has_descriptor(3));
    assert_eq!(
        r.register(describing(vec![desc(1, "a", 6)])),
        Err(RegistryError::AlreadyRegistered)
    );
}

#[test]
fn the_first_failure_in_the_order_of_the_checks_is_reported() {
    let mut r: Registry<Fixed> = Registry::new();
    assert_eq!(r.register(describing(vec![desc(1, "a", 5)])), Ok(()));
    assert_eq!(
        r.register(describing(vec![desc(2, "a", 9), desc(2, "a", 9)])),
        Err(RegistryError::InconsistentMetricDescriptor)
    );
    assert_eq!(
        r.register(describing(vec![desc(2, "b", 9), desc(2, "b", 8)])),
        Err(RegistryError::InconsistentMetricDescriptor)
    );
    assert_eq!(
        r.register(describing(vec![desc(2, "b", 9), desc(2, "b", 9)])),
        Err(RegistryError::DuplicateDescriptorInCollector)
    );
}

#[test]
fn the_id_of_a_collector_is_the_wrapping_sum_of_its_distinct_ids() {
    let mut r: Registry<Fixed> = Registry::new();
    assert_eq!(r.register(describing(vec![desc(u64::MAX, "a", 1), desc(3, "b", 1)])), Ok(()));
    assert_eq!(
        r.register(describing(vec![desc(2, "c", 1)])),
        Err(RegistryError::AlreadyRegistered)
    );
    assert_eq!(r.dim_hash(&"c".to_string()), Some(1));
    assert!(!r.has_descriptor(2));
    assert_eq!(r.register(describing(vec![desc(4, "d", 1)])), Ok(()));
    assert_eq!(
        r.unregister(describing(vec![desc(3, "x", 0), desc(u64::MAX, "y", 0), desc(3, "z", 0)])),
        Ok(())
    );
    assert!(!r.has_descriptor(3));
    assert!(!r.has_descriptor(u64::MAX));
    assert!(r.has_descriptor(4));
    assert_eq!(r.collector_count(), 1);
}

#[test]
fn gathering_merges_by_name_and_sorts() {
    let mut r: Registry<Fixed> = Registry::new();
    let first = handing_out(
        1,
        vec![
            family("zeta", "z", MetricKind::Histogram, vec![metric(&["b"], 1, None)]),
            family("alpha", "a", MetricKind::Histogram, vec![metric(&["y"], 2, None)]),
            family("hollow", "h", MetricKind::Histogram, vec![]),
        ],
    );
    let second = handing_out(
        2,
        vec![
            family("zeta", "z", MetricKind::Histogram, vec![
                metric(&["c"], 3, None),
                metric(&["a"], 4, None),
            ]),
            family("mid", "m", MetricKind::Gauge, vec![metric(&[], 5, None)]),
        ],
    );
    assert_eq!(r.register(first), Ok(()));
    assert_eq!(r.register(second), Ok(()));
    let got = r.gather();
    let names: Vec<&str> = got.iter().map(|f| f.name.as_str()).collect();
    assert_eq!(names, vec!["alpha", "mid", "zeta"]);
    assert_eq!(got[1].kind, MetricKind::Gauge);
    assert_eq!(got[1].help, "m");
    let counts: Vec<u64> = got[2].metrics.iter().map(|m| m.histogram.sample_count).collect();
    assert_eq!(counts, vec![4, 1, 3]);
    let values: Vec<&str> =
        got[2].metrics.iter().map(|m| m.label_pairs[0].value.as_str()).collect();
    assert_eq!(values, vec!["a", "b", "c"]);
    assert_eq!(got[0].metrics, vec![metric(&["y"], 2, None)]);
}

#[test]
fn gathering_asks_every_collector_every_time() {
    let mut r: Registry<LuaHistogramVec> = Registry::new();
    let mut h = instrument("latency", &["path"]);
    h.observe(7, Some(vec!["/b".to_string()])).unwrap();
    h.observe(70, Some(vec!["/a".to_string()])).unwrap();
    h.observe(700, Some(vec!["/a".to_string()])).unwrap();
    assert_eq!(r.register(h), Ok(()));
    assert_eq!(r.register(instrument("unused", &[])), Ok(()));
    for _ in 0..2 {
        let got = r.gather();
        assert_eq!(got.len(), 1);
        assert_eq!(got[0].name, "latency");
        assert_eq!(got[0].kind, MetricKind::Histogram);
        assert_eq!(got[0].metrics.len(), 2);
        assert_eq!(got[0].metrics[0].label_pairs, vec![pair("path", "/a")]);
        assert_eq!(got[0].metrics[0].histogram.sample_count, 2);
        assert_eq!(got[0].metrics[0].histogram.sample_sum, 770);
        assert_eq!(got[0].metrics[1].label_pairs, vec![pair("path", "/b")]);
        assert_eq!(got[0].metrics[1].histogram.sample_count, 1);
    }
    assert_eq!(Registry::<LuaHistogramVec>::default().gather(), vec![]);
}

#[test]
fn global_labels_go_on_every_gathered_metric() {
    let mut r: Registry<Fixed> = Registry::new();
    assert!(r.labels().is_none());
    r.set_labels(vec![pair("env", "dev")]);
    r.set_labels(vec![pair("env", "prod")]);
    assert_eq!(r.labels(), &Some(vec![pair("env", "prod")]));
    let it = handing_out(
        1,
        vec![
            family("b", "", MetricKind::Histogram, vec![metric(&["x", "y"], 1, None)]),
            family("a", "", MetricKind::Histogram, vec![
                metric(&["q"], 2, None),
                metric(&["p"], 3, None),
            ]),
        ],
    );
    assert_eq!(r.register(it), Ok(()));
    assert_eq!(
        r.register(describing(vec![desc(2, "c1", 9)])),
        Err(RegistryError::InconsistentMetricDescriptor)
    );
    let got = r.gather();
    assert_eq!(got.len(), 2);
    assert_eq!(got[0].metrics[0].label_pairs, vec![pair("l0", "p"), pair("env", "prod")]);
    assert_eq!(got[0].metrics[1].label_pairs, vec![pair("l0", "q"), pair("env", "prod")]);
    assert_eq!(
        got[1].metrics[0].label_pairs,
        vec![pair("l0", "x"), pair("l1", "y"), pair("env", "prod")]
    );
    let samples = metrics_rs::flatten(&got, &None);
    assert!(samples.iter().all(|s| s.labels.contains(&pair("env", "prod"))));
}

#[test]
fn the_registry_can_be_used_through_functions() {
    let mut r: Registry<Fixed> = Registry::new();
    let it = || handing_out(
        5,
        vec![family("a", "", MetricKind::Histogram, vec![metric(&["v"], 1, None)])],
    );
    assert_eq!(metrics_rs::registry::register(&mut r, it()), Ok(()));
    assert_eq!(
        metrics_rs::registry::register(&mut r, it()),
        Err(RegistryError::AlreadyRegistered)
    );
    metrics_rs::registry::set_labels(&mut r, vec![pair("env", "prod")]);
    let got = metrics_rs::registry::gather(&r);
    assert_eq!(got.len(), 1);
    assert_eq!(got[0].metrics[0].label_pairs, vec![pair("l0", "v"), pair("env", "prod")]);
    assert_eq!(metrics_rs::registry::unregister(&mut r, it()), Ok(()));
    assert_eq!(
        metrics_rs::registry::unregister(&mut r, it()),
        Err(RegistryError::NotRegistered)
    );
    assert_eq!(metrics_rs::registry::gather(&r), vec![]);
}
