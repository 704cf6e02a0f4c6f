use telemetry_core::entry::{MetricIdentity, MetricValue};
use telemetry_core::expose::{format_entry, Format};
use telemetry_core::registry::{MetricKind, Registry, RegistryError};

fn identity(name: &str, metadata: &[(&str, &str)]) -> MetricIdentity {
    MetricIdentity::new(
        name.to_string(),
        metadata
            .iter()
            .map(|(k, v)| (k.to_string(), v.to_string()))
            .collect(),
    )
}

#[test]
fn fresh_registry_iterates_empty() {
    let r = Registry::new();
    assert_eq!(r.iterate().len(), 0);
}

#[test]
fn iteration_yields_one_entry_per_registration() {
    let mut r = Registry::new();
    r.register_counter(identity("blockio/operations", &[("op", "read")]))
        .unwrap();
    r.register_counter(identity("blockio/operations", &[("op", "write")]))
        .unwrap();
    r.register_counter(identity("blockio/bytes", &[("op", "read")]))
        .unwrap();
    r.register_histogram(identity("blockio/latency", &[("unit", "nanoseconds")]), 7, 64)
        .unwrap();
    assert_eq!(r.iterate().len(), 4);
}

#[test]
fn duplicate_identity_is_refused_and_state_kept() {
    let mut r = Registry::new();
    let id = identity("blockio/operations", &[("op", "read")]);
    r.register_counter(identity("blockio/operations", &[("op", "read")]))
        .unwrap();
    let second = r.register_counter(id);
    assert_eq!(second.unwrap_err(), RegistryError::DuplicateIdentity);
    assert_eq!(r.iterate().len(), 1);
}

#[test]
fn duplicate_check_covers_histograms_too() {
    let mut r = Registry::new();
    let id = identity("blockio/latency", &[]);
    r.register_histogram(identity("blockio/latency", &[]), 2, 10)
        .unwrap();
    let second = r.register_histogram(id, 2, 10);
    assert_eq!(second.unwrap_err(), RegistryError::DuplicateIdentity);
}

#[test]
fn same_name_with_different_metadata_is_a_new_metric() {
    let mut r = Registry::new();
    r.register_counter(identity("blockio/operations", &[("op", "read")]))
        .unwrap();
    let other = r.register_counter(identity("blockio/operations", &[("op", "write")]));
    assert!(other.is_ok());
    assert_eq!(r.iterate().len(), 2);
}

#[test]
fn invalid_histogram_parameters_are_refused() {
    let mut r = Registry::new();
    let e = r.register_histogram(identity("blockio/latency", &[]), 9, 8);
    assert_eq!(e.unwrap_err(), RegistryError::InvalidHistogramConfig);
    assert_eq!(r.iterate().len(), 0);
}

#[test]
fn increments_are_visible_through_handle_and_iteration() {
    let mut r = Registry::new();
    let h = r
        .register_counter(identity("blockio/bytes", &[("op", "write")]))
        .unwrap();
    assert_eq!(r.read_counter(h), 0);
    r.increment(h, 4096);
    r.increment(h, 512);
    assert_eq!(r.read_counter(h), 4608);
    let entries = r.iterate();
    assert_eq!(entries.len(), 1);
    match &entries[0].value {
        MetricValue::Counter(v) => assert_eq!(*v, 4608),
        MetricValue::Histogram(_) => panic!("expected a counter entry"),
    }
}

#[test]
fn recorded_observations_are_visible_through_iteration() {
    let mut r = Registry::new();
    let h = r
        .register_histogram(identity("blockio/latency", &[("unit", "nanoseconds")]), 2, 10)
        .unwrap();
    r.record(h, 37);
    r.record(h, 37);
    r.record(h, 900);
    let entries = r.iterate();
    assert_eq!(entries.len(), 1);
    match &entries[0].value {
        MetricValue::Histogram(pairs) => {
            let total: u64 = pairs.iter().map(|(_, c)| *c).sum();
            assert_eq!(total, 3);
            assert_eq!(pairs.iter().map(|(_, c)| *c).max().unwrap(), 2);
        }
        MetricValue::Counter(_) => panic!("expected a histogram entry"),
    }
}

#[test]
fn updates_leave_other_entries_untouched() {
    let mut r = Registry::new();
    let a = r
        .register_counter(identity("blockio/operations", &[("op", "read")]))
        .unwrap();
    let b = r
        .register_counter(identity("blockio/operations", &[("op", "write")]))
        .unwrap();
    r.increment(a, 10);
    assert_eq!(r.read_counter(a), 10);
    assert_eq!(r.read_counter(b), 0);
}

#[test]
fn unified_register_covers_both_kinds() {
    let mut r = Registry::new();
    let c = r
        .register(identity("blockio/operations", &[("op", "flush")]), MetricKind::Counter)
        .unwrap();
    let h = r
        .register(
            identity("blockio/size", &[("unit", "bytes")]),
            MetricKind::Histogram { grouping_power: 7, max_value_power: 64 },
        )
        .unwrap();
    r.increment(c, 2);
    r.record(h, 4096);
    assert_eq!(r.iterate().len(), 2);
    let dup = r.register(identity("blockio/operations", &[("op", "flush")]), MetricKind::Counter);
    assert_eq!(dup.unwrap_err(), RegistryError::DuplicateIdentity);
    let bad = r.register(
        identity("blockio/latency", &[]),
        MetricKind::Histogram { grouping_power: 64, max_value_power: 8 },
    );
    assert_eq!(bad.unwrap_err(), RegistryError::InvalidHistogramConfig);
}

#[test]
fn iterated_entries_feed_the_formatter() {
    let mut r = Registry::new();
    let h = r
        .register_counter(identity("blockio/operations", &[("op", "read"), ("unit", "operations")]))
        .unwrap();
    r.increment(h, 3);
    let entries = r.iterate();
    let simple = format_entry(&entries[0], Format::Simple).unwrap();
    assert_eq!(simple, "blockio/read/operations/total");
    let labeled = format_entry(&entries[0], Format::Prometheus).unwrap();
    assert_eq!(labeled, "blockio/operations/total{op=\"read\", unit=\"operations\"}");
}
