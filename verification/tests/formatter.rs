use telemetry_core::entry::{MetricEntry, MetricValue};
use telemetry_core::expose::{blockio_metric_formatter, format_entry, Format};

fn entry(name: &str, metadata: &[(&str, &str)]) -> MetricEntry {
    MetricEntry {
        name: name.to_string(),
        metadata: metadata
            .iter()
            .map(|(k, v)| (k.to_string(), v.to_string()))
            .collect(),
        value: MetricValue::Counter(0),
    }
}

#[test]
fn simple_operations_with_op_tag() {
    let e = entry("blockio/operations", &[("op", "read")]);
    let out = format_entry(&e, Format::Simple).unwrap();
    assert_eq!(out, "blockio/read/operations/total");
}

#[test]
fn simple_bytes_with_op_tag() {
    let e = entry("blockio/bytes", &[("op", "write"), ("unit", "bytes")]);
    let out = format_entry(&e, Format::Simple).unwrap();
    assert_eq!(out, "blockio/write/bytes/total");
}

#[test]
fn simple_without_op_tag() {
    let e = entry("blockio/latency", &[]);
    let out = format_entry(&e, Format::Simple).unwrap();
    assert_eq!(out, "blockio/latency/total");
}

#[test]
fn simple_unrelated_metadata_keeps_name() {
    let e = entry("blockio/latency", &[("unit", "nanoseconds")]);
    let out = format_entry(&e, Format::Simple).unwrap();
    assert_eq!(out, "blockio/latency/total");
}

#[test]
fn simple_generic_family_appends_op() {
    let e = entry("cpu/cycles", &[("op", "flush")]);
    let out = format_entry(&e, Format::Simple).unwrap();
    assert_eq!(out, "cpu/cycles/flush/total");
}

#[test]
fn simple_generalizes_to_other_byte_families() {
    let e = entry("net/bytes", &[("op", "read")]);
    let out = format_entry(&e, Format::Simple).unwrap();
    assert_eq!(out, "net/read/bytes/total");
}

#[test]
fn prometheus_renders_labels_in_insertion_order() {
    let e = entry("blockio/bytes", &[("op", "write"), ("unit", "bytes")]);
    let out = format_entry(&e, Format::Prometheus).unwrap();
    assert_eq!(out, "blockio/bytes/total{op=\"write\", unit=\"bytes\"}");
}

#[test]
fn prometheus_empty_metadata_has_no_label_block() {
    let e = entry("blockio/latency", &[]);
    let out = format_entry(&e, Format::Prometheus).unwrap();
    assert_eq!(out, "blockio/latency/total");
    assert!(!out.contains('{'));
    assert!(!out.contains('}'));
}

#[test]
fn prometheus_keeps_op_as_label() {
    let e = entry("blockio/operations", &[("op", "read"), ("unit", "operations")]);
    let out = format_entry(&e, Format::Prometheus).unwrap();
    assert_eq!(out, "blockio/operations/total{op=\"read\", unit=\"operations\"}");
}

#[test]
fn other_format_is_delegated() {
    let e = entry("blockio/operations", &[("op", "read")]);
    assert!(format_entry(&e, Format::Other).is_none());
}

#[test]
fn blockio_formatter_matches_format_entry() {
    let e = entry("blockio/operations", &[("op", "discard")]);
    let out = blockio_metric_formatter(&e, Format::Simple).unwrap();
    assert_eq!(out, "blockio/discard/operations/total");
    let out = blockio_metric_formatter(&e, Format::Prometheus).unwrap();
    assert_eq!(out, "blockio/operations/total{op=\"discard\"}");
    assert!(blockio_metric_formatter(&e, Format::Other).is_none());
}
