use criterion_cbor::{
    Benchmark, BenchmarkMetadata, ChangeDirection, DirectoryEntry, EntryKind, LocalStamp,
    MeasurementShape, RawBenchmarkId, ShapeFault,
};

fn names(parts: &[&str]) -> Vec<String> {
    parts.iter().map(|part| String::from(*part)).collect()
}

fn file(path: &[&str]) -> DirectoryEntry {
    DirectoryEntry::new(names(path), EntryKind::File, false)
}

fn benchmark(measurements: &[&str]) -> Benchmark {
    let files = measurements.iter().map(|name| file(&["f", name])).collect();
    Benchmark::new(file(&["f", "benchmark.cbor"]), files).unwrap()
}

fn metadata(latest_record: &[&str]) -> BenchmarkMetadata {
    BenchmarkMetadata {
        id: RawBenchmarkId {
            group_or_function_id: String::from("f"),
            function_id_in_group: None,
            value_str: None,
            throughput: None,
        },
        latest_record: names(latest_record),
    }
}

fn shape(
    iterations: usize,
    values: usize,
    avg_values: usize,
    has_changes: bool,
    change_direction: Option<ChangeDirection>,
) -> MeasurementShape {
    MeasurementShape { iterations, values, avg_values, has_changes, change_direction }
}

const M1: &str = "measurement_240101120000.cbor";
const M2: &str = "measurement_240202120000.cbor";
const M3: &str = "measurement_240303120000.cbor";

#[test]
fn latest_datetime_is_read_off_the_pointer() {
    let record = metadata(&["target", "criterion", "data", "main", "f", M2]);
    assert_eq!(
        record.latest_local_datetime(),
        Some(LocalStamp {
            year: 2024,
            month: 2,
            day: 2,
            hour: 12,
            minute: 0,
            second: 0,
            nanosecond: 0
        })
    );
}

#[test]
fn latest_datetime_of_a_bad_pointer_is_none() {
    assert_eq!(metadata(&[]).latest_local_datetime(), None);
    assert_eq!(metadata(&["f", "benchmark.cbor"]).latest_local_datetime(), None);
    assert_eq!(metadata(&[M2, "f"]).latest_local_datetime(), None);
}

#[test]
fn pointer_to_the_newest_measurement_is_consistent() {
    let unit = benchmark(&[M3, M2, M1]);
    assert!(metadata(&["f", M3]).names_latest_of(&unit));
    assert!(metadata(&[M3]).names_latest_of(&unit));
}

#[test]
fn pointer_to_an_older_measurement_is_inconsistent() {
    let unit = benchmark(&[M3, M2, M1]);
    assert!(!metadata(&["f", M2]).names_latest_of(&unit));
    assert!(!metadata(&["f", M1]).names_latest_of(&unit));
}

#[test]
fn pointer_to_a_file_outside_the_unit_is_inconsistent() {
    let unit = benchmark(&[M2, M1]);
    assert!(!metadata(&["f", M3]).names_latest_of(&unit));
    assert!(!metadata(&["f", "benchmark.cbor"]).names_latest_of(&unit));
    assert!(!metadata(&[]).names_latest_of(&unit));
}

#[test]
fn latest_is_found_whatever_the_order_of_the_measurements() {
    let unit = benchmark(&[M1, M3, M2]);
    assert!(metadata(&["f", M3]).names_latest_of(&unit));
    assert!(!metadata(&["f", M2]).names_latest_of(&unit));
    let single = benchmark(&[M1]);
    assert!(metadata(&["f", M1]).names_latest_of(&single));
}

#[test]
fn record_with_matching_series_is_consistent() {
    assert_eq!(shape(100, 100, 100, false, None).check(), Ok(()));
    assert_eq!(shape(0, 0, 0, true, Some(ChangeDirection::Improved)).check(), Ok(()));
    assert_eq!(shape(3, 3, 3, true, Some(ChangeDirection::NoChange)).check(), Ok(()));
}

#[test]
fn record_with_unequal_series_is_out_of_shape() {
    assert_eq!(shape(100, 99, 100, false, None).check(), Err(ShapeFault::SampleCounts));
    assert_eq!(shape(100, 100, 101, false, None).check(), Err(ShapeFault::SampleCounts));
    assert_eq!(
        shape(1, 2, 3, true, Some(ChangeDirection::Regressed)).check(),
        Err(ShapeFault::SampleCounts)
    );
    assert_eq!(shape(1, 2, 2, true, None).check(), Err(ShapeFault::SampleCounts));
}

#[test]
fn change_and_direction_come_together() {
    assert_eq!(shape(5, 5, 5, true, None).check(), Err(ShapeFault::ChangeWithoutDirection));
    assert_eq!(
        shape(5, 5, 5, false, Some(ChangeDirection::NotSignificant)).check(),
        Err(ShapeFault::ChangeWithoutDirection)
    );
}
