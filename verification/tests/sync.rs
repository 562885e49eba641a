use criterion_cbor::sync::database_below_cargo_root;
use criterion_cbor::{
    group_entries, Benchmark, CacheIndex, DirectoryEntry, EntryKind, MetadataAction, ModTime,
    Observation, SchemaError, ViolationKind, WalkError,
};

fn names(parts: &[&str]) -> Vec<String> {
    parts.iter().map(|part| String::from(*part)).collect()
}

fn file(path: &[&str]) -> DirectoryEntry {
    DirectoryEntry::new(names(path), EntryKind::File, false)
}

fn benchmark(dir: &str, measurements: &[&str]) -> Benchmark {
    let files = measurements.iter().map(|name| file(&[dir, name])).collect();
    Benchmark::new(file(&[dir, "benchmark.cbor"]), files).unwrap()
}

fn at(seconds: i64) -> ModTime {
    ModTime { seconds, nanos: 0 }
}

const M1: &str = "measurement_240101120000.cbor";
const M2: &str = "measurement_240202120000.cbor";
const M3: &str = "measurement_240303120000.cbor";

#[test]
fn new_index_knows_nothing() {
    let index = CacheIndex::new();
    assert!(!index.contains(&names(&["a"])));
    assert_eq!(index.modified(&names(&["a"])), None);
    assert!(!index.holds_measurement(&names(&["a"]), M1));
}

#[test]
fn load_benchmark_reads_rfc3339() {
    let mut index = CacheIndex::new();
    assert_eq!(index.load_benchmark(names(&["a"]), "2024-01-02T03:04:05+00:00"), Ok(()));
    assert_eq!(index.modified(&names(&["a"])), Some(ModTime { seconds: 1704164645, nanos: 0 }));
    assert_eq!(index.load_benchmark(names(&["b"]), "2024-01-02T03:04:05.250+01:00"), Ok(()));
    assert_eq!(
        index.modified(&names(&["b"])),
        Some(ModTime { seconds: 1704161045, nanos: 250_000_000 })
    );
    assert_eq!(index.load_benchmark(names(&["c"]), "1969-12-31T23:59:59Z"), Ok(()));
    assert_eq!(index.modified(&names(&["c"])), Some(ModTime { seconds: -1, nanos: 0 }));
}

#[test]
fn load_benchmark_rejects_other_notations() {
    let mut index = CacheIndex::new();
    assert_eq!(
        index.load_benchmark(names(&["a"]), "yesterday at noon"),
        Err(SchemaError::BadModified)
    );
    assert_eq!(
        index.load_benchmark(names(&["a"]), "2024-01-02 03:04:05"),
        Err(SchemaError::BadModified)
    );
    assert_eq!(index.load_benchmark(names(&["a"]), ""), Err(SchemaError::BadModified));
    assert!(!index.contains(&names(&["a"])));
}

#[test]
fn load_benchmark_rejects_second_row_for_a_path() {
    let mut index = CacheIndex::new();
    assert_eq!(index.load_benchmark(names(&["a", "b"]), "2024-01-02T03:04:05Z"), Ok(()));
    assert_eq!(
        index.load_benchmark(names(&["a", "b"]), "2025-01-02T03:04:05Z"),
        Err(SchemaError::DuplicateBenchmark)
    );
    assert_eq!(index.modified(&names(&["a", "b"])), Some(at(1704164645)));
    assert_eq!(
        index.record_benchmark(names(&["a", "b"]), at(5)),
        Err(SchemaError::DuplicateBenchmark)
    );
    assert_eq!(index.record_benchmark(names(&["a"]), at(5)), Ok(()));
}

#[test]
fn load_measurement_needs_its_benchmark() {
    let mut index = CacheIndex::new();
    assert_eq!(
        index.load_measurement(&names(&["a"]), String::from(M1)),
        Err(SchemaError::OrphanMeasurement)
    );
    assert_eq!(index.record_benchmark(names(&["a"]), at(1)), Ok(()));
    assert_eq!(index.load_measurement(&names(&["a"]), String::from(M1)), Ok(()));
    assert!(index.holds_measurement(&names(&["a"]), M1));
    assert!(!index.holds_measurement(&names(&["a"]), M2));
    assert!(!index.holds_measurement(&names(&["b"]), M1));
}

#[test]
fn load_measurement_rejects_a_file_named_twice() {
    let mut index = CacheIndex::new();
    assert_eq!(index.record_benchmark(names(&["a"]), at(1)), Ok(()));
    assert_eq!(index.record_benchmark(names(&["b"]), at(1)), Ok(()));
    assert_eq!(index.load_measurement(&names(&["a"]), String::from(M1)), Ok(()));
    assert_eq!(
        index.load_measurement(&names(&["a"]), String::from(M1)),
        Err(SchemaError::DuplicateMeasurement)
    );
    assert_eq!(index.load_measurement(&names(&["b"]), String::from(M1)), Ok(()));
    assert_eq!(index.modified(&names(&["a"])), Some(at(1)));
}

#[test]
fn unknown_benchmark_is_inserted_with_all_measurements() {
    let mut index = CacheIndex::new();
    let unit = benchmark("a", &[M3, M2, M1]);
    let plan = index.visit(&unit, at(10));
    assert_eq!(plan.metadata, MetadataAction::Insert);
    assert_eq!(plan.new_measurements, vec![0, 1, 2]);
    assert!(index.contains(&names(&["a"])));
    assert_eq!(index.modified(&names(&["a"])), Some(at(10)));
    assert!(index.holds_measurement(&names(&["a"]), M1));
    assert!(index.holds_measurement(&names(&["a"]), M2));
    assert!(index.holds_measurement(&names(&["a"]), M3));
}

#[test]
fn one_new_measurement_is_the_only_one_read() {
    let mut index = CacheIndex::new();
    index.record_benchmark(names(&["a"]), at(10)).unwrap();
    index.load_measurement(&names(&["a"]), String::from(M1)).unwrap();
    index.load_measurement(&names(&["a"]), String::from(M2)).unwrap();
    let unit = benchmark("a", &[M3, M2, M1]);
    let plan = index.visit(&unit, at(10));
    assert_eq!(plan.metadata, MetadataAction::Keep);
    assert_eq!(plan.new_measurements, vec![0]);
    assert!(index.holds_measurement(&names(&["a"]), M3));
}

#[test]
fn metadata_no_newer_than_the_row_is_not_read_again() {
    let mut index = CacheIndex::new();
    index.record_benchmark(names(&["a"]), ModTime { seconds: 10, nanos: 5 }).unwrap();
    let unit = benchmark("a", &[M1]);
    assert_eq!(index.plan(&unit, ModTime { seconds: 10, nanos: 5 }).metadata, MetadataAction::Keep);
    assert_eq!(index.plan(&unit, ModTime { seconds: 10, nanos: 4 }).metadata, MetadataAction::Keep);
    assert_eq!(index.plan(&unit, ModTime { seconds: 9, nanos: 9 }).metadata, MetadataAction::Keep);
    index.commit(&unit, ModTime { seconds: 9, nanos: 9 });
    assert_eq!(index.modified(&names(&["a"])), Some(ModTime { seconds: 10, nanos: 5 }));
}

#[test]
fn newer_metadata_is_read_again() {
    let mut index = CacheIndex::new();
    index.record_benchmark(names(&["a"]), ModTime { seconds: 10, nanos: 5 }).unwrap();
    index.load_measurement(&names(&["a"]), String::from(M1)).unwrap();
    let unit = benchmark("a", &[M1]);
    let plan = index.visit(&unit, ModTime { seconds: 10, nanos: 6 });
    assert_eq!(plan.metadata, MetadataAction::Overwrite);
    assert!(plan.new_measurements.is_empty());
    assert_eq!(index.modified(&names(&["a"])), Some(ModTime { seconds: 10, nanos: 6 }));
}

#[test]
fn plan_alone_changes_nothing() {
    let index = CacheIndex::new();
    let unit = benchmark("a", &[M1]);
    let plan = index.plan(&unit, at(1));
    assert_eq!(plan.metadata, MetadataAction::Insert);
    assert!(!index.contains(&names(&["a"])));
}

#[test]
fn second_pass_over_unchanged_tree_reads_nothing() {
    let mut index = CacheIndex::new();
    let unit = benchmark("a", &[M2, M1]);
    index.visit(&unit, at(10));
    let again = index.visit(&unit, at(10));
    assert_eq!(again.metadata, MetadataAction::Keep);
    assert!(again.new_measurements.is_empty());
}

#[test]
fn measurements_gone_from_disk_stay_in_the_index() {
    let mut index = CacheIndex::new();
    index.visit(&benchmark("a", &[M2, M1]), at(10));
    let plan = index.visit(&benchmark("a", &[M3]), at(10));
    assert_eq!(plan.new_measurements, vec![0]);
    assert!(index.holds_measurement(&names(&["a"]), M1));
    assert!(index.holds_measurement(&names(&["a"]), M2));
    assert!(index.holds_measurement(&names(&["a"]), M3));
}

#[test]
fn visiting_one_benchmark_leaves_the_others_alone() {
    let mut index = CacheIndex::new();
    index.visit(&benchmark("a", &[M1]), at(10));
    index.visit(&benchmark("b", &[M2]), at(20));
    assert_eq!(index.modified(&names(&["a"])), Some(at(10)));
    assert!(index.holds_measurement(&names(&["a"]), M1));
    assert!(!index.holds_measurement(&names(&["a"]), M2));
    assert_eq!(index.modified(&names(&["b"])), Some(at(20)));
}

#[test]
fn pass_over_missing_data_root_leaves_the_index_empty() {
    let items =
        group_entries(false, vec![Ok(file(&["a", M1])), Ok(file(&["a", "benchmark.cbor"]))]);
    let observed: Vec<Result<Observation, WalkError>> = items
        .into_iter()
        .map(|item| item.map(|unit| Observation { unit, modified: at(1) }))
        .collect();
    let mut index = CacheIndex::new();
    let plans = index.synchronize(observed).unwrap();
    assert!(plans.is_empty());
    assert!(!index.contains(&names(&["a"])));
}

#[test]
fn pass_plans_every_unit_in_order() {
    let mut index = CacheIndex::new();
    index.record_benchmark(names(&["b"]), at(50)).unwrap();
    index.load_measurement(&names(&["b"]), String::from(M1)).unwrap();
    let plans = index
        .synchronize(vec![
            Ok(Observation { unit: benchmark("a", &[M2, M1]), modified: at(10) }),
            Ok(Observation { unit: benchmark("b", &[M2, M1]), modified: at(60) }),
            Ok(Observation { unit: benchmark("a", &[M3, M2, M1]), modified: at(10) }),
        ])
        .unwrap();
    assert_eq!(plans.len(), 3);
    assert_eq!(plans[0].metadata, MetadataAction::Insert);
    assert_eq!(plans[0].new_measurements, vec![0, 1]);
    assert_eq!(plans[1].metadata, MetadataAction::Overwrite);
    assert_eq!(plans[1].new_measurements, vec![0]);
    assert_eq!(plans[2].metadata, MetadataAction::Keep);
    assert_eq!(plans[2].new_measurements, vec![0]);
    assert_eq!(index.modified(&names(&["b"])), Some(at(60)));
}

#[test]
fn pass_stops_at_the_first_error_and_keeps_what_came_before() {
    let failed = group_entries(true, vec![Ok(file(&["x", "benchmark.cbor"]))]).remove(0);
    let error = failed.unwrap_err();
    let mut index = CacheIndex::new();
    let outcome = index.synchronize(vec![
        Ok(Observation { unit: benchmark("a", &[M1]), modified: at(10) }),
        Err(error),
        Ok(Observation { unit: benchmark("b", &[M1]), modified: at(10) }),
    ]);
    match outcome {
        Err(WalkError::Layout(violation)) => {
            assert_eq!(violation.kind, ViolationKind::NoMeasurements)
        }
        other => panic!("expected the layout violation, found {:?}", other),
    }
    assert!(index.contains(&names(&["a"])));
    assert!(!index.contains(&names(&["b"])));
}

#[test]
fn cache_lies_beside_the_data_directory() {
    assert_eq!(database_below_cargo_root(), names(&["target", "criterion", "data.sqlite"]));
}
