use criterion::Throughput;
use criterion_cbor::{make_filename_safe, BenchmarkId, MemberId, RawBenchmarkId};

fn raw(
    function_id: Option<&str>,
    value_str: Option<&str>,
    throughput: Option<Throughput>,
) -> RawBenchmarkId {
    RawBenchmarkId {
        group_or_function_id: String::from("alpha"),
        function_id_in_group: function_id.map(String::from),
        value_str: value_str.map(String::from),
        throughput,
    }
}

fn names(parts: &[&str]) -> Vec<String> {
    parts.iter().map(|part| String::from(*part)).collect()
}

#[test]
fn decode_plain_function() {
    let record = raw(None, None, None);
    assert_eq!(record.decode(), BenchmarkId::BenchFunction("alpha"));
}

#[test]
fn decode_throughput_without_group_is_flagged() {
    let record = raw(None, None, Some(Throughput::Bytes(64)));
    assert_eq!(
        record.decode(),
        BenchmarkId::ThroughputWithoutGroup {
            function_id: "alpha",
            throughput: Throughput::Bytes(64),
        }
    );
}

#[test]
fn decode_parameter_with_throughput_is_grouped() {
    let record = raw(None, Some("1024"), Some(Throughput::Elements(1024)));
    assert_eq!(
        record.decode(),
        BenchmarkId::InGroup {
            group_id: "alpha",
            member_id: MemberId::FromParameter("1024"),
            throughput: Some(Throughput::Elements(1024)),
        }
    );
}

#[test]
fn decode_parameter_without_throughput_is_ambiguous() {
    let record = raw(None, Some("1024"), None);
    assert_eq!(
        record.decode(),
        BenchmarkId::AmbiguousFromParameter { group_or_function_id: "alpha", parameter: "1024" }
    );
}

#[test]
fn decode_member_name_without_throughput() {
    let record = raw(Some("sum"), None, None);
    assert_eq!(
        record.decode(),
        BenchmarkId::InGroup {
            group_id: "alpha",
            member_id: MemberId::String("sum"),
            throughput: None,
        }
    );
}

#[test]
fn decode_member_name_with_throughput() {
    let record = raw(Some("sum"), None, Some(Throughput::BytesDecimal(7)));
    assert_eq!(
        record.decode(),
        BenchmarkId::InGroup {
            group_id: "alpha",
            member_id: MemberId::String("sum"),
            throughput: Some(Throughput::BytesDecimal(7)),
        }
    );
}

#[test]
fn decode_full_member_without_throughput() {
    let record = raw(Some("sum"), Some("1024"), None);
    assert_eq!(
        record.decode(),
        BenchmarkId::InGroup {
            group_id: "alpha",
            member_id: MemberId::Full { function_name: "sum", parameter: "1024" },
            throughput: None,
        }
    );
}

#[test]
fn decode_full_member_with_throughput() {
    let record = raw(Some("sum"), Some("1024"), Some(Throughput::Bytes(1)));
    assert_eq!(
        record.decode(),
        BenchmarkId::InGroup {
            group_id: "alpha",
            member_id: MemberId::Full { function_name: "sum", parameter: "1024" },
            throughput: Some(Throughput::Bytes(1)),
        }
    );
}

#[test]
fn decode_keeps_strings_as_they_are() {
    let record = RawBenchmarkId {
        group_or_function_id: String::from("Mixed Case/Group"),
        function_id_in_group: Some(String::from("  padded ")),
        value_str: None,
        throughput: None,
    };
    assert_eq!(
        record.decode(),
        BenchmarkId::InGroup {
            group_id: "Mixed Case/Group",
            member_id: MemberId::String("  padded "),
            throughput: None,
        }
    );
}

#[test]
fn clone_of_record_and_identity_are_equal() {
    let record = raw(Some("sum"), Some("1024"), Some(Throughput::Bytes(9)));
    let copy = record.clone();
    assert_eq!(copy, record);
    assert_eq!(record.decode().clone(), record.decode());
}

#[test]
fn filename_safe_replaces_each_unsafe_character() {
    assert_eq!(make_filename_safe("a?b\"c/d\\e*f<g>h:i|j^k"), "a_b_c_d_e_f_g_h_i_j_k");
}

#[test]
fn filename_safe_keeps_other_characters() {
    assert_eq!(make_filename_safe("Vec<u8>::push é.1"), "Vec_u8___push é.1");
    assert_eq!(make_filename_safe(""), "");
}

#[test]
fn filename_safe_is_idempotent() {
    let once = make_filename_safe("x::y/z");
    assert_eq!(make_filename_safe(&once), once);
}

#[test]
fn expected_path_has_one_component_per_name() {
    assert_eq!(raw(None, None, None).decode().expected_path(), names(&["alpha"]));
    assert_eq!(raw(Some("sum"), None, None).decode().expected_path(), names(&["alpha", "sum"]));
    assert_eq!(
        raw(None, Some("8"), Some(Throughput::Bytes(8))).decode().expected_path(),
        names(&["alpha", "8"])
    );
    assert_eq!(
        raw(Some("sum"), Some("8"), None).decode().expected_path(),
        names(&["alpha", "sum", "8"])
    );
    assert_eq!(raw(None, Some("8"), None).decode().expected_path(), names(&["alpha", "8"]));
}

#[test]
fn expected_path_is_made_safe() {
    let record = RawBenchmarkId {
        group_or_function_id: String::from("io::read"),
        function_id_in_group: Some(String::from("a/b")),
        value_str: Some(String::from("<4>")),
        throughput: None,
    };
    assert_eq!(record.decode().expected_path(), names(&["io__read", "a_b", "_4_"]));
}

#[test]
fn cross_check_accepts_the_expected_directory() {
    let record = raw(Some("sum"), Some("8"), None);
    assert_eq!(record.decode().cross_check(&names(&["alpha", "sum", "8"])), Ok(()));
}

#[test]
fn cross_check_reports_both_paths_on_mismatch() {
    let record = raw(Some("sum"), None, None);
    let mismatch = record.decode().cross_check(&names(&["alpha", "other"])).unwrap_err();
    assert_eq!(mismatch.expected, names(&["alpha", "sum"]));
    assert_eq!(mismatch.observed, names(&["alpha", "other"]));
    assert!(record.decode().cross_check(&names(&["alpha"])).is_err());
}
