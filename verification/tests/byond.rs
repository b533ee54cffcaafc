use dogmos::bindings::{bindings_are_paired, normalize_generated_bindings};
use dogmos::byond::{
    hex_lower, join_u32_words, join_u64_words, split_u32_words, split_u64_words,
    validate_current_process_metrics, validate_fixed_records, CurrentProcessMetrics, ProcessMetric,
    ProcessMetricsError, RecordLayoutError,
    PROCESS_ALL_AVAILABLE, PROCESS_PRIVATE_BYTES_AVAILABLE,
};

#[test]
fn binary_identity_fields_use_exact_lowercase_hex() {
    assert_eq!(hex_lower(&[0x00, 0x09, 0x10, 0xab, 0xff]), "000910abff");
}

#[test]
fn generated_bindings_are_sorted_with_canonical_whitespace() {
    let generated = "header  \r\n#define DOGMOS value\r\n\r\n/proc/zeta()\r\n\treturn 2 \r\n\r\n/// Alpha\r\n/proc/alpha()\r\n\treturn 1\r\n\r\n";
    let expected = "header\n#define DOGMOS value\n\n/// Alpha\n/proc/alpha()\n\treturn 1\n\n/proc/zeta()\n\treturn 2\n";

    assert_eq!(normalize_generated_bindings(generated), expected);
}

#[test]
fn generated_bindings_use_the_deployed_library_and_opendream_compatible_calls() {
    let generated = "generated header\n\n/* This comment bypasses grep checks */ /var/__dogmos\n\n/proc/__detect_dogmos()\n\tif (world.system_type == UNIX)\n\t\treturn __dogmos = \"libdogmos\"\n\telse\n\t\treturn __dogmos = \"dogmos\"\n\n#define DOGMOS (__dogmos || __detect_dogmos())\n\n/proc/dogmos_example(value)\n\tvar/static/loaded = load_ext(DOGMOS, \"byond:dogmos_example_ffi\")\n\treturn call_ext(loaded)(value)\n";
    let expected = "generated header\n\n#define DOGMOS (world.system_type == UNIX ? \"libdogmos\" : \"dogmos\")\n\n/proc/dogmos_example(value)\n\treturn call_ext(DOGMOS, \"byond:dogmos_example_ffi\")(value)\n";

    assert_eq!(normalize_generated_bindings(generated), expected);
}

#[test]
fn bindings_without_blocks_keep_only_the_header() {
    assert_eq!(normalize_generated_bindings("a\r\rb \n\n\n"), "a\n\nb\n");
    assert_eq!(normalize_generated_bindings(""), "\n");
}

#[test]
fn blocks_with_the_same_key_sort_by_their_text() {
    let generated = "#define X 1\n/proc/a()\n\treturn 2\n\n/proc/a()\n\treturn 1\n";
    let expected = "#define X 1\n\n/proc/a()\n\treturn 1\n\n/proc/a()\n\treturn 2\n";
    assert_eq!(normalize_generated_bindings(generated), expected);
}

#[test]
fn words_round_trip_in_little_endian_order() {
    assert_eq!(split_u32_words(0x1234_5678), [0x5678, 0x1234]);
    assert_eq!(join_u32_words(0x5678, 0x1234), 0x1234_5678);
    assert_eq!(split_u64_words(0x1111_2222_3333_4444), [0x4444, 0x3333, 0x2222, 0x1111]);
    assert_eq!(join_u64_words([0x4444, 0x3333, 0x2222, 0x1111]), 0x1111_2222_3333_4444);
    assert_eq!(join_u64_words(split_u64_words(u64::MAX)), u64::MAX);
}

#[test]
fn process_metrics_need_known_flags_and_flagged_values() {
    let unknown = CurrentProcessMetrics { available_flags: 16, ..Default::default() };
    assert_eq!(validate_current_process_metrics(unknown), Err(ProcessMetricsError::UnknownFlags(16)));
    let unflagged = CurrentProcessMetrics { private_bytes: 1, ..Default::default() };
    assert_eq!(
        validate_current_process_metrics(unflagged),
        Err(ProcessMetricsError::UnflaggedValue(ProcessMetric::PrivateBytes))
    );
    let partial = CurrentProcessMetrics {
        available_flags: PROCESS_PRIVATE_BYTES_AVAILABLE,
        private_bytes: 1,
        ..Default::default()
    };
    assert_eq!(validate_current_process_metrics(partial), Ok(()));
    let cpu = CurrentProcessMetrics {
        available_flags: PROCESS_PRIVATE_BYTES_AVAILABLE,
        cpu_total_milliseconds: 3,
        ..Default::default()
    };
    assert_eq!(
        validate_current_process_metrics(cpu),
        Err(ProcessMetricsError::UnflaggedValue(ProcessMetric::CpuTotalMilliseconds))
    );
    let all = CurrentProcessMetrics {
        available_flags: PROCESS_ALL_AVAILABLE,
        private_bytes: 1,
        virtual_bytes: 2,
        working_set_bytes: 3,
        cpu_total_milliseconds: 4,
    };
    assert_eq!(validate_current_process_metrics(all), Ok(()));
}

#[test]
fn an_unpaired_load_line_is_detected_before_normalizing() {
    let unpaired = "#define DOGMOS x\n/proc/f()\n\tvar/static/loaded = load_ext(DOGMOS, \"f\")\n";
    assert!(!bindings_are_paired(unpaired));
    let paired = "#define DOGMOS x\n/proc/f()\n\tvar/static/loaded = load_ext(DOGMOS, \"f\")\n\treturn call_ext(loaded)()\n";
    assert!(bindings_are_paired(paired));
    assert_eq!(
        normalize_generated_bindings(paired),
        "#define DOGMOS x\n\n/proc/f()\n\treturn call_ext(DOGMOS, \"f\")()\n"
    );
}

#[test]
fn flat_lists_must_hold_whole_bounded_records() {
    assert_eq!(validate_fixed_records(6, 3, 2), Ok(2));
    assert_eq!(validate_fixed_records(0, 3, 0), Ok(0));
    assert_eq!(
        validate_fixed_records(7, 3, 5),
        Err(RecordLayoutError::PartialRecord { record_fields: 3 })
    );
    assert_eq!(
        validate_fixed_records(9, 3, 2),
        Err(RecordLayoutError::TooManyRecords { record_count: 3, maximum_records: 2 })
    );
    assert_eq!(
        validate_fixed_records(4, 0, 2),
        Err(RecordLayoutError::PartialRecord { record_fields: 0 })
    );
}
