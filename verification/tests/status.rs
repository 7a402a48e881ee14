use grpc_json_codec::status::{http_success, parse_status_code, status_is_ok, status_name};

#[test]
fn code_zero_maps_to_ok_and_renders_as_success() {
    assert_eq!(status_name(0), "OK");
    assert!(status_is_ok(0));
}

#[test]
fn code_five_maps_to_not_found() {
    assert_eq!(status_name(5), "NOT_FOUND");
    assert!(!status_is_ok(5));
}

#[test]
fn out_of_range_codes_map_to_the_sentinel_label() {
    assert_eq!(status_name(16), "???");
    assert_eq!(status_name(200), "???");
    assert!(!status_is_ok(16));
}

#[test]
fn every_known_code_has_its_canonical_name() {
    let names = [
        "OK",
        "CANCELLED",
        "UNKNOWN",
        "INVALID_ARGUMENT",
        "DEADLINE_EXCEEDED",
        "NOT_FOUND",
        "ALREADY_EXISTS",
        "PERMISSION_DENIED",
        "RESOURCE_EXHAUSTED",
        "FAILED_PRECONDITION",
        "ABORTED",
        "OUT_OF_RANGE",
        "UNIMPLEMENTED",
        "INTERNAL",
        "UNAVAILABLE",
        "DATA_LOSS",
    ];
    for (code, name) in names.iter().enumerate() {
        assert_eq!(status_name(code as u8), *name);
    }
}

#[test]
fn http_two_hundreds_count_as_success() {
    assert!(http_success(200));
    assert!(http_success(204));
    assert!(http_success(299));
}

#[test]
fn other_http_statuses_count_as_failure() {
    assert!(!http_success(101));
    assert!(!http_success(199));
    assert!(!http_success(300));
    assert!(!http_success(404));
    assert!(!http_success(500));
}

#[test]
fn status_header_values_parse_as_small_unsigned_integers() {
    assert_eq!(parse_status_code("0"), Some(0));
    assert_eq!(parse_status_code("5"), Some(5));
    assert_eq!(parse_status_code("16"), Some(16));
    assert_eq!(parse_status_code("255"), Some(255));
    assert_eq!(parse_status_code("007"), Some(7));
    assert_eq!(parse_status_code("+7"), Some(7));
}

#[test]
fn malformed_status_header_values_are_a_parse_fault() {
    assert_eq!(parse_status_code(""), None);
    assert_eq!(parse_status_code("+"), None);
    assert_eq!(parse_status_code("abc"), None);
    assert_eq!(parse_status_code("1a"), None);
    assert_eq!(parse_status_code(" 5"), None);
    assert_eq!(parse_status_code("-1"), None);
    assert_eq!(parse_status_code("256"), None);
    assert_eq!(parse_status_code("99999999999999999999"), None);
}
