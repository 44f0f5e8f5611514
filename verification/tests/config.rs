use sevino::api::{
    custom_filters_from, default_deduplication_mode, multipart_part_key, multipart_user_metadata,
    ApiResponse,
};
use sevino::config::{parse_number, split_commas, trimmed_range, EnvValues, Settings};
use sevino::error::{ErrorKind, StorageError};
use sevino::services::DeduplicationMode;
use sevino::text::{decimal_text, same_text, to_lower};

fn nothing() -> EnvValues {
    EnvValues {
        host: None,
        port: None,
        data_dir: None,
        max_file_size: None,
        enable_cors: None,
        cors_origins: None,
        cors_methods: None,
        cors_headers: None,
        cors_allow_credentials: None,
    }
}

#[test]
fn default_settings_are_those_of_a_local_service() {
    let s = Settings::default();
    assert_eq!(s.host, "127.0.0.1");
    assert_eq!(s.port, 8000);
    assert_eq!(s.data_dir, "./data");
    assert_eq!(s.max_file_size, 100 * 1024 * 1024);
    assert!(s.enable_cors);
    assert_eq!(
        s.cors_origins,
        vec![
            "http://localhost:3000",
            "http://127.0.0.1:3000",
            "http://localhost:8080",
            "http://127.0.0.1:8080",
            "*"
        ]
    );
    assert_eq!(s.cors_methods, vec!["GET", "POST", "PUT", "DELETE", "OPTIONS"]);
    assert_eq!(
        s.cors_headers,
        vec!["Content-Type", "Authorization", "X-Requested-With", "Accept", "Origin"]
    );
    assert!(!s.cors_allow_credentials);
}

#[test]
fn settings_without_values_are_the_defaults() {
    let s = Settings::from_values(&nothing());
    assert_eq!(s.host, "127.0.0.1");
    assert_eq!(s.port, 8000);
    assert_eq!(s.cors_origins.len(), 5);
}

#[test]
fn settings_take_the_values_given() {
    let mut values = nothing();
    values.host = Some("0.0.0.0".to_string());
    values.port = Some("9000".to_string());
    values.data_dir = Some("/var/sevino".to_string());
    values.max_file_size = Some("1048576".to_string());
    values.enable_cors = Some("FALSE".to_string());
    values.cors_origins = Some(" https://a.example , ,https://b.example,".to_string());
    values.cors_methods = Some("GET".to_string());
    values.cors_headers = Some("".to_string());
    values.cors_allow_credentials = Some("True".to_string());
    let s = Settings::from_values(&values);
    assert_eq!(s.host, "0.0.0.0");
    assert_eq!(s.port, 9000);
    assert_eq!(s.data_dir, "/var/sevino");
    assert_eq!(s.max_file_size, 1048576);
    assert!(!s.enable_cors);
    assert_eq!(s.cors_origins, vec!["https://a.example", "https://b.example"]);
    assert_eq!(s.cors_methods, vec!["GET"]);
    assert!(s.cors_headers.is_empty());
    assert!(s.cors_allow_credentials);
}

#[test]
fn settings_keep_the_default_where_a_number_cannot_be_read() {
    let mut values = nothing();
    values.port = Some("70000".to_string());
    values.max_file_size = Some("12MB".to_string());
    let s = Settings::from_values(&values);
    assert_eq!(s.port, 8000);
    assert_eq!(s.max_file_size, 100 * 1024 * 1024);
    values.port = Some("".to_string());
    assert_eq!(Settings::from_values(&values).port, 8000);
    values.port = Some("+8080".to_string());
    assert_eq!(Settings::from_values(&values).port, 8080);
    values.port = Some(" 8080".to_string());
    assert_eq!(Settings::from_values(&values).port, 8000);
    values.port = Some("-1".to_string());
    assert_eq!(Settings::from_values(&values).port, 8000);
}

#[test]
fn only_the_word_true_switches_a_flag_on() {
    let mut values = nothing();
    values.enable_cors = Some("yes".to_string());
    assert!(!Settings::from_values(&values).enable_cors);
    values.enable_cors = Some("tRuE".to_string());
    assert!(Settings::from_values(&values).enable_cors);
    values.enable_cors = Some(" true".to_string());
    assert!(!Settings::from_values(&values).enable_cors);
}

#[test]
fn numbers_are_read_up_to_their_limit() {
    assert_eq!(parse_number("0", 10), Some(0));
    assert_eq!(parse_number("10", 10), Some(10));
    assert_eq!(parse_number("11", 10), None);
    assert_eq!(parse_number("007", 10), Some(7));
    assert_eq!(parse_number("18446744073709551615", u64::MAX), Some(u64::MAX));
    assert_eq!(parse_number("18446744073709551616", u64::MAX), None);
    assert_eq!(parse_number("+", 10), None);
    assert_eq!(parse_number("1a", 10), None);
    assert_eq!(parse_number("9", 5), None);
}

#[test]
fn comma_lists_are_split_and_trimmed() {
    assert_eq!(split_commas("a,b,c"), vec!["a", "b", "c"]);
    assert_eq!(split_commas(" a , b "), vec!["a", "b"]);
    assert_eq!(split_commas(",,"), Vec::<String>::new());
    assert_eq!(split_commas(""), Vec::<String>::new());
    assert_eq!(split_commas("one"), vec!["one"]);
    assert_eq!(split_commas("a b,\tc\n"), vec!["a b", "c"]);
}

#[test]
fn trimming_takes_white_space_off_both_ends() {
    let chars: Vec<char> = "  x y\u{a0} ".chars().collect();
    let n = chars.len();
    assert_eq!(trimmed_range(&chars, 0, n), "x y");
    assert_eq!(trimmed_range(&chars, 0, 2), "");
    assert_eq!(trimmed_range(&chars, 2, 5), "x y");
}

#[test]
fn text_helpers() {
    assert_eq!(to_lower("ReJeCt"), "reject");
    assert_eq!(to_lower("\u{c9}t\u{e9}"), "\u{c9}t\u{e9}");
    assert!(same_text("abc", "abc"));
    assert!(!same_text("abc", "abd"));
    assert!(!same_text("abc", "ab"));
    assert_eq!(decimal_text(0), "0");
    assert_eq!(decimal_text(7), "7");
    assert_eq!(decimal_text(1234567890), "1234567890");
    assert_eq!(decimal_text(u64::MAX), "18446744073709551615");
}

#[test]
fn deduplication_mode_is_read_in_either_case() {
    assert_eq!(DeduplicationMode::parse("reject"), Ok(DeduplicationMode::Reject));
    assert_eq!(DeduplicationMode::parse("Allow"), Ok(DeduplicationMode::Allow));
    assert_eq!(DeduplicationMode::parse("REFERENCE"), Ok(DeduplicationMode::Reference));
    assert_eq!(DeduplicationMode::default_mode(), DeduplicationMode::Allow);
    assert_eq!(default_deduplication_mode(), Some("allow".to_string()));
}

#[test]
fn unknown_deduplication_mode_is_refused() {
    let e = DeduplicationMode::parse("merge").unwrap_err();
    assert_eq!(e, StorageError::InvalidDeduplicationMode("merge".to_string()));
    assert_eq!(e.kind(), ErrorKind::InvalidDeduplicationMode);
    assert_eq!(e.status(), 400);
    assert_eq!(
        e.message(),
        "Invalid deduplication mode: merge. Valid modes are: reject, allow, reference"
    );
}

#[test]
fn envelope_of_success_and_failure() {
    let ok = ApiResponse::success(5u32);
    assert!(ok.success);
    assert_eq!(ok.data, Some(5));
    assert_eq!(ok.error, None);
    let failed: ApiResponse<u32> = ApiResponse::error("Bucket not found".to_string());
    assert!(!failed.success);
    assert_eq!(failed.data, None);
    assert_eq!(failed.error, Some("Bucket not found".to_string()));
}

#[test]
fn parts_of_an_upload_are_stored_under_their_own_keys() {
    assert_eq!(multipart_part_key("video.mp4", 3), "video.mp4.part.3");
    assert_eq!(multipart_part_key("k", 0), "k.part.0");
    let metadata = multipart_user_metadata("up-1", 3, 12);
    assert_eq!(metadata.len(), 3);
    assert_eq!(metadata.get("multipart_upload_id"), Some(&"up-1".to_string()));
    assert_eq!(metadata.get("part_number"), Some(&"3".to_string()));
    assert_eq!(metadata.get("total_parts"), Some(&"12".to_string()));
}

#[test]
fn custom_filters_are_the_pairs_named_custom() {
    let pairs = vec![
        ("prefix".to_string(), "photos/".to_string()),
        ("custom_bizid".to_string(), "123".to_string()),
        ("custom_".to_string(), "empty".to_string()),
        ("customer".to_string(), "x".to_string()),
        ("custom_owner".to_string(), "ann".to_string()),
    ];
    assert_eq!(
        custom_filters_from(&pairs),
        vec![
            ("bizid".to_string(), "123".to_string()),
            ("".to_string(), "empty".to_string()),
            ("owner".to_string(), "ann".to_string()),
        ]
    );
}

#[test]
fn every_kind_of_failure_has_its_status_and_message() {
    let cases: Vec<(StorageError, ErrorKind, u16, &str)> = vec![
        (
            StorageError::InvalidName("Bucket name cannot be empty".to_string()),
            ErrorKind::InvalidName,
            400,
            "Bucket name cannot be empty",
        ),
        (
            StorageError::InvalidKey("Object key cannot be empty".to_string()),
            ErrorKind::InvalidKey,
            400,
            "Object key cannot be empty",
        ),
        (
            StorageError::InvalidMetadata("expected value".to_string()),
            ErrorKind::InvalidMetadata,
            400,
            "Invalid custom metadata: expected value",
        ),
        (
            StorageError::BucketNotFound("photos".to_string()),
            ErrorKind::NotFound,
            404,
            "Bucket 'photos' not found",
        ),
        (
            StorageError::ObjectNotFound { key: "k".to_string(), bucket: "b".to_string() },
            ErrorKind::NotFound,
            404,
            "Object 'k' not found in bucket 'b'",
        ),
        (StorageError::MetadataNotFound, ErrorKind::NotFound, 404, "Object metadata not found"),
        (StorageError::VersionNotFound, ErrorKind::NotFound, 404, "Object version not found"),
        (
            StorageError::BucketAlreadyExists("b".to_string()),
            ErrorKind::AlreadyExists,
            400,
            "Bucket 'b' already exists",
        ),
        (
            StorageError::ObjectAlreadyExists("k".to_string()),
            ErrorKind::AlreadyExists,
            400,
            "Object 'k' already exists with same content",
        ),
        (
            StorageError::NotEmpty("b".to_string()),
            ErrorKind::NotEmpty,
            400,
            "Cannot delete non-empty bucket 'b'",
        ),
        (
            StorageError::DuplicateContent { key: "a".to_string(), etag: "\"e\"".to_string() },
            ErrorKind::DuplicateContent,
            400,
            "Content already exists with key 'a' (ETag: \"e\"). Use different content or enable deduplication.",
        ),
        (
            StorageError::HasReferences { key: "a".to_string(), count: 12 },
            ErrorKind::HasReferences,
            400,
            "Cannot delete object 'a' because it has 12 reference(s). Delete all references first.",
        ),
        (
            StorageError::PreconditionFailed {
                expected: "\"e\"".to_string(),
                found: "\"e\"".to_string(),
            },
            ErrorKind::PreconditionFailed,
            400,
            "ETag precondition failed: expected '\"e\"', got '\"e\"'",
        ),
        (
            StorageError::DanglingReference("k".to_string()),
            ErrorKind::DanglingReference,
            500,
            "Data holder for object 'k' not found",
        ),
        (StorageError::DataMissing, ErrorKind::DataMissing, 500, "Object data not found"),
        (
            StorageError::IoFailure("disk full".to_string()),
            ErrorKind::IoFailure,
            500,
            "disk full",
        ),
    ];
    for (error, kind, status, message) in cases {
        assert_eq!(error.kind(), kind);
        assert_eq!(error.status(), status);
        assert_eq!(kind.status(), status);
        assert_eq!(error.message(), message);
    }
}
