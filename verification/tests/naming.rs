use sevino::layout::{
    bucket_metadata_path, generate_object_id, object_data_path, object_metadata_path,
};
use sevino::utils::{
    generate_etag, get_mime_type, is_valid_etag_format, md5_hash, mime_type_for_suffix,
    sha256_hash, validate_bucket_name, validate_object_key,
};

#[test]
fn etag_of_hello_is_quoted_md5() {
    assert_eq!(generate_etag(b"Hello"), "\"8b1a9953c4611296a827abf8c47804d7\"");
}

#[test]
fn etag_of_nothing_is_quoted_md5_of_nothing() {
    assert_eq!(generate_etag(b""), "\"d41d8cd98f00b204e9800998ecf8427e\"");
}

#[test]
fn identical_bytes_have_identical_etags() {
    assert_eq!(generate_etag(b"DATA"), generate_etag(b"DATA"));
    assert_ne!(generate_etag(b"X"), generate_etag(b"Y"));
}

#[test]
fn md5_is_lower_case_hex() {
    assert_eq!(md5_hash(b"abc"), "900150983cd24fb0d6963f7d28e17f72");
}

#[test]
fn sha256_is_lower_case_hex_of_64_characters() {
    let digest = sha256_hash(b"abc");
    assert_eq!(digest, "ba7816bf8f01cfea414140de5dae2223b00361a396177a9cb410ff61f20015ad");
    assert_eq!(digest.len(), 64);
}

#[test]
fn object_id_is_sha256_of_bucket_colon_key() {
    assert_eq!(
        generate_object_id("b", "hello.txt"),
        "bb8b32988198e2279c1917d3f00b838de1f84c4937af39af6147a1723e029a67"
    );
    assert_eq!(
        generate_object_id("photos", "cat.png"),
        "cf9c41936ef99948d055d012b1ebdb4b164c95bc29a60d0dab61637254232895"
    );
}

#[test]
fn object_id_depends_on_the_case_of_its_inputs() {
    assert_ne!(generate_object_id("b", "A"), generate_object_id("b", "a"));
    assert_ne!(generate_object_id("B", "a"), generate_object_id("b", "a"));
    assert_eq!(generate_object_id("b", "a"), generate_object_id("b", "a"));
}

#[test]
fn data_path_has_two_levels_of_shards() {
    let id = "bb8b32988198e2279c1917d3f00b838de1f84c4937af39af6147a1723e029a67";
    assert_eq!(
        object_data_path("/data", "b", id),
        "/data/b/bb8b/32/bb8b32988198e2279c1917d3f00b838de1f84c4937af39af6147a1723e029a67"
    );
}

#[test]
fn data_path_of_a_short_identifier_takes_what_there_is() {
    assert_eq!(object_data_path("/data", "b", "abcde"), "/data/b/abcd/e/abcde");
    assert_eq!(object_data_path("/data", "b", "ab"), "/data/b/ab//ab");
}

#[test]
fn metadata_paths_lie_in_the_reserved_directory() {
    assert_eq!(object_metadata_path("/data", "b", "abc"), "/data/b/.sevino.meta/objects/abc.json");
    assert_eq!(bucket_metadata_path("/data", "b"), "/data/b/.sevino.meta/bucket.json");
}

#[test]
fn bucket_name_starting_with_digit_is_refused() {
    assert_eq!(
        validate_bucket_name("1bad"),
        Err("Bucket name cannot start with a number".to_string())
    );
}

#[test]
fn bucket_name_starting_with_hyphen_is_refused() {
    assert_eq!(
        validate_bucket_name("-bad"),
        Err("Bucket name cannot start or end with a hyphen".to_string())
    );
    assert_eq!(
        validate_bucket_name("bad-"),
        Err("Bucket name cannot start or end with a hyphen".to_string())
    );
}

#[test]
fn bucket_name_rules() {
    assert_eq!(validate_bucket_name("photos"), Ok(()));
    assert_eq!(validate_bucket_name("a"), Ok(()));
    assert_eq!(validate_bucket_name("My-Bucket-2024"), Ok(()));
    assert_eq!(validate_bucket_name(""), Err("Bucket name cannot be empty".to_string()));
    assert_eq!(
        validate_bucket_name("under_score"),
        Err("Bucket name can only contain alphanumeric characters and hyphens".to_string())
    );
    assert_eq!(
        validate_bucket_name("caf\u{e9}"),
        Err("Bucket name can only contain alphanumeric characters and hyphens".to_string())
    );
}

#[test]
fn bucket_name_length_limit() {
    let longest = "a".repeat(63);
    let too_long = "a".repeat(64);
    assert_eq!(validate_bucket_name(&longest), Ok(()));
    assert_eq!(
        validate_bucket_name(&too_long),
        Err("Bucket name cannot be longer than 63 characters".to_string())
    );
}

#[test]
fn object_key_rules() {
    assert_eq!(validate_object_key("hello.txt"), Ok(()));
    assert_eq!(validate_object_key("photos/2024/a.jpg"), Ok(()));
    assert_eq!(validate_object_key(""), Err("Object key cannot be empty".to_string()));
    assert_eq!(
        validate_object_key("a/../b"),
        Err("Object key cannot contain '..'".to_string())
    );
    assert_eq!(validate_object_key(".."), Err("Object key cannot contain '..'".to_string()));
    assert_eq!(validate_object_key("a.b.c"), Ok(()));
}

#[test]
fn object_key_length_limit() {
    let longest = "k".repeat(1024);
    let too_long = "k".repeat(1025);
    assert_eq!(validate_object_key(&longest), Ok(()));
    assert_eq!(
        validate_object_key(&too_long),
        Err("Object key cannot be longer than 1024 characters".to_string())
    );
}

#[test]
fn mime_type_follows_the_suffix() {
    assert_eq!(get_mime_type("hello.txt"), "text/plain");
    assert_eq!(get_mime_type("index.html"), "text/html");
    assert_eq!(get_mime_type("index.htm"), "text/html");
    assert_eq!(get_mime_type("style.css"), "text/css");
    assert_eq!(get_mime_type("app.js"), "application/javascript");
    assert_eq!(get_mime_type("data.json"), "application/json");
    assert_eq!(get_mime_type("feed.xml"), "application/xml");
    assert_eq!(get_mime_type("paper.pdf"), "application/pdf");
    assert_eq!(get_mime_type("a.jpg"), "image/jpeg");
    assert_eq!(get_mime_type("a.jpeg"), "image/jpeg");
    assert_eq!(get_mime_type("a.png"), "image/png");
    assert_eq!(get_mime_type("a.gif"), "image/gif");
    assert_eq!(get_mime_type("a.svg"), "image/svg+xml");
    assert_eq!(get_mime_type("a.ico"), "image/x-icon");
    assert_eq!(get_mime_type("a.zip"), "application/zip");
    assert_eq!(get_mime_type("a.tar"), "application/x-tar");
    assert_eq!(get_mime_type("a.gz"), "application/gzip");
    assert_eq!(get_mime_type("a.mp4"), "video/mp4");
    assert_eq!(get_mime_type("a.mp3"), "audio/mpeg");
    assert_eq!(get_mime_type("a.wav"), "audio/wav");
}

#[test]
fn mime_type_ignores_the_case_of_the_suffix() {
    assert_eq!(get_mime_type("PHOTO.JPG"), "image/jpeg");
    assert_eq!(get_mime_type("Readme.TxT"), "text/plain");
}

#[test]
fn mime_type_of_unknown_or_missing_suffix_is_octet_stream() {
    assert_eq!(get_mime_type("archive.xyz"), "application/octet-stream");
    assert_eq!(get_mime_type("README"), "application/octet-stream");
    assert_eq!(get_mime_type(""), "application/octet-stream");
    assert_eq!(get_mime_type(".txt"), "application/octet-stream");
    assert_eq!(get_mime_type("dir.txt/readme"), "application/octet-stream");
}

#[test]
fn mime_type_looks_at_the_file_name_only() {
    assert_eq!(get_mime_type("photos/2024/a.jpg"), "image/jpeg");
    assert_eq!(get_mime_type("a.b/c.png"), "image/png");
    assert_eq!(get_mime_type("archive.tar.gz"), "application/gzip");
}

#[test]
fn mime_type_for_suffix_expects_lower_case() {
    assert_eq!(mime_type_for_suffix("png"), "image/png");
    assert_eq!(mime_type_for_suffix("PNG"), "application/octet-stream");
    assert_eq!(mime_type_for_suffix(""), "application/octet-stream");
}

#[test]
fn etag_formats() {
    assert!(is_valid_etag_format("\"8b1a9953c4611296a827abf8c47804d7\""));
    assert!(is_valid_etag_format("W/\"weak\""));
    assert!(is_valid_etag_format("plain-token"));
    assert!(is_valid_etag_format("\""));
    assert!(!is_valid_etag_format(""));
    assert!(!is_valid_etag_format("has space"));
    assert!(!is_valid_etag_format("\"open"));
    assert!(!is_valid_etag_format("mid\"dle"));
}

#[test]
fn mime_type_of_a_key_that_ends_in_a_slash() {
    assert_eq!(get_mime_type("a.txt/"), "text/plain");
    assert_eq!(get_mime_type("report.PDF/"), "application/pdf");
    assert_eq!(get_mime_type("dir/a.png/"), "image/png");
}

#[test]
fn mime_type_of_a_key_that_ends_in_slashes() {
    assert_eq!(get_mime_type("a.txt//"), "text/plain");
    assert_eq!(get_mime_type("a.txt///"), "text/plain");
}

#[test]
fn mime_type_of_a_key_that_ends_in_a_single_dot_part() {
    assert_eq!(get_mime_type("a.txt/."), "text/plain");
    assert_eq!(get_mime_type("a.txt/./"), "text/plain");
    assert_eq!(get_mime_type("a.txt/././/"), "text/plain");
    assert_eq!(get_mime_type("./a.json"), "application/json");
}

#[test]
fn mime_type_of_a_key_without_a_file_name() {
    for key in ["", "/", ".", "./", "//", "a.txt/..", "..", "a.txt/../", "../"] {
        assert_eq!(get_mime_type(key), "application/octet-stream", "{:?}", key);
    }
}

#[test]
fn mime_type_of_file_names_with_odd_dots() {
    assert_eq!(get_mime_type("a.txt."), "application/octet-stream");
    assert_eq!(get_mime_type(".txt"), "application/octet-stream");
    assert_eq!(get_mime_type("dir/.txt"), "application/octet-stream");
    assert_eq!(get_mime_type("..txt"), "text/plain");
    assert_eq!(get_mime_type("a..txt"), "text/plain");
    assert_eq!(get_mime_type("dir.zip/name"), "application/octet-stream");
    assert_eq!(get_mime_type("dir.zip/./name.GZ"), "application/gzip");
}

#[test]
fn mime_type_matches_the_extension_of_a_path() {
    for key in [
        "a.txt/", "a.txt//", "a.txt/.", "a/b.c/d.mp3", "x.tar.gz", ".hidden", "..txt", "a.", "a/..",
        "a/./b.wav", ".", "", "/", "photos/2024/a.JPG", "..", "./.", "a.css/./.", "...", "a/.../",
    ] {
        let extension = std::path::Path::new(key)
            .extension()
            .and_then(|e| e.to_str())
            .unwrap_or("")
            .to_lowercase();
        assert_eq!(
            get_mime_type(key),
            sevino::utils::mime_type_for_suffix(&extension),
            "{:?}",
            key
        );
    }
}

#[test]
fn entity_tags_have_thirty_four_characters() {
    assert_eq!(md5_hash(b"").len(), 32);
    assert_eq!(md5_hash(b"any bytes at all").len(), 32);
    assert_eq!(generate_etag(b"any bytes at all").len(), 34);
}
