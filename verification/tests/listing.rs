use sevino::dict::Dict;
use sevino::error::StorageError;
use sevino::layout::generate_object_id;
use sevino::listing::{matches_glob, page_of, sorted_positions};
use sevino::models::Timestamp;
use sevino::services::queries::{directory_of_key, holds_all, is_among};
use sevino::services::{BucketService, DeduplicationMode, ObjectService, StorageService};
use sevino::utils::generate_etag;

fn at(seconds: i64) -> Timestamp {
    Timestamp { seconds, nanos: 0 }
}

fn service_with(keys: &[&str]) -> ObjectService {
    let mut buckets = BucketService::new(StorageService::empty("/data".to_string()));
    buckets.create_bucket_at("b".to_string(), at(1)).unwrap();
    let mut objects = ObjectService::new(buckets.into_storage());
    for (i, key) in keys.iter().enumerate() {
        let mut metadata = Dict::new();
        metadata.insert("owner".to_string(), if i % 2 == 0 { "ann" } else { "bob" }.to_string());
        objects
            .put_object_with_deduplication_at(
                "b",
                key,
                key.as_bytes().to_vec(),
                "application/octet-stream",
                metadata,
                DeduplicationMode::Allow,
                at(10 + i as i64),
            )
            .unwrap();
    }
    objects
}

fn chars(s: &str) -> Vec<char> {
    s.chars().collect()
}

fn glob(pattern: &str, text: &str) -> bool {
    matches_glob(&chars(pattern), &chars(text))
}

#[test]
fn listing_with_delimiter_and_prefix() {
    let objects = service_with(&[
        "photos/2024/a.jpg",
        "photos/2024/b.jpg",
        "photos/2023/c.jpg",
        "docs/x.txt",
    ]);
    let listed = objects
        .list_objects_at("b", Some("photos/".to_string()), Some("/".to_string()), None, None, at(50))
        .unwrap();
    assert_eq!(listed.len(), 2);
    let mut keys: Vec<String> = listed.iter().map(|o| o.key.clone()).collect();
    keys.sort();
    assert_eq!(keys, vec!["photos/2023/", "photos/2024/"]);
    for entry in &listed {
        assert_eq!(entry.content_type, "application/x-directory");
        assert_eq!(entry.size, 0);
        assert_eq!(entry.etag, "");
        assert_eq!(entry.bucket_name, "b");
        assert_eq!(entry.created_at, at(50));
        assert_eq!(entry.last_modified, at(50));
        assert_eq!(entry.user_metadata.len(), 0);
    }
}

#[test]
fn listing_keeps_the_objects_directly_below_the_prefix() {
    let objects = service_with(&["photos/2024/a.jpg", "photos/top.jpg", "docs/x.txt"]);
    let listed = objects
        .list_objects_at("b", Some("photos/".to_string()), Some("/".to_string()), None, None, at(50))
        .unwrap();
    let mut keys: Vec<String> = listed.iter().map(|o| o.key.clone()).collect();
    keys.sort();
    assert_eq!(keys, vec!["photos/2024/", "photos/top.jpg"]);
    let top = listed.iter().find(|o| o.key == "photos/top.jpg").unwrap();
    assert_eq!(top.content_type, "image/jpeg");
    assert_eq!(top.size, 14);
}

#[test]
fn listing_rolls_up_each_directory_once() {
    let objects = service_with(&["photos/a.jpg", "docs/x.txt", "photos/b.jpg", "top.txt"]);
    let listed = objects
        .list_objects_at("b", None, Some("/".to_string()), None, None, at(50))
        .unwrap();
    let mut keys: Vec<String> = listed.iter().map(|o| o.key.clone()).collect();
    keys.sort();
    assert_eq!(keys, vec!["docs/", "photos/", "top.txt"]);
    let top = listed.iter().find(|o| o.key == "top.txt").unwrap();
    assert_eq!(top.size, 7);
    assert_eq!(top.content_type, "text/plain");
}

#[test]
fn listing_follows_the_names_of_the_metadata_files() {
    let keys = ["one", "two", "three", "four", "five"];
    let objects = service_with(&keys);
    let listed = objects.list_objects_at("b", None, None, None, None, at(50)).unwrap();
    let mut expected: Vec<(String, String)> =
        keys.iter().map(|k| (generate_object_id("b", k), k.to_string())).collect();
    expected.sort();
    let expected_keys: Vec<String> = expected.iter().map(|(_, k)| k.clone()).collect();
    let listed_keys: Vec<String> = listed.iter().map(|o| o.key.clone()).collect();
    assert_eq!(listed_keys, expected_keys);
    let ids = objects.storage().list_object_ids("b");
    let expected_ids: Vec<String> = expected.iter().map(|(id, _)| id.clone()).collect();
    assert_eq!(ids, expected_ids);
}

#[test]
fn listing_pages_follow_the_marker() {
    let keys = ["one", "two", "three", "four", "five"];
    let objects = service_with(&keys);
    let all = objects.storage().list_object_metadata("b");
    assert_eq!(all.len(), 5);
    let first = objects.storage().list_object_metadata_with_pagination("b", Some(2), None);
    assert_eq!(first.len(), 2);
    assert_eq!(first[0].key, all[0].key);
    assert_eq!(first[1].key, all[1].key);
    let marker = format!("{}.json", generate_object_id("b", &all[1].key));
    let second =
        objects.storage().list_object_metadata_with_pagination("b", Some(2), Some(marker.clone()));
    assert_eq!(second.len(), 2);
    assert_eq!(second[0].key, all[2].key);
    assert_eq!(second[1].key, all[3].key);
    let rest = objects.storage().list_object_metadata_with_pagination("b", None, Some(marker));
    assert_eq!(rest.len(), 3);
    let none = objects
        .storage()
        .list_object_metadata_with_pagination("b", None, Some("unknown.json".to_string()));
    assert!(none.is_empty());
    let zero = objects.storage().list_object_metadata_with_pagination("b", Some(0), None);
    assert!(zero.is_empty());
    let listed = objects.list_objects_at("b", None, None, Some(3), None, at(50)).unwrap();
    assert_eq!(listed.len(), 3);
}

#[test]
fn listing_of_a_missing_bucket_fails() {
    let objects = service_with(&[]);
    assert_eq!(
        objects.list_objects_at("nope", None, None, None, None, at(1)).unwrap_err(),
        StorageError::BucketNotFound("nope".to_string())
    );
    assert!(objects.list_objects_at("b", None, None, None, None, at(1)).unwrap().is_empty());
    assert!(objects.list_objects("b", None, None, None, None).unwrap().is_empty());
    assert!(objects
        .list_objects_with_custom_filter("b", None, None, None, None, None, Vec::new())
        .unwrap()
        .is_empty());
}

#[test]
fn listing_filters_by_prefix_etag_and_metadata() {
    let objects = service_with(&["apple", "apricot", "banana", "avocado"]);
    let by_prefix = objects
        .list_objects_at("b", Some("ap".to_string()), None, None, None, at(50))
        .unwrap();
    let mut keys: Vec<String> = by_prefix.iter().map(|o| o.key.clone()).collect();
    keys.sort();
    assert_eq!(keys, vec!["apple", "apricot"]);
    let etag = generate_etag(b"banana");
    let by_etag = objects
        .list_objects_with_custom_filter_at("b", None, None, None, None, Some(etag), Vec::new(), at(50))
        .unwrap();
    assert_eq!(by_etag.len(), 1);
    assert_eq!(by_etag[0].key, "banana");
    let any = objects
        .list_objects_with_custom_filter_at("b", None, None, None, None, Some("\"*\"".to_string()), Vec::new(), at(50))
        .unwrap();
    assert_eq!(any.len(), 4);
    let by_owner = objects
        .list_objects_with_custom_filter_at(
            "b",
            None,
            None,
            None,
            None,
            None,
            vec![("owner".to_string(), "bob".to_string())],
            at(50),
        )
        .unwrap();
    let mut keys: Vec<String> = by_owner.iter().map(|o| o.key.clone()).collect();
    keys.sort();
    assert_eq!(keys, vec!["apricot", "avocado"]);
    let nobody = objects
        .list_objects_with_custom_filter_at(
            "b",
            None,
            None,
            None,
            None,
            None,
            vec![("owner".to_string(), "bob".to_string()), ("missing".to_string(), "x".to_string())],
            at(50),
        )
        .unwrap();
    assert!(nobody.is_empty());
}

#[test]
fn glob_patterns() {
    assert!(glob("", ""));
    assert!(!glob("", "a"));
    assert!(glob("*", ""));
    assert!(glob("*", "anything"));
    assert!(glob("a*c", "abc"));
    assert!(glob("a*c", "ac"));
    assert!(glob("a*c", "abbbc"));
    assert!(!glob("a*c", "abd"));
    assert!(glob("?", "x"));
    assert!(!glob("?", ""));
    assert!(!glob("?", "xy"));
    assert!(glob("a?c", "abc"));
    assert!(glob("*a*a*", "banana"));
    assert!(!glob("*a*a*a*a*", "banana"));
    assert!(glob("\"8b1a*\"", "\"8b1a9953c4611296a827abf8c47804d7\""));
    assert!(glob("**", "x"));
    assert!(!glob("abc", "ab"));
    assert!(!glob("ab", "abc"));
}

#[test]
fn positions_are_sorted_by_name() {
    let names = vec![chars("pear"), chars("apple"), chars("fig"), chars("app")];
    assert_eq!(sorted_positions(&names), vec![3, 1, 2, 0]);
    assert_eq!(sorted_positions(&Vec::new()), Vec::<usize>::new());
}

#[test]
fn pages_of_a_listing() {
    let ids: Vec<String> = ["a", "b", "c", "d"].iter().map(|s| s.to_string()).collect();
    assert_eq!(page_of(&ids, None, None), vec!["a", "b", "c", "d"]);
    assert_eq!(page_of(&ids, Some(2), None), vec!["a", "b"]);
    assert_eq!(page_of(&ids, Some(9), None), vec!["a", "b", "c", "d"]);
    assert_eq!(page_of(&ids, None, Some("b.json")), vec!["c", "d"]);
    assert_eq!(page_of(&ids, Some(1), Some("b.json")), vec!["c"]);
    assert_eq!(page_of(&ids, None, Some("d.json")), Vec::<String>::new());
    assert_eq!(page_of(&ids, None, Some("b")), Vec::<String>::new());
}

#[test]
fn directories_of_keys() {
    assert_eq!(directory_of_key("photos/2024/a.jpg", "/", 0), Some("photos/".to_string()));
    assert_eq!(directory_of_key("photos/2024/a.jpg", "/", 7), Some("photos/2024/".to_string()));
    assert_eq!(directory_of_key("photos/2024/a.jpg", "/", 12), None);
    assert_eq!(directory_of_key("photos/2024/a.jpg", "/", 99), None);
    assert_eq!(directory_of_key("top.txt", "/", 0), None);
    assert_eq!(directory_of_key("a--b--c", "--", 0), Some("a--".to_string()));
    assert_eq!(directory_of_key("a--b--c", "--", 2), Some("a--b--".to_string()));
    assert_eq!(directory_of_key("/rooted", "/", 0), Some("/".to_string()));
    assert_eq!(directory_of_key("anything", "", 0), Some("".to_string()));
    assert_eq!(directory_of_key("anything", "", 3), Some("any".to_string()));
    let seen = vec!["photos/".to_string()];
    assert!(is_among(&seen, "photos/"));
    assert!(!is_among(&seen, "docs/"));
}

#[test]
fn metadata_holds_the_pairs_asked_for() {
    let mut metadata = Dict::new();
    metadata.insert("a".to_string(), "1".to_string());
    metadata.insert("b".to_string(), "2".to_string());
    assert!(holds_all(&metadata, &Vec::new()));
    assert!(holds_all(&metadata, &vec![("a".to_string(), "1".to_string())]));
    assert!(!holds_all(&metadata, &vec![("a".to_string(), "2".to_string())]));
    assert!(!holds_all(&metadata, &vec![("c".to_string(), "1".to_string())]));
    assert_eq!(metadata.len(), 2);
    assert!(metadata.contains_key("a"));
    assert_eq!(metadata.remove("a"), Some("1".to_string()));
    assert_eq!(metadata.remove("a"), None);
    assert!(!metadata.is_empty());
    let copy = metadata.clone();
    assert_eq!(copy.get("b"), Some(&"2".to_string()));
    assert_eq!(copy.key_at(0), "b");
    assert_eq!(copy.value_at(0), "2");
}
