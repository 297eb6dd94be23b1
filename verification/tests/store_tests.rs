use diving::analyze::PolicyThresholds;
use diving::config::{
    get_highest_wasted_bytes, get_highest_wasted_percent_hundredths, get_layer_path,
    get_layer_ttl_seconds, get_lowest_efficiency_percent, policy_thresholds, DivingConfig,
};
use diving::error::HTTPError;
use diving::store::{blob_expired, blob_file_path, sweep_blob_entries, sweep_expired_at, BlobEntry};

const DAY: i64 = 24 * 3600;

fn entry(name: &str, mtime: i64) -> BlobEntry {
    BlobEntry { name: name.to_string(), atime: None, mtime: Some(mtime) }
}

#[test]
fn blob_paths_append_digest() {
    assert_eq!(blob_file_path("/home/u/.diving/layers", "sha256:ab"), "/home/u/.diving/layers/sha256:ab");
}

#[test]
fn ninety_one_day_old_blob_expires_under_default_ttl() {
    let now: i64 = 1_700_000_000;
    let ttl = get_layer_ttl_seconds(&DivingConfig::default());
    assert_eq!(ttl, 90 * 24 * 3600);
    let expired = sweep_expired_at(now, ttl);
    assert!(blob_expired(&entry("old", now - 91 * DAY), expired));
    assert!(!blob_expired(&entry("fresh", now - DAY), expired));
}

#[test]
fn atime_and_mtime_take_the_latest() {
    let e = BlobEntry { name: "x".to_string(), atime: Some(100), mtime: Some(500) };
    assert!(blob_expired(&e, 500));
    assert!(!blob_expired(&e, 499));
    let unknown = BlobEntry { name: "y".to_string(), atime: None, mtime: None };
    assert!(!blob_expired(&unknown, i64::MAX));
}

#[test]
fn sweep_partitions_and_is_idempotent() {
    let now: i64 = 1_700_000_000;
    let expired = sweep_expired_at(now, 90 * 24 * 3600);
    let entries = vec![
        entry("old1", now - 91 * DAY),
        entry("fresh", now - DAY),
        entry("old2", now - 365 * DAY),
    ];
    let (removed, kept) = sweep_blob_entries(&entries, expired);
    assert_eq!(removed.len(), 2);
    assert_eq!(removed[0].name, "old1");
    assert_eq!(removed[1].name, "old2");
    assert_eq!(kept.len(), 1);
    // a second sweep over the kept entries removes nothing
    let (removed2, kept2) = sweep_blob_entries(&kept, expired);
    assert!(removed2.is_empty());
    assert_eq!(kept2.len(), 1);
}

#[test]
fn config_defaults() {
    let c = DivingConfig::default();
    assert_eq!(get_layer_path(&c), "layers");
    assert_eq!(get_highest_wasted_bytes(&c), 20 * 1024 * 1024);
    assert_eq!(get_lowest_efficiency_percent(&c), 95);
    assert_eq!(get_highest_wasted_percent_hundredths(&c), 2000);
    let t: PolicyThresholds = policy_thresholds(&c);
    assert_eq!(t.lowest_efficiency_percent, 95);
    assert_eq!(t.highest_wasted_bytes, 20 * 1024 * 1024);
    assert_eq!(t.highest_wasted_percent_hundredths, 2000);
}

#[test]
fn config_overrides_and_bad_ttl_fall_back() {
    let c = DivingConfig {
        layer_path: Some("cache".to_string()),
        layer_ttl: Some("30d".to_string()),
        threads: Some(4),
        lowest_efficiency_percent: Some(80),
        highest_wasted_bytes: Some(1024),
        highest_wasted_percent_hundredths: Some(500),
    };
    assert_eq!(get_layer_path(&c), "cache");
    assert_eq!(get_layer_ttl_seconds(&c), 30 * 24 * 3600);
    assert_eq!(get_highest_wasted_bytes(&c), 1024);
    let bad = DivingConfig { layer_ttl: Some("ninety days-ish".to_string()), ..c };
    assert_eq!(get_layer_ttl_seconds(&bad), 90 * 24 * 3600);
}

#[test]
fn http_error_constructors() {
    let e = HTTPError::new("boom");
    assert_eq!(e.message, "boom");
    assert_eq!(e.category, "");
    assert_eq!(e.status, 400);
    let e2 = HTTPError::new_with_category("boom", "docker");
    assert_eq!(e2.category, "docker");
    let e3 = HTTPError::new_with_category_status("slow", "timeout", 408);
    assert_eq!(e3.status, 408);
    let d: HTTPError = Default::default();
    assert_eq!(d.status, 400);
    assert_eq!(diving::util::clone_value_from_task_local(&"id".to_string()), "id");
}

#[test]
fn json_probe_reads_media_type() {
    let body = b"{\"mediaType\":\"application/vnd.oci.image.index.v1+json\",\"nested\":{\"x\":\"y\"}}".to_vec();
    assert_eq!(
        diving::jsonval::get_value_from_json(&body, "mediaType").unwrap(),
        "application/vnd.oci.image.index.v1+json"
    );
    assert_eq!(diving::jsonval::get_value_from_json(&body, "nested.x").unwrap(), "y");
    assert_eq!(diving::jsonval::get_value_from_json(&body, "missing").unwrap(), "");
    let bad = b"not json".to_vec();
    let e = diving::jsonval::get_value_from_json(&bad, "mediaType").unwrap_err();
    assert_eq!(e.category, "docker");
}
