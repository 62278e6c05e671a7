use crates_proxy::config::Config;
use crates_proxy::crates_api::{ApiError, CrateVersion};
use crates_proxy::proxy::{
    bad_request_response, cache_file_name, internal_error_response, max_non_yanked_version,
    method_not_allowed_response, not_found_response, ok_octet_response, ProxyError, ProxyService,
};

fn cv(num: &str, yanked: bool) -> CrateVersion {
    CrateVersion {
        num: num.to_string(),
        dl_path: "/test".to_string(),
        checksum: "test".to_string(),
        yanked,
    }
}

fn service(tag: &str) -> ProxyService {
    let mut config = Config::default();
    let nanos = std::time::SystemTime::now()
        .duration_since(std::time::UNIX_EPOCH)
        .unwrap()
        .as_nanos();
    config.cache.storage_path = format!("/tmp/crates_proxy_test_{}_{}", tag, nanos);
    ProxyService::new(&config).unwrap()
}

#[test]
fn parse_versioned_download_path() {
    let svc = service("parse1");
    let (name, selector, filename) =
        svc.parse_crates_request("/api/v1/crates/foo/1.2.3/download").unwrap();
    assert_eq!(name, "foo");
    assert_eq!(selector, "1.2.3");
    assert_eq!(filename, "foo-1.2.3.crate");
}

#[test]
fn parse_latest_download_path() {
    let svc = service("parse2");
    let (name, selector, filename) = svc.parse_crates_request("/api/v1/crates/foo/download").unwrap();
    assert_eq!(name, "foo");
    assert_eq!(selector, "latest");
    assert_eq!(filename, "foo-latest.crate");
}

#[test]
fn parse_metadata_path() {
    let svc = service("parse3");
    let (name, selector, filename) = svc.parse_crates_request("/api/v1/crates/foo").unwrap();
    assert_eq!(name, "foo");
    assert_eq!(selector, "latest");
    assert_eq!(filename, "foo");
}

#[test]
fn parse_rejects_other_paths() {
    let svc = service("parse4");
    for path in [
        "/not/valid",
        "/api/v1/crates/",
        "/api/v1/crates//download",
        "/api/v1/crates/foo/1.2.3/other",
        "/api/v1/crates/foo//download",
        "/api/v1/crates/foo/1/2/download",
    ] {
        match svc.parse_crates_request(path) {
            Err(ProxyError::InvalidRequest(_)) => {}
            _ => panic!("path {:?} must be rejected", path),
        }
    }
}

#[test]
fn archive_filenames_are_canonical() {
    assert_eq!(cache_file_name("foo", "foo-latest.crate", "1.2.3"), "foo-1.2.3.crate");
    assert_eq!(cache_file_name("foo", "index.json", "1.2.3"), "index.json");
}

#[test]
fn latest_is_greatest_non_yanked_by_string_order() {
    let versions = vec![cv("1.0.0", false), cv("1.1.0", false), cv("2.0.0", true)];
    assert_eq!(max_non_yanked_version(&versions).unwrap(), "1.1.0");
    // The comparison is plain string order, not semantic-version aware.
    let quirky = vec![cv("10.0.0", false), cv("2.0.0", false)];
    assert_eq!(max_non_yanked_version(&quirky).unwrap(), "2.0.0");
    let all_yanked = vec![cv("1.0.0", true)];
    assert!(max_non_yanked_version(&all_yanked).is_none());
}

#[test]
fn response_statuses() {
    assert_eq!(ok_octet_response(vec![1]).status, 200);
    assert!(ok_octet_response(vec![1]).octet_stream);
    assert_eq!(not_found_response("9.9").status, 404);
    assert_eq!(method_not_allowed_response().status, 405);
    assert_eq!(bad_request_response().status, 400);
    assert_eq!(internal_error_response().status, 500);
}

#[test]
fn upstream_urls() {
    let svc = service("upstream");
    assert_eq!(
        svc.build_upstream_url("foo", "1.2.3", "crate.tar.gz").unwrap(),
        "https://crates.io/api/v1/crates/foo/1.2.3/download"
    );
    assert_eq!(
        svc.build_upstream_url("foo", "1.2.3", "index.json").unwrap(),
        "https://crates.io/api/v1/crates/foo"
    );
}

#[test]
fn download_is_stored_and_served() {
    let mut svc = service("store");
    let data = vec![0x1f, 0x8b, 9, 9];
    let resp = svc.store_and_serve("foo", "1.0.0", "foo-1.0.0.crate", 200, data.clone(), 1000);
    assert_eq!(resp.status, 200);
    assert_eq!(resp.body, data);
    let cached = svc.serve_from_cache("foo", "1.0.0", "foo-1.0.0.crate").unwrap();
    assert_eq!(cached.status, 200);
    assert_eq!(cached.body, data);
}

#[test]
fn failed_download_is_a_500_and_not_cached() {
    let mut svc = service("store_fail");
    let resp = svc.store_and_serve("foo", "1.0.0", "foo-1.0.0.crate", 502, vec![0x1f, 0x8b], 1000);
    assert_eq!(resp.status, 500);
    let resp = svc.store_and_serve("foo", "1.0.0", "foo-1.0.0.crate", 200, vec![0, 0], 1000);
    assert_eq!(resp.status, 500);
    assert!(svc.serve_from_cache("foo", "1.0.0", "foo-1.0.0.crate").is_none());
}

#[test]
fn latest_after_fetch_records_and_answers_the_maximum() {
    let mut svc = service("latest_fetch");
    let versions = vec![cv("1.0.0", false), cv("1.1.0", false), cv("0.9.0", false)];
    let latest = svc.latest_after_fetch("foo", &versions, 1000).unwrap();
    assert_eq!(latest, "1.1.0");
    // The pointer is recorded: the index now answers without a fetch.
    let again = svc.version_manager.get_latest_version("foo", 1000).unwrap();
    assert_eq!(again.as_deref(), Some("1.1.0"));
}

#[test]
fn selector_resolution_distinguishes_missing_from_failed() {
    let svc = service("resolve");
    // A failed enumeration is a server error, never a missing version.
    match svc.resolve_selector_response(Err(ApiError::CurlError("down".to_string())), "1.0") {
        Err(resp) => assert_eq!(resp.status, 500),
        Ok(_) => panic!("a failed fetch must not resolve"),
    }
    // A list without a match is a 404.
    let versions = vec![cv("2.0.0", false)];
    match svc.resolve_selector_response(Ok(versions), "1.0") {
        Err(resp) => assert_eq!(resp.status, 404),
        Ok(_) => panic!("no version matches this selector"),
    }
    // A matching list resolves to the first match.
    let versions = vec![cv("1.0.0", false), cv("1.1.0", false)];
    match svc.resolve_selector_response(Ok(versions), "1.0") {
        Ok(v) => assert_eq!(v, "1.0.0"),
        Err(_) => panic!("a matching list must resolve"),
    }
}

#[test]
fn sweep_count_matches_removals() {
    let mut svc = service("sweep_count");
    svc.version_manager.set_latest_version("foo", "1.0.0", 0).unwrap();
    // The default TTL is 3600: at 5000 the pointer is stale.
    let cleaned = svc.version_manager.cleanup_expired_data(5000).unwrap();
    assert_eq!(cleaned, 1);
    // The eviction reaches the in-process map too.
    assert!(svc.version_manager.get_latest_version("foo", 5000).unwrap().is_none());
}
