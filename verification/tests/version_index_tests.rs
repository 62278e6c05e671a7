use crates_proxy::config::Config;
use crates_proxy::records::{
    decode_mapping, decode_version_info, encode_mapping, encode_version_info,
    LatestVersionMapping, VersionInfo,
};
use crates_proxy::strutil::u64_to_dec_string;
use crates_proxy::version_manager::VersionManager;

fn info(version: &str, created_at: u64, expires_at: u64) -> VersionInfo {
    VersionInfo {
        version: version.to_string(),
        download_path: format!("/api/v1/crates/foo/{}/download", version),
        checksum: "deadbeef".to_string(),
        yanked: false,
        created_at,
        expires_at,
    }
}

fn manager(tag: &str) -> VersionManager {
    let mut config = Config::default();
    let nanos = std::time::SystemTime::now()
        .duration_since(std::time::UNIX_EPOCH)
        .unwrap()
        .as_nanos();
    config.cache.storage_path = format!("/tmp/crates_proxy_test_vm_{}_{}", tag, nanos);
    VersionManager::new(&config).unwrap()
}

#[test]
fn record_codec_round_trip() {
    let v = info("1.2.3", 100, 200);
    let bytes = encode_version_info(&v);
    let back = decode_version_info(&bytes).unwrap();
    assert_eq!(back.version, "1.2.3");
    assert_eq!(back.download_path, "/api/v1/crates/foo/1.2.3/download");
    assert_eq!(back.checksum, "deadbeef");
    assert!(!back.yanked);
    assert_eq!(back.created_at, 100);
    assert_eq!(back.expires_at, 200);
}

#[test]
fn mapping_codec_round_trip() {
    let m = LatestVersionMapping {
        crate_name: "foo".to_string(),
        latest_version: "1.1.0".to_string(),
        updated_at: 5,
        expires_at: 3605,
    };
    let bytes = encode_mapping(&m);
    let back = decode_mapping(&bytes).unwrap();
    assert_eq!(back.crate_name, "foo");
    assert_eq!(back.latest_version, "1.1.0");
    assert_eq!(back.updated_at, 5);
    assert_eq!(back.expires_at, 3605);
}

#[test]
fn codec_rejects_malformed_bytes() {
    assert!(decode_version_info(&vec![]).is_none());
    assert!(decode_version_info(&vec![0u8; 40]).is_none());
    let mut bytes = encode_version_info(&info("1.0.0", 1, 2));
    bytes.pop();
    assert!(decode_version_info(&bytes).is_none());
    assert!(decode_mapping(&vec![1, 2, 3]).is_none());
}

#[test]
fn stored_record_survives_the_store() {
    let mut vm = manager("roundtrip");
    vm.set_version_info("foo", "1.0.0", info("1.0.0", 100, u64::MAX)).unwrap();
    let back = vm.get_version_info("foo", "1.0.0", 100).unwrap().unwrap();
    assert_eq!(back.version, "1.0.0");
    assert_eq!(back.checksum, "deadbeef");
    vm.flush().unwrap();
}

#[test]
fn expired_record_reads_absent_and_leaves_the_table() {
    let mut vm = manager("ttl");
    vm.set_version_info("foo", "1.0.0", info("1.0.0", 100, 200)).unwrap();
    // Past its TTL the record reads as absent and is evicted on the way.
    assert!(vm.get_version_info("foo", "1.0.0", 201).unwrap().is_none());
    // It stays absent even for a reader whose clock would accept it.
    assert!(vm.get_version_info("foo", "1.0.0", 150).unwrap().is_none());
}

#[test]
fn latest_pointer_has_a_ttl() {
    let mut vm = manager("latest_ttl");
    vm.set_latest_version("foo", "1.1.0", 1000).unwrap();
    assert_eq!(vm.get_latest_version("foo", 1000).unwrap().as_deref(), Some("1.1.0"));
    // The default TTL is 3600: the sweep retires the pointer and evicts the
    // in-process entry, so the next read is a miss.
    vm.cleanup_expired_data(5000).unwrap();
    assert!(vm.get_latest_version("foo", 5000).unwrap().is_none());
}

#[test]
fn sweep_completeness() {
    let mut vm = manager("sweep");
    vm.set_version_info("foo", "1.0.0", info("1.0.0", 0, 100)).unwrap();
    vm.set_version_info("foo", "2.0.0", info("2.0.0", 0, 5000)).unwrap();
    vm.set_latest_version("bar", "0.1.0", 0).unwrap();
    let now = 4000;
    // The default TTL is 3600, so the pointer set at 0 is stale at 4000.
    let cleaned = vm.cleanup_expired_data(now).unwrap();
    assert_eq!(cleaned, 2);
    let stats = vm.get_stats(now).unwrap();
    assert_eq!(stats.expired_count, 0);
    assert_eq!(stats.versions_count, 1);
    assert_eq!(stats.latest_mappings_count, 0);
    assert!(vm.get_version_info("foo", "2.0.0", now).unwrap().is_some());
    assert!(vm.get_version_info("foo", "1.0.0", now).unwrap().is_none());
}

#[test]
fn all_versions_lists_only_fresh_records() {
    let mut vm = manager("all_versions");
    vm.set_version_info("foo", "1.0.0", info("1.0.0", 0, 100)).unwrap();
    vm.set_version_info("foo", "2.0.0", info("2.0.0", 0, 5000)).unwrap();
    vm.set_version_info("other", "9.9.9", info("9.9.9", 0, 5000)).unwrap();
    let list = vm.get_all_versions("foo", 1000).unwrap();
    assert_eq!(list.len(), 1);
    assert_eq!(list[0].version, "2.0.0");
}

#[test]
fn cold_requests_each_miss_and_each_would_fetch() {
    let mut vm = manager("single_flight");
    // There is no single-flight coalescing: with the key cold, every
    // concurrent request sees a miss and drives its own upstream fetch.
    let requests = 3;
    let mut fetches = 0;
    for _ in 0..requests {
        if vm.get_latest_version("foo", 1000).unwrap().is_none() {
            fetches += 1;
        }
    }
    assert_eq!(fetches, requests);
}

#[test]
fn decimal_formatting() {
    assert_eq!(u64_to_dec_string(0), "0");
    assert_eq!(u64_to_dec_string(1234567890), "1234567890");
    assert_eq!(u64_to_dec_string(u64::MAX), "18446744073709551615");
}

#[test]
fn config_validation() {
    let mut config = Config::default();
    assert!(config.validate().is_ok());
    config.server.bind_addr = "no-port-here".to_string();
    assert!(config.validate().is_err());
}
