use crates_proxy::config::Config;
use crates_proxy::crates_api::{
    crate_info_from_json, crate_info_url, download_url, interpret_response, validate_download,
    version_detail_url, version_from_json, version_ids_from_json, ApiError, CratesApiClient,
    CrateVersion,
};
use crates_proxy::curl_client::CurlClient;
use crates_proxy::json::JsonValue;

fn cv(num: &str, yanked: bool) -> CrateVersion {
    CrateVersion {
        num: num.to_string(),
        dl_path: "/test".to_string(),
        checksum: "test".to_string(),
        yanked,
    }
}

#[test]
fn test_api_client_creation() {
    let config = Config::default();
    let client = CratesApiClient::new(&config);

    assert_eq!(client.user_agent, "Mozilla/5.0 (Macintosh; Intel Mac OS X 10_15_7) AppleWebKit/537.36 (KHTML, like Gecko) Chrome/120.0.0.0 Safari/537.36");
    assert_eq!(client.timeout_secs, 30);
}

#[test]
fn test_version_selection() {
    let config = Config::default();
    let client = CratesApiClient::new(&config);

    let versions = vec![cv("1.0.0", false), cv("1.1.0", false)];

    let selected = client.select_version_for_range(&versions, "1.0");
    assert!(selected.is_some());
    assert_eq!(selected.unwrap().num, "1.0.0");
}

#[test]
fn test_client_creation() {
    let client = CurlClient::new(
        "test-agent".to_string(),
        Some("http://proxy.example.com:8080".to_string()),
    );

    assert_eq!(client.user_agent, "test-agent");
    assert_eq!(client.proxy_url, Some("http://proxy.example.com:8080".to_string()));
}

#[test]
fn selector_rules_on_three_versions() {
    let config = Config::default();
    let client = CratesApiClient::new(&config);
    let versions = vec![cv("1.0.0", false), cv("1.1.0", false), cv("2.0.0", false)];

    assert_eq!(client.select_version_for_range(&versions, "1.0").unwrap().num, "1.0.0");
    assert_eq!(client.select_version_for_range(&versions, "1").unwrap().num, "1.0.0");
    assert_eq!(client.select_version_for_range(&versions, "1.1.0").unwrap().num, "1.1.0");
    assert!(client.select_version_for_range(&versions, "9.9").is_none());
}

#[test]
fn selector_skips_yanked_versions() {
    let config = Config::default();
    let client = CratesApiClient::new(&config);
    let versions = vec![cv("1.0.0", true), cv("1.0.1", false)];
    assert_eq!(client.select_version_for_range(&versions, "1.0").unwrap().num, "1.0.1");
    assert!(client.select_version_for_range(&versions, "1.0.0").is_none());
}

#[test]
fn sample_versions_for_known_names() {
    let config = Config::default();
    let client = CratesApiClient::new(&config);
    let h2 = client.generate_sample_versions("h2");
    assert_eq!(h2.len(), 2);
    assert_eq!(h2[0].num, "0.4.6");
    assert_eq!(h2[1].num, "0.3.26");
    assert!(client.generate_sample_versions("nothing-known").is_empty());
}

#[test]
fn endpoint_urls() {
    assert_eq!(crate_info_url("serde"), "https://crates.io/api/v1/crates/serde");
    assert_eq!(
        version_detail_url("serde", 1234567890),
        "https://crates.io/api/v1/crates/serde/versions/1234567890"
    );
    assert_eq!(
        download_url("serde", "1.0.0"),
        "https://crates.io/api/v1/crates/serde/1.0.0/download"
    );
}

#[test]
fn download_validation() {
    let ok = validate_download(200, vec![0x1f, 0x8b, 0x08, 0x00]);
    assert_eq!(ok.unwrap(), vec![0x1f, 0x8b, 0x08, 0x00]);

    match validate_download(200, vec![0x50, 0x4b]) {
        Err(ApiError::InvalidFileFormat(_)) => {}
        _ => panic!("wrong magic must be rejected"),
    }
    match validate_download(404, vec![0x1f, 0x8b]) {
        Err(ApiError::DownloadFailed(code, _)) => assert_eq!(code, 404),
        _ => panic!("non-200 must fail the download"),
    }
}

#[test]
fn response_interpretation() {
    assert_eq!(interpret_response(200, b"hello".to_vec()).unwrap(), "hello");
    match interpret_response(500, b"boom".to_vec()) {
        Err(ApiError::HttpError(code, body)) => {
            assert_eq!(code, 500);
            assert_eq!(body, "boom");
        }
        _ => panic!("non-200 must be an upstream error"),
    }
    match interpret_response(200, vec![0xff, 0xfe]) {
        Err(ApiError::Utf8Error(_)) => {}
        _ => panic!("invalid UTF-8 must be rejected"),
    }
}

fn obj(fields: Vec<(&str, JsonValue)>) -> JsonValue {
    JsonValue::Object(fields.into_iter().map(|(k, v)| (k.to_string(), v)).collect())
}

fn s(v: &str) -> JsonValue {
    JsonValue::Str(v.to_string())
}

#[test]
fn crate_info_extraction() {
    let json = obj(vec![
        (
            "crate",
            obj(vec![
                ("id", s("serde")),
                ("name", s("serde")),
                ("description", s("serialization")),
                ("max_version", s("1.0.210")),
                ("downloads", JsonValue::UInt(99)),
            ]),
        ),
        (
            "versions",
            JsonValue::Array(vec![JsonValue::UInt(7), JsonValue::Null, JsonValue::UInt(8)]),
        ),
    ]);
    let info = crate_info_from_json(&json).unwrap();
    assert_eq!(info.id, "serde");
    assert_eq!(info.name, "serde");
    assert_eq!(info.description.as_deref(), Some("serialization"));
    assert_eq!(info.max_version, "1.0.210");
    assert_eq!(info.downloads, 99);
    assert_eq!(info.versions, vec![7, 8]);
}

#[test]
fn crate_info_missing_field_is_parse_error() {
    let json = obj(vec![("crate", obj(vec![("id", s("x")), ("name", s("x"))]))]);
    match crate_info_from_json(&json) {
        Err(ApiError::ParseError(_)) => {}
        _ => panic!("missing max_version must be a parse error"),
    }
}

#[test]
fn version_detail_extraction() {
    let json = obj(vec![(
        "version",
        obj(vec![
            ("num", s("0.4.6")),
            ("crate_id", s("h2")),
            ("id", JsonValue::UInt(42)),
            ("checksum", s("abc")),
            ("yanked", JsonValue::Bool(true)),
        ]),
    )]);
    let v = version_from_json(&json).unwrap();
    assert_eq!(v.num, "0.4.6");
    assert_eq!(v.dl_path, "/api/v1/crates/h2/versions/42/download");
    assert_eq!(v.checksum, "abc");
    assert!(v.yanked);

    let bare = obj(vec![("version", obj(vec![("num", s("1.0.0"))]))]);
    let v = version_from_json(&bare).unwrap();
    assert_eq!(v.dl_path, "/api/v1/crates/unknown/versions/0/download");
    assert_eq!(v.checksum, "");
    assert!(!v.yanked);
}

#[test]
fn version_ids_ignore_non_integers() {
    let json = obj(vec![(
        "versions",
        JsonValue::Array(vec![JsonValue::UInt(3), s("x"), JsonValue::OtherNumber, JsonValue::UInt(1)]),
    )]);
    assert_eq!(version_ids_from_json(&json), vec![3, 1]);
    assert_eq!(version_ids_from_json(&obj(vec![])), Vec::<u64>::new());
}
