//! Registry metadata: extraction from JSON responses, version selection,
//! endpoint URLs, and validation of downloaded archives.
//!
//! The network transfer itself is the surrounding program's business: it
//! hands the status code and body bytes (or the decoded JSON tree) to the
//! functions here, which decide everything about them.

use vstd::prelude::*;
use vstd::string::StringExecFns;
use vstd::utf8::{encode_utf8, valid_utf8};
use crate::config::Config;
use crate::json::{spec_as_bool, spec_as_str, spec_as_u64, spec_get, JsonValue};
use crate::strutil::{
    count_char, spec_count_char, spec_starts_with, spec_u64_dec, str_eq, str_starts_with,
    string_from_utf8, string_from_utf8_lossy, u64_to_dec_string,
};

verus! {

/// One concrete version of a package, as the registry lists it.
#[derive(Debug, Clone)]
pub struct CrateVersion {
    pub num: String,
    pub dl_path: String,
    pub checksum: String,
    pub yanked: bool,
}

/// The registry's summary of one package.
#[derive(Debug, Clone)]
pub struct CrateInfo {
    pub id: String,
    pub name: String,
    pub description: Option<String>,
    pub max_version: String,
    pub downloads: u64,
    pub versions: Vec<u64>,
}

/// Configuration a registry client carries into every request.
#[derive(Debug)]
pub struct CratesApiClient {
    pub proxy_url: Option<String>,
    pub user_agent: String,
    pub timeout_secs: u64,
}

#[derive(Debug)]
pub enum ApiError {
    /// The registry answered with a status other than 200.
    HttpError(u32, String),
    /// The archive endpoint answered with a status other than 200.
    DownloadFailed(u32, String),
    /// The response lacks a field the extraction needs.
    ParseError(String),
    /// The downloaded bytes do not begin with the archive magic number.
    InvalidFileFormat(String),
    /// Writing a downloaded file failed.
    IoError(String),
    /// The transfer itself failed.
    CurlError(String),
    /// The response body is not well-formed JSON.
    JsonError(String),
    /// The response body is not valid UTF-8.
    Utf8Error(String),
}

/// Does `v` satisfy selector `range`? The rules, tried per candidate: exact
/// equality; literal prefix; a dotless selector extended by a dot; a
/// one-dot selector extended by a dot. Yanked versions never match.
pub open spec fn spec_version_matches(num: Seq<char>, range: Seq<char>) -> bool {
    ||| num == range
    ||| spec_starts_with(num, range)
    ||| (spec_count_char(range, '.') == 0 && spec_starts_with(num, range + seq!['.']))
    ||| (spec_count_char(range, '.') == 1 && spec_starts_with(num, range + seq!['.']))
}

pub open spec fn spec_candidate_ok(v: CrateVersion, range: Seq<char>) -> bool {
    !v.yanked && spec_version_matches(v.num@, range)
}

impl CratesApiClient {
    /// A client for the given configuration, with the fixed 30 second
    /// transfer timeout.
    pub fn new(config: &Config) -> (r: Self)
        ensures
            r.user_agent@ == config.user_agent.value@,
            r.timeout_secs == 30,
            r.proxy_url == (match config.upstream {
                Some(u) => u.proxy_url,
                None => None::<String>,
            }),
    {
        let proxy_url: Option<String> = match &config.upstream {
            Some(u) => match &u.proxy_url {
                Some(p) => Some(p.clone()),
                None => None,
            },
            None => None,
        };
        CratesApiClient {
            proxy_url,
            user_agent: config.user_agent.value.clone(),
            timeout_secs: 30,
        }
    }

    /// The first version in the given order that a selector accepts.
    pub fn select_version_for_range<'a>(
        &self,
        versions: &'a Vec<CrateVersion>,
        range: &str,
    ) -> (r: Option<&'a CrateVersion>)
        ensures
            r matches Some(v) ==> exists|i: int|
                0 <= i < versions@.len() && versions@[i] == *v && spec_candidate_ok(
                    versions@[i],
                    range@,
                ) && forall|j: int| 0 <= j < i ==> !spec_candidate_ok(versions@[j], range@),
            r is None ==> forall|i: int|
                0 <= i < versions@.len() ==> !spec_candidate_ok(versions@[i], range@),
    {
        let dots = count_char(range, '.');
        let mut range_dot = range.to_owned();
        range_dot.append(".");
        proof {
            reveal_strlit(".");
            assert(range_dot@ =~= range@ + seq!['.']);
        }
        let n = versions.len();
        let mut i: usize = 0;
        while i < n
            invariant
                n == versions@.len(),
                i <= n,
                dots == spec_count_char(range@, '.'),
                range_dot@ == range@ + seq!['.'],
                forall|j: int| 0 <= j < i ==> !spec_candidate_ok(versions@[j], range@),
            decreases n - i,
        {
            let v = &versions[i];
            if !v.yanked {
                let m = str_eq(v.num.as_str(), range) || str_starts_with(v.num.as_str(), range)
                    || (dots == 0 && str_starts_with(v.num.as_str(), range_dot.as_str())) || (dots
                    == 1 && str_starts_with(v.num.as_str(), range_dot.as_str()));
                if m {
                    assert(spec_candidate_ok(versions@[i as int], range@));
                    return Some(&versions[i]);
                }
            }
            assert(!spec_candidate_ok(versions@[i as int], range@));
            i += 1;
        }
        None
    }

    /// Sample metadata for a handful of well-known names, used by local
    /// experiments without touching the registry.
    pub fn generate_sample_versions(&self, crate_name: &str) -> (r: Vec<CrateVersion>)
        ensures
            crate_name@ == "h2"@ ==> sample_pair_matches(
                r@,
                ("0.4.6"@, "/api/v1/crates/h2/0.4.6/download"@),
                ("0.3.26"@, "/api/v1/crates/h2/0.3.26/download"@),
            ),
            crate_name@ == "tokio"@ ==> sample_pair_matches(
                r@,
                ("1.40.0"@, "/api/v1/crates/tokio/1.40.0/download"@),
                ("1.39.3"@, "/api/v1/crates/tokio/1.39.3/download"@),
            ),
            crate_name@ == "serde"@ ==> sample_pair_matches(
                r@,
                ("1.0.210"@, "/api/v1/crates/serde/1.0.210/download"@),
                ("1.0.200"@, "/api/v1/crates/serde/1.0.200/download"@),
            ),
            crate_name@ != "h2"@ && crate_name@ != "tokio"@ && crate_name@ != "serde"@ ==> r@.len()
                == 0,
    {
        proof {
            reveal_strlit("h2");
            reveal_strlit("tokio");
            reveal_strlit("serde");
            assert("h2"@.len() == 2);
            assert("tokio"@.len() == 5);
            assert("serde"@.len() == 5);
            assert("tokio"@[0] == 't');
            assert("serde"@[0] == 's');
        }
        if str_eq(crate_name, "h2") {
            let mut v: Vec<CrateVersion> = Vec::new();
            v.push(
                CrateVersion {
                    num: "0.4.6".to_owned(),
                    dl_path: "/api/v1/crates/h2/0.4.6/download".to_owned(),
                    checksum: "sample_checksum_h2_0_4_6".to_owned(),
                    yanked: false,
                },
            );
            v.push(
                CrateVersion {
                    num: "0.3.26".to_owned(),
                    dl_path: "/api/v1/crates/h2/0.3.26/download".to_owned(),
                    checksum: "sample_checksum_h2_0_3_26".to_owned(),
                    yanked: false,
                },
            );
            v
        } else if str_eq(crate_name, "tokio") {
            let mut v: Vec<CrateVersion> = Vec::new();
            v.push(
                CrateVersion {
                    num: "1.40.0".to_owned(),
                    dl_path: "/api/v1/crates/tokio/1.40.0/download".to_owned(),
                    checksum: "sample_checksum_tokio_1_40_0".to_owned(),
                    yanked: false,
                },
            );
            v.push(
                CrateVersion {
                    num: "1.39.3".to_owned(),
                    dl_path: "/api/v1/crates/tokio/1.39.3/download".to_owned(),
                    checksum: "sample_checksum_tokio_1_39_3".to_owned(),
                    yanked: false,
                },
            );
            v
        } else if str_eq(crate_name, "serde") {
            let mut v: Vec<CrateVersion> = Vec::new();
            v.push(
                CrateVersion {
                    num: "1.0.210".to_owned(),
                    dl_path: "/api/v1/crates/serde/1.0.210/download".to_owned(),
                    checksum: "sample_checksum_serde_1_0_210".to_owned(),
                    yanked: false,
                },
            );
            v.push(
                CrateVersion {
                    num: "1.0.200".to_owned(),
                    dl_path: "/api/v1/crates/serde/1.0.200/download".to_owned(),
                    checksum: "sample_checksum_serde_1_0_200".to_owned(),
                    yanked: false,
                },
            );
            v
        } else {
            Vec::new()
        }
    }
}

/// Do the versions in `r` carry exactly these two (number, download path)
/// pairs, neither of them yanked?
pub open spec fn sample_pair_matches(
    r: Seq<CrateVersion>,
    a: (Seq<char>, Seq<char>),
    b: (Seq<char>, Seq<char>),
) -> bool {
    &&& r.len() == 2
    &&& r[0].num@ == a.0
    &&& r[0].dl_path@ == a.1
    &&& !r[0].yanked
    &&& r[1].num@ == b.0
    &&& r[1].dl_path@ == b.1
    &&& !r[1].yanked
}

/// The metadata endpoint for one package.
pub fn crate_info_url(crate_name: &str) -> (r: String)
    ensures
        r@ == "https://crates.io/api/v1/crates/"@ + crate_name@,
{
    let mut s = "https://crates.io/api/v1/crates/".to_owned();
    s.append(crate_name);
    s
}

/// The detail endpoint for one numeric version identifier.
pub fn version_detail_url(crate_name: &str, id: u64) -> (r: String)
    ensures
        r@ == "https://crates.io/api/v1/crates/"@ + crate_name@ + "/versions/"@ + spec_u64_dec(
            id as int,
        ),
{
    let mut s = "https://crates.io/api/v1/crates/".to_owned();
    s.append(crate_name);
    s.append("/versions/");
    let id_str = u64_to_dec_string(id);
    s.append(id_str.as_str());
    s
}

/// The archive endpoint for one concrete version.
pub fn download_url(crate_name: &str, version: &str) -> (r: String)
    ensures
        r@ == "https://crates.io/api/v1/crates/"@ + crate_name@ + "/"@ + version@ + "/download"@,
{
    let mut s = "https://crates.io/api/v1/crates/".to_owned();
    s.append(crate_name);
    s.append("/");
    s.append(version);
    s.append("/download");
    s
}

/// Turns a status code and body into the body text: any status other than
/// 200 is an upstream error carrying the (lossily decoded) body, and a 200
/// body must be valid UTF-8.
pub fn interpret_response(code: u32, body: Vec<u8>) -> (r: Result<String, ApiError>)
    ensures
        (r is Ok) == (code == 200 && valid_utf8(body@)),
        r matches Ok(t) ==> encode_utf8(t@) == body@,
        code != 200 ==> (r matches Err(ApiError::HttpError(c, _)) && c == code),
        code != 200 && valid_utf8(body@) ==> (r matches Err(ApiError::HttpError(_, t))
            && encode_utf8(t@) == body@),
        code == 200 && !valid_utf8(body@) ==> r matches Err(ApiError::Utf8Error(_)),
{
    if code != 200 {
        let text = string_from_utf8_lossy(&body);
        return Err(ApiError::HttpError(code, text));
    }
    match string_from_utf8(body) {
        Some(t) => {
            proof {
                vstd::utf8::encode_utf8_valid_utf8(t@);
            }
            Ok(t)
        },
        None => {
            assert(!valid_utf8(body@));
            Err(ApiError::Utf8Error("response body is not valid UTF-8".to_owned()))
        },
    }
}

/// Is this response body shaped so that a `CrateInfo` can be read from it?
pub open spec fn spec_crate_info_shape_ok(j: JsonValue) -> bool {
    &&& spec_get(j, "crate"@) is Some
    &&& spec_as_str(spec_get(spec_get(j, "crate"@).unwrap(), "id"@)) is Some
    &&& spec_as_str(spec_get(spec_get(j, "crate"@).unwrap(), "name"@)) is Some
    &&& spec_as_str(spec_get(spec_get(j, "crate"@).unwrap(), "max_version"@)) is Some
}

/// The numeric identifiers among the elements, in order.
pub open spec fn spec_u64s_of(arr: Seq<JsonValue>) -> Seq<u64>
    decreases arr.len(),
{
    if arr.len() == 0 {
        Seq::empty()
    } else {
        match arr[0] {
            JsonValue::UInt(n) => seq![n] + spec_u64s_of(arr.skip(1)),
            _ => spec_u64s_of(arr.skip(1)),
        }
    }
}

/// The version identifiers of a metadata response: the integers of its
/// `versions` array, or none when that field is not an array.
pub open spec fn spec_version_ids(j: JsonValue) -> Seq<u64> {
    match spec_get(j, "versions"@) {
        Some(JsonValue::Array(a)) => spec_u64s_of(a@),
        _ => Seq::empty(),
    }
}

proof fn lemma_u64s_of_step(arr: Seq<JsonValue>, i: int)
    requires
        0 <= i < arr.len(),
    ensures
        spec_u64s_of(arr.skip(i)) == match arr[i] {
            JsonValue::UInt(n) => seq![n] + spec_u64s_of(arr.skip(i + 1)),
            _ => spec_u64s_of(arr.skip(i + 1)),
        },
{
    assert(arr.skip(i)[0] == arr[i]);
    assert(arr.skip(i).skip(1) =~= arr.skip(i + 1));
}

/// Collects the numeric version identifiers of a metadata response.
pub fn version_ids_from_json(json: &JsonValue) -> (r: Vec<u64>)
    ensures
        r@ == spec_version_ids(*json),
{
    let arr = match json.get("versions") {
        Some(v) => match v.as_array() {
            Some(a) => a,
            None => {
                return Vec::new();
            },
        },
        None => {
            return Vec::new();
        },
    };
    let n = arr.len();
    let mut out: Vec<u64> = Vec::new();
    proof {
        assert(arr@.skip(0) =~= arr@);
    }
    let mut i: usize = 0;
    while i < n
        invariant
            n == arr@.len(),
            i <= n,
            out@ + spec_u64s_of(arr@.skip(i as int)) == spec_u64s_of(arr@),
        decreases n - i,
    {
        proof {
            lemma_u64s_of_step(arr@, i as int);
        }
        match arr[i].as_u64() {
            Some(v) => {
                out.push(v);
                assert(out@ + spec_u64s_of(arr@.skip(i as int + 1)) =~= spec_u64s_of(arr@));
            },
            None => {
                assert(out@ + spec_u64s_of(arr@.skip(i as int + 1)) =~= spec_u64s_of(arr@));
            },
        }
        i += 1;
    }
    proof {
        assert(arr@.skip(n as int) =~= Seq::<JsonValue>::empty());
        assert(out@ =~= spec_u64s_of(arr@));
    }
    out
}

/// Reads the package summary out of a metadata response: the `crate` object
/// must carry `id`, `name` and `max_version` strings; `description` and
/// `downloads` are optional; the version identifiers come from the
/// top-level `versions` array.
pub fn crate_info_from_json(json: &JsonValue) -> (r: Result<CrateInfo, ApiError>)
    ensures
        (r is Ok) == spec_crate_info_shape_ok(*json),
        r matches Ok(info) ==> {
            let c = spec_get(*json, "crate"@).unwrap();
            &&& info.id@ == spec_as_str(spec_get(c, "id"@)).unwrap()
            &&& info.name@ == spec_as_str(spec_get(c, "name"@)).unwrap()
            &&& info.max_version@ == spec_as_str(spec_get(c, "max_version"@)).unwrap()
            &&& (match spec_as_str(spec_get(c, "description"@)) {
                Some(d) => info.description matches Some(s) && s@ == d,
                None => info.description is None,
            })
            &&& info.downloads == (match spec_as_u64(spec_get(c, "downloads"@)) {
                Some(d) => d,
                None => 0u64,
            })
            &&& info.versions@ == spec_version_ids(*json)
        },
        r is Err ==> r matches Err(ApiError::ParseError(_)),
{
    let crate_obj = match json.get("crate") {
        Some(c) => c,
        None => {
            return Err(ApiError::ParseError("missing 'crate' field".to_owned()));
        },
    };
    let id = match crate_obj.get("id") {
        Some(v) => match v.as_str() {
            Some(s) => s.clone(),
            None => {
                return Err(ApiError::ParseError("missing 'id' field".to_owned()));
            },
        },
        None => {
            return Err(ApiError::ParseError("missing 'id' field".to_owned()));
        },
    };
    let name = match crate_obj.get("name") {
        Some(v) => match v.as_str() {
            Some(s) => s.clone(),
            None => {
                return Err(ApiError::ParseError("missing 'name' field".to_owned()));
            },
        },
        None => {
            return Err(ApiError::ParseError("missing 'name' field".to_owned()));
        },
    };
    let description: Option<String> = match crate_obj.get("description") {
        Some(v) => match v.as_str() {
            Some(s) => Some(s.clone()),
            None => None,
        },
        None => None,
    };
    let max_version = match crate_obj.get("max_version") {
        Some(v) => match v.as_str() {
            Some(s) => s.clone(),
            None => {
                return Err(ApiError::ParseError("missing 'max_version' field".to_owned()));
            },
        },
        None => {
            return Err(ApiError::ParseError("missing 'max_version' field".to_owned()));
        },
    };
    let downloads: u64 = match crate_obj.get("downloads") {
        Some(v) => match v.as_u64() {
            Some(d) => d,
            None => 0,
        },
        None => 0,
    };
    let versions = version_ids_from_json(json);
    Ok(CrateInfo { id, name, description, max_version, downloads, versions })
}

/// Reads one version record out of a version-detail response: `num` must be
/// a string; the download path is rebuilt from `crate_id` and the numeric
/// `id`; `checksum` and `yanked` default to empty and false.
pub fn version_from_json(json: &JsonValue) -> (r: Result<CrateVersion, ApiError>)
    ensures
        (r is Ok) == (spec_get(*json, "version"@) matches Some(v) && spec_as_str(
            spec_get(v, "num"@),
        ) is Some),
        r matches Ok(cv) ==> {
            let v = spec_get(*json, "version"@).unwrap();
            &&& cv.num@ == spec_as_str(spec_get(v, "num"@)).unwrap()
            &&& cv.dl_path@ == "/api/v1/crates/"@ + (match spec_as_str(spec_get(v, "crate_id"@)) {
                Some(c) => c,
                None => "unknown"@,
            }) + "/versions/"@ + spec_u64_dec(
                (match spec_as_u64(spec_get(v, "id"@)) {
                    Some(d) => d,
                    None => 0u64,
                }) as int,
            ) + "/download"@
            &&& cv.checksum@ == (match spec_as_str(spec_get(v, "checksum"@)) {
                Some(c) => c,
                None => Seq::<char>::empty(),
            })
            &&& cv.yanked == (match spec_as_bool(spec_get(v, "yanked"@)) {
                Some(b) => b,
                None => false,
            })
        },
        r is Err ==> r matches Err(ApiError::ParseError(_)),
{
    let version_obj = match json.get("version") {
        Some(v) => v,
        None => {
            return Err(ApiError::ParseError("missing 'version' field".to_owned()));
        },
    };
    let num = match version_obj.get("num") {
        Some(v) => match v.as_str() {
            Some(s) => s.clone(),
            None => {
                return Err(ApiError::ParseError("missing 'num' field".to_owned()));
            },
        },
        None => {
            return Err(ApiError::ParseError("missing 'num' field".to_owned()));
        },
    };
    let mut dl_path = "/api/v1/crates/".to_owned();
    match version_obj.get("crate_id") {
        Some(v) => match v.as_str() {
            Some(s) => dl_path.append(s.as_str()),
            None => dl_path.append("unknown"),
        },
        None => dl_path.append("unknown"),
    };
    dl_path.append("/versions/");
    let id: u64 = match version_obj.get("id") {
        Some(v) => match v.as_u64() {
            Some(d) => d,
            None => 0,
        },
        None => 0,
    };
    let id_str = u64_to_dec_string(id);
    dl_path.append(id_str.as_str());
    dl_path.append("/download");
    let checksum: String = match version_obj.get("checksum") {
        Some(v) => match v.as_str() {
            Some(s) => s.clone(),
            None => String::new(),
        },
        None => String::new(),
    };
    let yanked: bool = match version_obj.get("yanked") {
        Some(v) => match v.as_bool() {
            Some(b) => b,
            None => false,
        },
        None => false,
    };
    Ok(CrateVersion { num, dl_path, checksum, yanked })
}

/// Is this the start of a gzip archive?
pub open spec fn spec_gzip_magic_ok(data: Seq<u8>) -> bool {
    data.len() >= 2 && data[0] == 0x1f && data[1] == 0x8b
}

/// Accepts a downloaded archive: the status must be 200 and the bytes must
/// begin with the gzip magic number; the bytes pass through unchanged.
pub fn validate_download(code: u32, data: Vec<u8>) -> (r: Result<Vec<u8>, ApiError>)
    ensures
        (r is Ok) == (code == 200 && spec_gzip_magic_ok(data@)),
        r matches Ok(d) ==> d@ == data@,
        code != 200 ==> (r matches Err(ApiError::DownloadFailed(c, _)) && c == code),
        code == 200 && !spec_gzip_magic_ok(data@) ==> r matches Err(ApiError::InvalidFileFormat(_)),
{
    if code != 200 {
        return Err(ApiError::DownloadFailed(code, "download failed".to_owned()));
    }
    if data.len() < 2 {
        return Err(ApiError::InvalidFileFormat("file is not a valid gzip archive".to_owned()));
    }
    let b0 = data[0];
    let b1 = data[1];
    if b0 != 0x1f || b1 != 0x8b {
        return Err(ApiError::InvalidFileFormat("file is not a valid gzip archive".to_owned()));
    }
    Ok(data)
}

} // verus!
