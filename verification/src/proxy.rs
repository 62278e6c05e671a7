//! The request router: parses inbound paths, resolves selectors to concrete
//! versions through the version index, and answers from the artifact cache,
//! falling back to a download whose bytes the caller fetches.
//!
//! Network transfers suspend outside this module: the surrounding program
//! performs them and hands the outcomes (status codes, bytes, decoded
//! version lists) back to the functions here, which decide everything else.

use vstd::prelude::*;
use vstd::string::{StrSliceExecFns, StringExecFns};
use crate::cache::{CacheError, CacheManager};
use crate::config::Config;
use crate::crates_api::{
    spec_candidate_ok, spec_gzip_magic_ok, validate_download, ApiError, CratesApiClient,
    CrateVersion,
};
use crate::curl_client::{CurlClient, CurlError};
use crate::records::{
    spec_enc_mapping, spec_enc_version_info, spec_mapping_encodable, spec_version_info_encodable,
    LatestVersionMapping, VersionInfo,
};
use crate::store::tree_entries;
use crate::strutil::{
    find_char, lemma_first_index_of, lex_lt, spec_ends_with, spec_first_index_of, spec_lex_lt,
    spec_starts_with, str_eq, str_starts_with, str_to_bytes,
};
use crate::version_manager::{
    spec_latest_key, spec_version_key, VersionManager, VersionManagerError,
};

verus! {

#[derive(Debug)]
pub enum ProxyError {
    /// The artifact cache failed.
    CacheError(CacheError),
    /// The transport failed.
    CurlError(CurlError),
    /// The registry client failed.
    ApiError(ApiError),
    /// The version index failed.
    VersionManagerError(VersionManagerError),
    /// A URL could not be built or parsed.
    UrlError(String),
    /// The HTTP machinery failed.
    HttpError(String),
    /// Reading or writing a local file failed.
    IoError(String),
    /// The inbound request is not one this proxy serves.
    InvalidRequest(String),
}

/// One response to hand back: status, whether the body is an artifact
/// (served as an octet stream with its length), and the body bytes.
pub struct HttpResponse {
    pub status: u16,
    pub octet_stream: bool,
    pub body: Vec<u8>,
}

/// A successful artifact answer.
pub fn ok_octet_response(content: Vec<u8>) -> (r: HttpResponse)
    ensures
        r.status == 200,
        r.octet_stream,
        r.body@ == content@,
{
    HttpResponse { status: 200, octet_stream: true, body: content }
}

/// No version matched the selector.
pub fn not_found_response(version: &str) -> (r: HttpResponse)
    ensures
        r.status == 404,
        !r.octet_stream,
        r.body@ == vstd::utf8::encode_utf8("no matching version: "@ + version@),
{
    let mut s = "no matching version: ".to_owned();
    s.append(version);
    HttpResponse { status: 404, octet_stream: false, body: str_to_bytes(s.as_str()) }
}

/// Only GET is served.
pub fn method_not_allowed_response() -> (r: HttpResponse)
    ensures
        r.status == 405,
        !r.octet_stream,
        r.body@ == vstd::utf8::encode_utf8("Method Not Allowed"@),
{
    HttpResponse { status: 405, octet_stream: false, body: str_to_bytes("Method Not Allowed") }
}

/// The path is not one this proxy serves.
pub fn bad_request_response() -> (r: HttpResponse)
    ensures
        r.status == 400,
        !r.octet_stream,
        r.body@ == vstd::utf8::encode_utf8("Bad Request"@),
{
    HttpResponse { status: 400, octet_stream: false, body: str_to_bytes("Bad Request") }
}

/// An upstream or store failure; the upstream's words are never forwarded.
pub fn internal_error_response() -> (r: HttpResponse)
    ensures
        r.status == 500,
        !r.octet_stream,
        r.body@ == vstd::utf8::encode_utf8("internal server error"@),
{
    HttpResponse { status: 500, octet_stream: false, body: str_to_bytes("internal server error") }
}

/// What a path parses to: package name, selector (the literal `latest`
/// when the path leaves the version out), and the filename under which the
/// artifact is cached. Only the grammar
/// `/api/v1/crates/<name>[/<version>]/download` and
/// `/api/v1/crates/<name>` is accepted, with nonempty name and version.
pub open spec fn spec_parse_path(p: Seq<char>) -> Option<(Seq<char>, Seq<char>, Seq<char>)> {
    let pre = "/api/v1/crates/"@;
    if !spec_starts_with(p, pre) {
        None
    } else {
        let rest = p.skip(pre.len() as int);
        let i1 = spec_first_index_of(rest, '/');
        if i1 == -1 {
            if rest.len() == 0 {
                None
            } else {
                Some((rest, "latest"@, rest))
            }
        } else if i1 == 0 {
            None
        } else {
            let name = rest.take(i1);
            let tail = rest.skip(i1 + 1);
            let i2 = spec_first_index_of(tail, '/');
            if i2 == -1 {
                if tail == "download"@ {
                    Some((name, "latest"@, name + "-latest.crate"@))
                } else {
                    None
                }
            } else if i2 == 0 {
                None
            } else {
                let version = tail.take(i2);
                let rest2 = tail.skip(i2 + 1);
                if rest2 == "download"@ {
                    Some((name, version, name + "-"@ + version + ".crate"@))
                } else {
                    None
                }
            }
        }
    }
}

/// The canonical cache filename: a downloadable archive is renamed to
/// `<name>-<resolved version>.crate`; anything else passes through.
pub fn cache_file_name(crate_name: &str, filename: &str, actual_version: &str) -> (r: String)
    ensures
        spec_ends_with(filename@, ".crate"@) ==> r@ == crate_name@ + "-"@ + actual_version@
            + ".crate"@,
        !spec_ends_with(filename@, ".crate"@) ==> r@ == filename@,
{
    if crate::strutil::str_ends_with(filename, ".crate") {
        let mut s = crate_name.to_owned();
        s.append("-");
        s.append(actual_version);
        s.append(".crate");
        s
    } else {
        filename.to_owned()
    }
}

/// Is `i` a position the latest-version choice falls on: non-yanked, no
/// other non-yanked version is greater, and every later non-yanked version
/// is strictly smaller (ties go to the last)?
pub open spec fn spec_is_latest_choice(versions: Seq<CrateVersion>, i: int) -> bool {
    &&& 0 <= i < versions.len()
    &&& !versions[i].yanked
    &&& forall|j: int|
        #![auto]
        0 <= j < versions.len() && !versions[j].yanked ==> !spec_lex_lt(
            versions[i].num@,
            versions[j].num@,
        )
    &&& forall|j: int|
        #![auto]
        i < j < versions.len() && !versions[j].yanked ==> spec_lex_lt(
            versions[j].num@,
            versions[i].num@,
        )
}

/// The greatest non-yanked version by plain lexicographic comparison of the
/// version strings — deliberately not semantic-version aware, so for
/// example a two-digit major sorts before a one-digit one.
pub fn max_non_yanked_version(versions: &Vec<CrateVersion>) -> (r: Option<String>)
    ensures
        r matches Some(s) ==> exists|i: int|
            #![auto]
            spec_is_latest_choice(versions@, i) && s@ == versions@[i].num@,
        r is None ==> forall|i: int| 0 <= i < versions@.len() ==> versions@[i].yanked,
{
    let n = versions.len();
    let mut best: Option<usize> = None;
    let mut i: usize = 0;
    while i < n
        invariant
            n == versions@.len(),
            i <= n,
            best matches Some(b) ==> ({
                &&& b < i <= n
                &&& !versions@[b as int].yanked
                &&& forall|j: int|
                    #![auto]
                    0 <= j < i && !versions@[j].yanked ==> !spec_lex_lt(
                        versions@[b as int].num@,
                        versions@[j].num@,
                    )
                &&& forall|j: int|
                    #![auto]
                    b < j < i && !versions@[j].yanked ==> spec_lex_lt(
                        versions@[j].num@,
                        versions@[b as int].num@,
                    )
            }),
            best is None ==> forall|j: int| 0 <= j < i ==> versions@[j].yanked,
        decreases n - i,
    {
        if !versions[i].yanked {
            match best {
                None => {
                    proof {
                        crate::strutil::lemma_lex_irrefl(versions@[i as int].num@);
                    }
                    best = Some(i);
                },
                Some(b) => {
                    if !lex_lt(versions[i].num.as_str(), versions[b].num.as_str()) {
                        proof {
                            lemma_lex_replace(versions@, b as int, i as int);
                        }
                        best = Some(i);
                    } else {
                        proof {
                            assert(!spec_lex_lt(
                                versions@[b as int].num@,
                                versions@[i as int].num@,
                            )) by {
                                if spec_lex_lt(versions@[b as int].num@, versions@[i as int].num@) {
                                    crate::strutil::lemma_lex_trans(
                                        versions@[i as int].num@,
                                        versions@[b as int].num@,
                                        versions@[i as int].num@,
                                    );
                                    crate::strutil::lemma_lex_irrefl(versions@[i as int].num@);
                                }
                            }
                        }
                    }
                },
            }
        }
        i += 1;
    }
    match best {
        Some(b) => {
            proof {
                assert(spec_is_latest_choice(versions@, b as int));
            }
            Some(versions[b].num.clone())
        },
        None => None,
    }
}

/// Replacing the running maximum by a later, not-smaller candidate keeps it
/// a maximum of the prefix.
proof fn lemma_lex_replace(versions: Seq<CrateVersion>, b: int, i: int)
    requires
        0 <= b < i < versions.len(),
        !versions[b].yanked,
        !versions[i].yanked,
        !spec_lex_lt(versions[i].num@, versions[b].num@),
        forall|j: int|
            #![auto]
            0 <= j < i && !versions[j].yanked ==> !spec_lex_lt(versions[b].num@, versions[j].num@),
        forall|j: int|
            #![auto]
            b < j < i && !versions[j].yanked ==> spec_lex_lt(versions[j].num@, versions[b].num@),
    ensures
        forall|j: int|
            #![auto]
            0 <= j < i + 1 && !versions[j].yanked ==> !spec_lex_lt(
                versions[i].num@,
                versions[j].num@,
            ),
        forall|j: int|
            #![auto]
            i < j < i + 1 && !versions[j].yanked ==> spec_lex_lt(
                versions[j].num@,
                versions[i].num@,
            ),
{
    assert forall|j: int|
        #![auto]
        0 <= j < i + 1 && !versions[j].yanked implies !spec_lex_lt(
        versions[i].num@,
        versions[j].num@,
    ) by {
        if j < i {
            if spec_lex_lt(versions[i].num@, versions[j].num@) {
                crate::strutil::lemma_lex_connex(versions[i].num@, versions[b].num@);
                if versions[i].num@ == versions[b].num@ {
                } else {
                    crate::strutil::lemma_lex_trans(
                        versions[b].num@,
                        versions[i].num@,
                        versions[j].num@,
                    );
                }
            }
        } else {
            crate::strutil::lemma_lex_irrefl(versions[i].num@);
        }
    }
}

/// Do these stored bytes hold the record a fetched version becomes when it
/// is cached at `now` with TTL `ttl`?
pub open spec fn spec_records_version(bytes: Seq<u8>, v: CrateVersion, now: u64, ttl: u64) -> bool {
    exists|info: VersionInfo|
        #![auto]
        {
            &&& spec_version_info_encodable(info)
            &&& bytes == spec_enc_version_info(info)
            &&& info.version@ == v.num@
            &&& info.download_path@ == v.dl_path@
            &&& info.checksum@ == v.checksum@
            &&& info.yanked == v.yanked
            &&& info.created_at == now
            &&& info.expires_at == now + ttl
        }
}

/// What filling the versions table from a fetched list does to it: nothing
/// leaves, and whatever is new or changed is the record of one fetched
/// version.
pub open spec fn spec_versions_cached(
    name: Seq<char>,
    versions: Seq<CrateVersion>,
    vt0: Map<Seq<u8>, Seq<u8>>,
    vt1: Map<Seq<u8>, Seq<u8>>,
    now: u64,
    ttl: u64,
) -> bool {
    &&& forall|k: Seq<u8>| #[trigger] vt0.contains_key(k) ==> vt1.contains_key(k)
    &&& forall|k: Seq<u8>|
        #[trigger] vt1.contains_key(k) ==> ((vt0.contains_key(k) && vt1[k] == vt0[k]) || exists|
            j: int,
        |
            #![auto]
            0 <= j < versions.len() && k == spec_version_key(name, versions[j].num@)
                && spec_records_version(vt1[k], versions[j], now, ttl))
    &&& spec_versions_recorded_upto(name, versions, versions.len() as int, vt1, now, ttl)
}

/// Every one of the first `i` fetched versions has a record in the table
/// under its key — the record of the last fetched version with that number
/// (later duplicates win).
#[verifier::opaque]
pub open spec fn spec_versions_recorded_upto(
    name: Seq<char>,
    versions: Seq<CrateVersion>,
    i: int,
    vt: Map<Seq<u8>, Seq<u8>>,
    now: u64,
    ttl: u64,
) -> bool {
    forall|j: int|
        #![trigger spec_version_key(name, versions[j].num@)]
        0 <= j < i ==> exists|j2: int|
            #![trigger versions[j2]]
            0 <= j2 < i && versions[j2].num@ == versions[j].num@ && vt.contains_key(
                spec_version_key(name, versions[j].num@),
            ) && spec_records_version(
                vt[spec_version_key(name, versions[j].num@)],
                versions[j2],
                now,
                ttl,
            )
}

/// What recording a latest choice does: the durable pointer and the
/// in-process entry both point the package at that version.
pub open spec fn spec_latest_set(
    name: Seq<char>,
    ver: Seq<char>,
    lt0: Map<Seq<u8>, Seq<u8>>,
    lt1: Map<Seq<u8>, Seq<u8>>,
    c0: Map<Seq<char>, Seq<char>>,
    c1: Map<Seq<char>, Seq<char>>,
    now: u64,
    ttl: u64,
) -> bool {
    exists|m: LatestVersionMapping|
        #![auto]
        {
            &&& spec_mapping_encodable(m)
            &&& m.crate_name@ == name
            &&& m.latest_version@ == ver
            &&& m.updated_at == now
            &&& m.expires_at == now + ttl
            &&& lt1 == lt0.insert(spec_latest_key(name), spec_enc_mapping(m))
            &&& c1 == c0.insert(name, ver)
        }
}

/// The running state of the fill loop after `i` stored versions.
#[verifier::opaque]
spec fn cav_inv(
    name: Seq<char>,
    versions: Seq<CrateVersion>,
    i: int,
    now: u64,
    ttl: u64,
    vt0: Map<Seq<u8>, Seq<u8>>,
    cur: Map<Seq<u8>, Seq<u8>>,
) -> bool {
    &&& forall|k: Seq<u8>| #[trigger] vt0.contains_key(k) ==> cur.contains_key(k)
    &&& forall|k: Seq<u8>|
        #[trigger] cur.contains_key(k) ==> ((vt0.contains_key(k) && cur[k] == vt0[k]) || exists|
            j: int,
        |
            #![auto]
            0 <= j < i && k == spec_version_key(name, versions[j].num@) && spec_records_version(
                cur[k],
                versions[j],
                now,
                ttl,
            ))
    &&& spec_versions_recorded_upto(name, versions, i, cur, now, ttl)
}

proof fn lemma_cav_init(
    name: Seq<char>,
    versions: Seq<CrateVersion>,
    now: u64,
    ttl: u64,
    vt0: Map<Seq<u8>, Seq<u8>>,
)
    ensures
        cav_inv(name, versions, 0, now, ttl, vt0, vt0),
{
    reveal(cav_inv);
    reveal(spec_versions_recorded_upto);
}

#[verifier::rlimit(100)]
#[verifier::spinoff_prover]
proof fn lemma_cav_step(
    name: Seq<char>,
    versions: Seq<CrateVersion>,
    i: int,
    now: u64,
    ttl: u64,
    vt0: Map<Seq<u8>, Seq<u8>>,
    cur: Map<Seq<u8>, Seq<u8>>,
    new: Map<Seq<u8>, Seq<u8>>,
    info: VersionInfo,
)
    requires
        cav_inv(name, versions, i, now, ttl, vt0, cur),
        0 <= i < versions.len(),
        spec_version_info_encodable(info),
        info.version@ == versions[i].num@,
        info.download_path@ == versions[i].dl_path@,
        info.checksum@ == versions[i].checksum@,
        info.yanked == versions[i].yanked,
        info.created_at == now,
        info.expires_at == now + ttl,
        new == cur.insert(spec_version_key(name, versions[i].num@), spec_enc_version_info(info)),
    ensures
        cav_inv(name, versions, i + 1, now, ttl, vt0, new),
{
    reveal(cav_inv);
    reveal(spec_versions_recorded_upto);
    let key_i = spec_version_key(name, versions[i].num@);
    assert forall|j: int|
        #![trigger spec_version_key(name, versions[j].num@)]
        0 <= j < i + 1 implies exists|j2: int|
        #![trigger versions[j2]]
        0 <= j2 < i + 1 && versions[j2].num@ == versions[j].num@ && new.contains_key(
            spec_version_key(name, versions[j].num@),
        ) && spec_records_version(
            new[spec_version_key(name, versions[j].num@)],
            versions[j2],
            now,
            ttl,
        ) by {
        let kj = spec_version_key(name, versions[j].num@);
        if versions[j].num@ == versions[i].num@ {
            assert(kj == key_i);
            assert(new[kj] == spec_enc_version_info(info));
            assert(0 <= i < i + 1 && versions[i as int].num@ == versions[j].num@
                && new.contains_key(kj) && spec_records_version(
                new[kj],
                versions[i as int],
                now,
                ttl,
            ));
        } else {
            assert(kj != key_i) by {
                if kj == key_i {
                    crate::version_manager::lemma_version_key_injective(
                        name,
                        versions[j].num@,
                        versions[i].num@,
                    );
                }
            }
            assert(j < i);
            let j2 = choose|j2: int|
                #![auto]
                0 <= j2 < i && versions[j2].num@ == versions[j].num@ && cur.contains_key(kj)
                    && spec_records_version(cur[kj], versions[j2], now, ttl);
            assert(new.contains_key(kj));
            assert(new[kj] == cur[kj]);
            assert(0 <= j2 < i + 1 && versions[j2].num@ == versions[j].num@ && new.contains_key(
                kj,
            ) && spec_records_version(new[kj], versions[j2], now, ttl));
        }
    }
    assert forall|k: Seq<u8>| #[trigger]
        new.contains_key(k) implies ((vt0.contains_key(k) && new[k] == vt0[k]) || exists|j: int|
        #![auto]
        0 <= j < i + 1 && k == spec_version_key(name, versions[j].num@) && spec_records_version(
            new[k],
            versions[j],
            now,
            ttl,
        )) by {
        if k == key_i {
            assert(new[k] == spec_enc_version_info(info));
            assert(spec_records_version(new[k], versions[i], now, ttl));
        } else {
            assert(new.contains_key(k) == cur.contains_key(k));
            assert(new[k] == cur[k]);
            if !(vt0.contains_key(k) && cur[k] == vt0[k]) {
                let j = choose|j: int|
                    #![auto]
                    0 <= j < i && k == spec_version_key(name, versions[j].num@)
                        && spec_records_version(cur[k], versions[j], now, ttl);
                assert(0 <= j < i + 1 && k == spec_version_key(name, versions[j].num@)
                    && spec_records_version(new[k], versions[j], now, ttl));
            }
        }
    }
}

#[verifier::rlimit(100)]
#[verifier::spinoff_prover]
proof fn lemma_cav_finish(
    name: Seq<char>,
    versions: Seq<CrateVersion>,
    now: u64,
    ttl: u64,
    vt0: Map<Seq<u8>, Seq<u8>>,
    cur: Map<Seq<u8>, Seq<u8>>,
)
    requires
        cav_inv(name, versions, versions.len() as int, now, ttl, vt0, cur),
    ensures
        spec_versions_cached(name, versions, vt0, cur, now, ttl),
{
    reveal(cav_inv);
    let n = versions.len() as int;
    assert forall|k: Seq<u8>| #[trigger] vt0.contains_key(k) implies cur.contains_key(k) by {}
    assert forall|k: Seq<u8>| #[trigger]
        cur.contains_key(k) implies ((vt0.contains_key(k) && cur[k] == vt0[k]) || exists|j: int|
        #![auto]
        0 <= j < versions.len() && k == spec_version_key(name, versions[j].num@)
            && spec_records_version(cur[k], versions[j], now, ttl)) by {
        if !(vt0.contains_key(k) && cur[k] == vt0[k]) {
            let j = choose|j: int|
                #![auto]
                0 <= j < n && k == spec_version_key(name, versions[j].num@)
                    && spec_records_version(cur[k], versions[j], now, ttl);
            assert(0 <= j < versions.len() && k == spec_version_key(name, versions[j].num@)
                && spec_records_version(cur[k], versions[j], now, ttl));
        }
    }
}

/// The proxy: the artifact cache, the registry client, the transport
/// configuration, the upstream base, and the version index.
pub struct ProxyService {
    pub cache_manager: CacheManager,
    pub api_client: CratesApiClient,
    pub curl_client: CurlClient,
    pub upstream_url: String,
    pub version_manager: VersionManager,
}

impl ProxyService {
    pub open spec fn wf(&self) -> bool {
        self.cache_manager.wf() && self.version_manager.wf()
    }

    /// Builds every part from the configuration: an empty artifact cache
    /// over the configured root, the registry client, the transport
    /// configuration, and the version index over its durable store.
    pub fn new(config: &Config) -> (r: Result<Self, ProxyError>)
        ensures
            r matches Ok(s) ==> ({
                &&& s.wf()
                &&& s.cache_manager@ == Map::<(Seq<char>, Seq<char>, Seq<char>), (Seq<u8>, u64)>::empty()
                &&& s.cache_manager.spec_storage_path() == config.cache.storage_path@
                &&& s.cache_manager.spec_default_ttl() == config.cache.default_ttl
                &&& s.api_client.user_agent@ == config.user_agent.value@
                &&& s.api_client.timeout_secs == 30
                &&& s.curl_client.user_agent@ == config.user_agent.value@
                &&& s.curl_client.timeout_secs == 30
                &&& s.upstream_url@ == "https://crates.io/"@
                &&& s.version_manager.default_ttl == config.cache.default_ttl
                &&& s.version_manager.memory_cache@ == Map::<Seq<char>, Seq<char>>::empty()
            }),
            r is Err ==> r matches Err(ProxyError::VersionManagerError(_)),
    {
        let cache_manager = match CacheManager::new(
            config.cache.storage_path.as_str(),
            config.cache.default_ttl,
        ) {
            Ok(c) => c,
            Err(e) => {
                return Err(ProxyError::CacheError(e));
            },
        };
        let api_client = CratesApiClient::new(config);
        let proxy_url: Option<String> = match &config.upstream {
            Some(u) => match &u.proxy_url {
                Some(p) => Some(p.clone()),
                None => None,
            },
            None => None,
        };
        let curl_client = CurlClient::new(config.user_agent.value.clone(), proxy_url);
        let upstream_url = "https://crates.io/".to_owned();
        let version_manager = match VersionManager::new(config) {
            Ok(v) => v,
            Err(e) => {
                return Err(ProxyError::VersionManagerError(e));
            },
        };
        Ok(ProxyService { cache_manager, api_client, curl_client, upstream_url, version_manager })
    }

    /// Parses an inbound path against the accepted grammar.
    pub fn parse_crates_request(&self, path: &str) -> (r: Result<
        (String, String, String),
        ProxyError,
    >)
        ensures
            (r is Ok) == (spec_parse_path(path@) is Some),
            r matches Ok(t) ==> spec_parse_path(path@) == Some((t.0@, t.1@, t.2@)),
            r is Err ==> r matches Err(ProxyError::InvalidRequest(_)),
    {
        let pre = "/api/v1/crates/";
        if !str_starts_with(path, pre) {
            return Err(ProxyError::InvalidRequest("path is not under the crates API".to_owned()));
        }
        let n = path.unicode_len();
        let plen = pre.unicode_len();
        let rest = path.substring_char(plen, n);
        proof {
            assert(rest@ =~= path@.skip(pre@.len() as int));
            lemma_first_index_of(rest@, '/');
        }
        let rn = rest.unicode_len();
        match find_char(rest, '/') {
            None => {
                if rn == 0 {
                    Err(ProxyError::InvalidRequest("empty package name".to_owned()))
                } else {
                    Ok((rest.to_owned(), "latest".to_owned(), rest.to_owned()))
                }
            },
            Some(i1) => {
                if i1 == 0 {
                    return Err(ProxyError::InvalidRequest("empty package name".to_owned()));
                }
                let name = rest.substring_char(0, i1);
                let tail = rest.substring_char(i1 + 1, rn);
                proof {
                    assert(name@ =~= rest@.take(i1 as int));
                    assert(tail@ =~= rest@.skip(i1 as int + 1));
                    lemma_first_index_of(tail@, '/');
                }
                let tn = tail.unicode_len();
                match find_char(tail, '/') {
                    None => {
                        if str_eq(tail, "download") {
                            let mut f = name.to_owned();
                            f.append("-latest.crate");
                            Ok((name.to_owned(), "latest".to_owned(), f))
                        } else {
                            Err(
                                ProxyError::InvalidRequest(
                                    "path does not end in download".to_owned(),
                                ),
                            )
                        }
                    },
                    Some(i2) => {
                        if i2 == 0 {
                            return Err(ProxyError::InvalidRequest("empty version".to_owned()));
                        }
                        let version = tail.substring_char(0, i2);
                        let rest2 = tail.substring_char(i2 + 1, tn);
                        proof {
                            assert(version@ =~= tail@.take(i2 as int));
                            assert(rest2@ =~= tail@.skip(i2 as int + 1));
                        }
                        if str_eq(rest2, "download") {
                            let mut f = name.to_owned();
                            f.append("-");
                            f.append(version);
                            f.append(".crate");
                            Ok((name.to_owned(), version.to_owned(), f))
                        } else {
                            Err(
                                ProxyError::InvalidRequest(
                                    "path does not end in download".to_owned(),
                                ),
                            )
                        }
                    },
                }
            },
        }
    }

    /// The first decision on every request: anything but GET is answered
    /// 405 before parsing, a path outside the grammar 400, and only a
    /// well-formed GET goes on to resolution.
    pub fn route_request(&self, is_get: bool, path: &str) -> (r: Result<
        (String, String, String),
        HttpResponse,
    >)
        ensures
            !is_get ==> (r matches Err(resp) && resp.status == 405 && !resp.octet_stream
                && resp.body@ == vstd::utf8::encode_utf8("Method Not Allowed"@)),
            is_get && spec_parse_path(path@) is None ==> (r matches Err(resp) && resp.status == 400
                && !resp.octet_stream && resp.body@ == vstd::utf8::encode_utf8("Bad Request"@)),
            r matches Ok(t) ==> is_get && spec_parse_path(path@) == Some((t.0@, t.1@, t.2@)),
            is_get && spec_parse_path(path@) is Some ==> r is Ok,
    {
        if !is_get {
            return Err(method_not_allowed_response());
        }
        match self.parse_crates_request(path) {
            Ok(t) => Ok(t),
            Err(_) => Err(bad_request_response()),
        }
    }

    /// The upstream endpoint a request maps to: the archive endpoint for an
    /// archive filename, the metadata endpoint otherwise. Segments are
    /// joined verbatim, with no percent-encoding: names the path grammar
    /// accepts contain no separator.
    pub fn build_upstream_url(&self, crate_name: &str, version: &str, filename: &str) -> (r:
        Result<String, ProxyError>)
        ensures
            r matches Ok(u) ==> ({
                if filename@ == "crate.tar.gz"@ {
                    u@ == self.upstream_url@ + "api/v1/crates/"@ + crate_name@ + "/"@ + version@
                        + "/download"@
                } else {
                    u@ == self.upstream_url@ + "api/v1/crates/"@ + crate_name@
                }
            }),
            r is Ok,
    {
        let mut u = self.upstream_url.clone();
        u.append("api/v1/crates/");
        u.append(crate_name);
        if str_eq(filename, "crate.tar.gz") {
            u.append("/");
            u.append(version);
            u.append("/download");
            Ok(u)
        } else {
            Ok(u)
        }
    }

    /// Answers from the artifact cache: the content under this identity
    /// when it is present (freshness deliberately not consulted), nothing
    /// otherwise.
    pub fn serve_from_cache(&self, crate_name: &str, version: &str, filename: &str) -> (r: Option<
        HttpResponse,
    >)
        requires
            self.wf(),
        ensures
            r matches Some(resp) ==> ({
                &&& self.cache_manager@.contains_key((crate_name@, version@, filename@))
                &&& resp.status == 200
                &&& resp.octet_stream
                &&& resp.body@ == self.cache_manager@[(crate_name@, version@, filename@)].0
            }),
            r is None ==> !self.cache_manager@.contains_key((crate_name@, version@, filename@)),
    {
        if self.cache_manager.is_cached(crate_name, version, filename) {
            match self.cache_manager.get_cached_content(crate_name, version, filename) {
                Ok(content) => Some(ok_octet_response(content)),
                Err(_) => {
                    // A present identity reads successfully: the read's
                    // contract rules this arm out.
                    proof {
                        assert(false);
                    }
                    None
                },
            }
        } else {
            None
        }
    }

    /// Takes a finished download: a 200 with the archive magic number is
    /// stored in the cache under its identity and served; anything else
    /// leaves the cache alone and is a 500 with a generic body.
    pub fn store_and_serve(
        &mut self,
        crate_name: &str,
        version: &str,
        filename: &str,
        code: u32,
        data: Vec<u8>,
        now: u64,
    ) -> (r: HttpResponse)
        requires
            old(self).wf(),
        ensures
            final(self).wf(),
            final(self).version_manager == old(self).version_manager,
            final(self).cache_manager.spec_storage_path() == old(
                self,
            ).cache_manager.spec_storage_path(),
            final(self).cache_manager.spec_default_ttl() == old(
                self,
            ).cache_manager.spec_default_ttl(),
            code == 200 && spec_gzip_magic_ok(data@) ==> ({
                &&& final(self).cache_manager@ == old(self).cache_manager@.insert(
                    (crate_name@, version@, filename@),
                    (data@, now),
                )
                &&& r.status == 200
                &&& r.octet_stream
                &&& r.body@ == data@
            }),
            !(code == 200 && spec_gzip_magic_ok(data@)) ==> ({
                &&& final(self).cache_manager@ == old(self).cache_manager@
                &&& r.status == 500
                &&& !r.octet_stream
                &&& r.body@ == vstd::utf8::encode_utf8("internal server error"@)
            }),
    {
        match validate_download(code, data) {
            Ok(bytes) => {
                let res = self.cache_manager.save_to_cache(
                    crate_name,
                    version,
                    filename,
                    bytes.as_slice(),
                    now,
                );
                match res {
                    Ok(()) => {},
                    Err(_) => {},
                }
                ok_octet_response(bytes)
            },
            Err(_) => internal_error_response(),
        }
    }

    /// Turns the outcome of a version enumeration into the selector answer:
    /// a failed fetch is a 500 (transport and parse failures are server
    /// errors, never a missing version), a list without a match is a 404,
    /// and otherwise the first version the selector accepts is the answer.
    pub fn resolve_selector_response(
        &self,
        fetch: Result<Vec<CrateVersion>, ApiError>,
        selector: &str,
    ) -> (r: Result<String, HttpResponse>)
        ensures
            fetch is Err ==> (r matches Err(resp) && resp.status == 500 && !resp.octet_stream
                && resp.body@ == vstd::utf8::encode_utf8("internal server error"@)),
            fetch matches Ok(vs) ==> (r matches Err(resp) ==> (resp.status == 404 && forall|
                i: int,
            | 0 <= i < vs@.len() ==> !spec_candidate_ok(vs@[i], selector@))),
            r matches Ok(v) ==> (fetch matches Ok(vs) && exists|i: int|
                #![auto]
                0 <= i < vs@.len() && spec_candidate_ok(vs@[i], selector@) && v@ == vs@[i].num@
                    && forall|j: int| 0 <= j < i ==> !spec_candidate_ok(vs@[j], selector@)),
            fetch matches Ok(vs) ==> ((exists|i: int|
                0 <= i < vs@.len() && spec_candidate_ok(vs@[i], selector@)) ==> r is Ok),
    {
        match fetch {
            Err(_) => Err(internal_error_response()),
            Ok(vs) => {
                let picked = self.api_client.select_version_for_range(&vs, selector);
                match picked {
                    Some(v) => Ok(v.num.clone()),
                    None => {
                        proof {
                            assert(forall|i: int|
                                0 <= i < vs@.len() ==> !spec_candidate_ok(vs@[i], selector@));
                        }
                        Err(not_found_response(selector))
                    },
                }
            },
        }
    }

    /// Fills the version index from one fetched list: the greatest
    /// non-yanked version (by plain string comparison) becomes the latest
    /// pointer, and every fetched version is stored as a record valid for
    /// the default TTL from `now`. An empty list changes nothing.
    pub fn cache_all_versions(
        &mut self,
        crate_name: &str,
        versions: &Vec<CrateVersion>,
        now: u64,
    ) -> (r: Result<(), ProxyError>)
        requires
            old(self).wf(),
            now + old(self).version_manager.default_ttl <= u64::MAX,
        ensures
            final(self).wf(),
            final(self).cache_manager == old(self).cache_manager,
            final(self).version_manager.default_ttl == old(self).version_manager.default_ttl,
            versions@.len() == 0 ==> r is Ok && final(self).version_manager == old(
                self,
            ).version_manager,
            r is Ok ==> spec_versions_cached(
                crate_name@,
                versions@,
                tree_entries(old(self).version_manager.versions_tree),
                tree_entries(final(self).version_manager.versions_tree),
                now,
                old(self).version_manager.default_ttl,
            ),
            r is Ok && (exists|i: int| spec_is_latest_choice(versions@, i)) ==> exists|i: int|
                #![auto]
                spec_is_latest_choice(versions@, i) && spec_latest_set(
                    crate_name@,
                    versions@[i].num@,
                    tree_entries(old(self).version_manager.latest_tree),
                    tree_entries(final(self).version_manager.latest_tree),
                    old(self).version_manager.memory_cache@,
                    final(self).version_manager.memory_cache@,
                    now,
                    old(self).version_manager.default_ttl,
                ),
            r is Ok && !(exists|i: int| spec_is_latest_choice(versions@, i)) ==> ({
                &&& tree_entries(final(self).version_manager.latest_tree) == tree_entries(
                    old(self).version_manager.latest_tree,
                )
                &&& final(self).version_manager.memory_cache@ == old(
                    self,
                ).version_manager.memory_cache@
            }),
    {
        let ghost ttl = self.version_manager.default_ttl;
        let n = versions.len();
        if n == 0 {
            proof {
                lemma_cav_init(
                    crate_name@,
                    versions@,
                    now,
                    ttl,
                    tree_entries(self.version_manager.versions_tree),
                );
                lemma_cav_finish(
                    crate_name@,
                    versions@,
                    now,
                    ttl,
                    tree_entries(self.version_manager.versions_tree),
                    tree_entries(self.version_manager.versions_tree),
                );
            }
            return Ok(());
        }
        match max_non_yanked_version(versions) {
            Some(latest) => {
                match self.version_manager.set_latest_version(crate_name, latest.as_str(), now) {
                    Ok(()) => {},
                    Err(e) => {
                        return Err(ProxyError::VersionManagerError(e));
                    },
                }
            },
            None => {
                proof {
                    assert forall|i: int| !spec_is_latest_choice(versions@, i) by {}
                }
            },
        }
        let ghost lt1v = tree_entries(self.version_manager.latest_tree);
        let ghost c1v = self.version_manager.memory_cache@;
        let ghost vt0 = tree_entries(self.version_manager.versions_tree);
        proof {
            lemma_cav_init(crate_name@, versions@, now, ttl, vt0);
        }
        let mut i: usize = 0;
        while i < n
            invariant
                self.wf(),
                self.cache_manager == old(self).cache_manager,
                self.version_manager.default_ttl == old(self).version_manager.default_ttl,
                now + self.version_manager.default_ttl <= u64::MAX,
                ttl == self.version_manager.default_ttl,
                n == versions@.len(),
                i <= n,
                tree_entries(self.version_manager.latest_tree) == lt1v,
                self.version_manager.memory_cache@ == c1v,
                cav_inv(
                    crate_name@,
                    versions@,
                    i as int,
                    now,
                    ttl,
                    vt0,
                    tree_entries(self.version_manager.versions_tree),
                ),
            decreases n - i,
        {
            let ghost cur = tree_entries(self.version_manager.versions_tree);
            let v = &versions[i];
            match self.version_manager.create_version_info(
                crate_name,
                v.num.as_str(),
                v.dl_path.as_str(),
                v.checksum.as_str(),
                v.yanked,
                now,
            ) {
                Ok(info) => {
                    proof {
                        lemma_cav_step(
                            crate_name@,
                            versions@,
                            i as int,
                            now,
                            ttl,
                            vt0,
                            cur,
                            tree_entries(self.version_manager.versions_tree),
                            info,
                        );
                    }
                },
                Err(e) => {
                    return Err(ProxyError::VersionManagerError(e));
                },
            }
            i += 1;
        }
        proof {
            lemma_cav_finish(
                crate_name@,
                versions@,
                now,
                ttl,
                vt0,
                tree_entries(self.version_manager.versions_tree),
            );
        }
        Ok(())
    }

    /// Resolves `latest` right after a fetch: the fetched list is cached,
    /// and the freshly recorded pointer is read back. When the list held a
    /// non-yanked version, the answer is exactly the greatest one.
    pub fn latest_after_fetch(
        &mut self,
        crate_name: &str,
        versions: &Vec<CrateVersion>,
        now: u64,
    ) -> (r: Result<String, ProxyError>)
        requires
            old(self).wf(),
            now + old(self).version_manager.default_ttl <= u64::MAX,
        ensures
            final(self).wf(),
            final(self).cache_manager == old(self).cache_manager,
            versions@.len() == 0 && old(self).version_manager.memory_cache@.contains_key(
                crate_name@,
            ) ==> (r matches Ok(v) && v@ == old(self).version_manager.memory_cache@[crate_name@]),
            r is Ok ==> spec_versions_cached(
                crate_name@,
                versions@,
                tree_entries(old(self).version_manager.versions_tree),
                tree_entries(final(self).version_manager.versions_tree),
                now,
                old(self).version_manager.default_ttl,
            ),
            (exists|i: int| spec_is_latest_choice(versions@, i)) && r is Ok ==> (r matches Ok(v)
                && exists|i: int|
                #![auto]
                spec_is_latest_choice(versions@, i) && v@ == versions@[i].num@ && spec_latest_set(
                    crate_name@,
                    versions@[i].num@,
                    tree_entries(old(self).version_manager.latest_tree),
                    tree_entries(final(self).version_manager.latest_tree),
                    old(self).version_manager.memory_cache@,
                    final(self).version_manager.memory_cache@,
                    now,
                    old(self).version_manager.default_ttl,
                )),
    {
        let ghost lt0 = tree_entries(self.version_manager.latest_tree);
        let ghost c0 = self.version_manager.memory_cache@;
        let ghost ttl = self.version_manager.default_ttl;
        match self.cache_all_versions(crate_name, versions, now) {
            Ok(()) => {},
            Err(e) => {
                return Err(e);
            },
        }
        let ghost lt_mid = tree_entries(self.version_manager.latest_tree);
        let ghost c_mid = self.version_manager.memory_cache@;
        let ghost vt_mid = tree_entries(self.version_manager.versions_tree);
        match self.version_manager.get_latest_version(crate_name, now) {
            Ok(Some(v)) => {
                proof {
                    assert(tree_entries(self.version_manager.versions_tree) == vt_mid);
                    if exists|i: int| spec_is_latest_choice(versions@, i) {
                        let i = choose|i: int|
                            #![auto]
                            spec_is_latest_choice(versions@, i) && spec_latest_set(
                                crate_name@,
                                versions@[i].num@,
                                lt0,
                                lt_mid,
                                c0,
                                c_mid,
                                now,
                                ttl,
                            );
                        let ver = versions@[i].num@;
                        let m = choose|m: LatestVersionMapping|
                            #![auto]
                            {
                                &&& spec_mapping_encodable(m)
                                &&& m.crate_name@ == crate_name@
                                &&& m.latest_version@ == ver
                                &&& m.updated_at == now
                                &&& m.expires_at == now + ttl
                                &&& lt_mid == lt0.insert(
                                    spec_latest_key(crate_name@),
                                    spec_enc_mapping(m),
                                )
                                &&& c_mid == c0.insert(crate_name@, ver)
                            };
                        assert(c_mid.contains_key(crate_name@));
                        assert(v@ == c_mid[crate_name@]);
                        assert(v@ == ver);
                        assert(c_mid.insert(crate_name@, v@) =~= c_mid);
                        assert(self.version_manager.memory_cache@ == c_mid);
                        assert(tree_entries(self.version_manager.latest_tree) == lt_mid);
                        assert(spec_latest_set(
                            crate_name@,
                            ver,
                            lt0,
                            tree_entries(self.version_manager.latest_tree),
                            c0,
                            self.version_manager.memory_cache@,
                            now,
                            ttl,
                        ));
                    }
                }
                Ok(v)
            },
            Ok(None) => Err(
                ProxyError::InvalidRequest("no version information for the package".to_owned()),
            ),
            Err(e) => Err(ProxyError::VersionManagerError(e)),
        }
    }
}

} // verus!
